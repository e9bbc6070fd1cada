//! Two representative strategies over the broker interface.
//!
//! Strategies are heuristics: their contracts promise only that they hand
//! the broker back well formed and leave the series and the trade-identifier
//! counter alone.  Order-admission failures are soft — a rejected order is
//! simply dropped, as the `Strategy` contract expects.

use vstd::prelude::*;
use crate::engine::{Broker, Order, Strategy};
use crate::fixed::{SIZE_LIMIT, SIZE_UNIT, div_trunc_i128, iabs};

verus! {

/// Buys everything affordable at the first close and sells at the last.
pub struct SimpleStrategy;

impl SimpleStrategy {
    pub fn new() -> (r: Self)
        ensures
            r == (SimpleStrategy {}),
    {
        SimpleStrategy
    }
}

impl Strategy for SimpleStrategy {
    fn init(&mut self, broker: &mut Broker) {
    }

    fn next(&mut self, broker: &mut Broker, index: usize) {
        if broker.trades.len() == 0 {
            let price = broker.data.close[index];
            proof {
                crate::engine::lemma_inv_counts(broker@);
            }
            // All the cash buys `cash / price` size units.
            let affordable = div_trunc_i128(broker.cash, price as i128);
            if 0 < affordable && affordable <= SIZE_LIMIT as i128 {
                let size: i64 = affordable as i64;
                let scaled = broker.scale_order_size(size);
                if broker.can_admit() && -(SIZE_LIMIT as i128) <= scaled && scaled <= SIZE_LIMIT
                    as i128 {
                    let order = Order {
                        size,
                        limit: None,
                        stop: None,
                        sl: None,
                        tp: None,
                        parent_trade: None,
                        instrument: 1,
                    };
                    let _ = broker.new_order(order, price);
                }
            }
        } else if index == broker.data.close.len() - 1 {
            broker.close_position(0, index);
        }
    }
}

/// Trades the cross of two simple moving averages of the close: buys a
/// fixed size on a bullish cross and closes the oldest position on a
/// bearish one.
pub struct SmaStrategy {
    pub sma_period: usize,
    pub sma_period_2: usize,
    pub close: Vec<i64>,
}

impl SmaStrategy {
    pub fn new() -> (r: Self)
        ensures
            r.sma_period == 10,
            r.sma_period_2 == 20,
            r.close@.len() == 0,
    {
        SmaStrategy { sma_period: 10, sma_period_2: 20, close: Vec::new() }
    }
}

/// Sum of a window of closes, as exact integers.
fn window_sum(close: &Vec<i64>, lo: usize, hi: usize) -> (r: i128)
    requires
        lo <= hi <= close@.len(),
        hi - lo <= 1000,
    ensures
        iabs(r as int) <= (hi - lo) * 9223372036854775808int,
{
    let mut acc: i128 = 0;
    let mut k: usize = lo;
    while k < hi
        invariant
            lo <= k <= hi,
            hi <= close@.len(),
            hi - lo <= 1000,
            iabs(acc as int) <= (k - lo) * 9223372036854775808int,
        decreases hi - k,
    {
        proof {
            assert((k + 1 - lo) * 9223372036854775808int == (k - lo) * 9223372036854775808int + 9223372036854775808int) by (nonlinear_arith);
            assert((k - lo) * 9223372036854775808int <= 1000 * 9223372036854775808int) by (nonlinear_arith)
                requires
                    0 <= k - lo <= 1000,
            ;
        }
        acc = acc + close[k] as i128;
        k = k + 1;
    }
    acc
}

impl Strategy for SmaStrategy {
    fn init(&mut self, broker: &mut Broker) {
        // Copy the close column so `next` can read it without borrowing the
        // broker twice.
        let mut c: Vec<i64> = Vec::new();
        let mut k: usize = 0;
        while k < broker.data.close.len()
            invariant
                0 <= k <= broker.data.close@.len(),
                c@ == broker.data.close@.take(k as int),
                broker.wf(),
                broker@.next_id == old(broker)@.next_id,
                broker@.data == old(broker)@.data,
                broker@.usage_history == old(broker)@.usage_history,
                broker@.closed == old(broker)@.closed,
            decreases broker.data.close@.len() - k,
        {
            c.push(broker.data.close[k]);
            proof {
                assert(c@ =~= broker.data.close@.take(k + 1));
            }
            k = k + 1;
        }
        self.close = c;
    }

    fn next(&mut self, broker: &mut Broker, index: usize) {
        let p1 = self.sma_period;
        let p2 = self.sma_period_2;
        if p1 == 0 || p2 == 0 || p1 > 1000 || p2 > 1000 {
            return ;
        }
        let min_required = if p1 > p2 {
            p1 + 1
        } else {
            p2 + 1
        };
        if index < min_required || index >= self.close.len() {
            return ;
        }
        // Compare the two moving averages by cross-multiplying the window
        // sums, so the comparison is exact.
        let w1_curr = window_sum(&self.close, index - p1, index);
        let w2_curr = window_sum(&self.close, index - p2, index);
        let w1_prev = window_sum(&self.close, index - 1 - p1, index - 1);
        let w2_prev = window_sum(&self.close, index - 1 - p2, index - 1);
        proof {
            crate::fixed::lemma_mul_abs_bound(
                w1_curr as int,
                p2 as int,
                1000 * 9223372036854775808int,
                1000,
            );
            crate::fixed::lemma_mul_abs_bound(
                w2_curr as int,
                p1 as int,
                1000 * 9223372036854775808int,
                1000,
            );
            crate::fixed::lemma_mul_abs_bound(
                w1_prev as int,
                p2 as int,
                1000 * 9223372036854775808int,
                1000,
            );
            crate::fixed::lemma_mul_abs_bound(
                w2_prev as int,
                p1 as int,
                1000 * 9223372036854775808int,
                1000,
            );
        }
        let curr_up = w1_curr * (p2 as i128) > w2_curr * (p1 as i128);
        let curr_down = w1_curr * (p2 as i128) < w2_curr * (p1 as i128);
        let prev_up = w1_prev * (p2 as i128) > w2_prev * (p1 as i128);
        let prev_down = w1_prev * (p2 as i128) < w2_prev * (p1 as i128);
        let price = self.close[index];
        if !prev_up && curr_up {
            // Bullish cross: buy a fixed thirty shares.
            if price >= 1 && price <= crate::fixed::PRICE_LIMIT {
                let size: i64 = 30 * SIZE_UNIT;
                let scaled = broker.scale_order_size(size);
                if broker.can_admit() && -(SIZE_LIMIT as i128) <= scaled && scaled <= SIZE_LIMIT
                    as i128 {
                    let order = Order {
                        size,
                        limit: None,
                        stop: None,
                        sl: None,
                        tp: None,
                        parent_trade: None,
                        instrument: 1,
                    };
                    let _ = broker.new_order(order, price);
                }
            }
        } else if !prev_down && curr_down && broker.trades.len() > 0 {
            // Bearish cross (the fast average was at or above the slow one
            // and fell below it): close the oldest open position.
            broker.close_position(0, index);
        }
    }
}

} // verus!
