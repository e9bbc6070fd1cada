//! The broker core: order admission, order matching against price ticks,
//! trade lifecycle, and cash / margin / equity bookkeeping.
//!
//! One engine serves both data shapes.  A `PriceSeries` in bar mode carries
//! open/high/low/close columns (plus a secondary close for a hedge
//! instrument); in live mode it carries ask/bid columns per instrument.  The
//! matching rules differ between the two modes exactly where a bar and a
//! quote differ, and are written once, guarded by `live_mode`.
//!
//! All amounts are integers (see `fixed`): prices in price units, sizes in
//! `1/SIZE_UNIT` shares, cash and profit in size-unit-times-price-unit.  The
//! ledger is exact: cash changes only by the realized profit of a closing
//! trade, or when ruin zeroes the account.

use vstd::prelude::*;
use crate::fixed::{
    SIZE_UNIT, COMMISSION_DEN, USAGE_SCALE, PRICE_LIMIT, ADJ_PRICE_LIMIT, SIZE_LIMIT, CASH_LIMIT,
    MARGIN_DEN_LIMIT, LEDGER_CAP, PNL_ABS_LIMIT, CASH_ABS_LIMIT, EQUITY_ABS_LIMIT, iabs, div_trunc,
    div_trunc_i128, lemma_mul_abs_bound,
};

verus! {

/// Why an order was refused admission.  All three are soft, per-order
/// rejections: the run continues and the caller may resubmit later.
#[derive(Clone, Copy, Debug, PartialEq, Eq, Structural)]
pub enum OrderError {
    /// The order's notional exceeds the available buying power.
    MarginExceeded,
    /// Fractional sizes are not allowed in the cash-only (no-leverage) regime.
    FractionalOrderNotAllowed,
    /// The per-side cap on concurrently open trades is already reached.
    TradeLimitExceeded,
}

/// One price observation appended to a `PriceSeries`.
#[derive(Clone, Debug)]
pub struct Tick {
    pub date: String,
    pub open: i64,
    pub high: i64,
    pub low: i64,
    pub close: i64,
    pub close2: i64,
    pub ask: i64,
    pub bid: i64,
    pub ask2: i64,
    pub bid2: i64,
}

/// The ordered, validated price history the broker is stepped over.
///
/// Columns all have one entry per tick.  In bar mode the open/high/low/close
/// columns (and `close2` for the hedge instrument) drive matching; in live
/// mode the ask/bid columns (and `ask2`/`bid2`) do.  The unused columns must
/// still be filled with in-range prices (a live feed can mirror its mid or
/// quote prices into the bar columns and vice versa).
#[derive(Clone, Debug)]
pub struct PriceSeries {
    pub live_mode: bool,
    pub date: Vec<String>,
    pub open: Vec<i64>,
    pub high: Vec<i64>,
    pub low: Vec<i64>,
    pub close: Vec<i64>,
    pub close2: Vec<i64>,
    pub ask: Vec<i64>,
    pub bid: Vec<i64>,
    pub ask2: Vec<i64>,
    pub bid2: Vec<i64>,
}

/// A pending order.  A positive size is a long order, a negative size short.
/// An order with `parent_trade` set is contingent: it exists only to close
/// the open trade with that identifier and never opens a position.
#[derive(Clone, Copy, Debug, PartialEq, Eq, Structural)]
pub struct Order {
    pub size: i64,
    pub limit: Option<i64>,
    pub stop: Option<i64>,
    pub sl: Option<i64>,
    pub tp: Option<i64>,
    pub parent_trade: Option<u64>,
    /// 1 = primary instrument, 2 = hedge instrument.
    pub instrument: u8,
}

/// An open or closed trade.  Trades carry a stable, monotonically assigned
/// identifier so that contingent orders stay attached to the right trade
/// however the open-trade collection is reordered.
#[derive(Clone, Copy, Debug, PartialEq, Eq, Structural)]
pub struct Trade {
    pub id: u64,
    /// 1 = primary instrument, 2 = hedge instrument.
    pub instrument: u8,
    pub size: i64,
    pub entry_price: i64,
    pub entry_index: usize,
    pub exit_price: Option<i64>,
    pub exit_index: Option<usize>,
}

/// Realized profit of a trade: `size * (exit - entry)`, zero while open.
pub open spec fn spec_pnl(t: Trade) -> int {
    match t.exit_price {
        Some(x) => (t.size as int) * (x as int - t.entry_price as int),
        None => 0,
    }
}

/// Notional exposure of one open trade: `|size| * entry_price`.
pub open spec fn spec_exposure(t: Trade) -> int {
    iabs(t.size as int) * (t.entry_price as int)
}

/// Sum of realized profits over a trade sequence.
pub open spec fn sum_pnl(s: Seq<Trade>) -> int
    decreases s.len(),
{
    if s.len() == 0 {
        0
    } else {
        sum_pnl(s.drop_last()) + spec_pnl(s.last())
    }
}

/// Sum of notional exposures over a trade sequence.
pub open spec fn sum_exposure(s: Seq<Trade>) -> int
    decreases s.len(),
{
    if s.len() == 0 {
        0
    } else {
        sum_exposure(s.drop_last()) + spec_exposure(s.last())
    }
}

/// Net signed size over a trade sequence.
pub open spec fn sum_size(s: Seq<Trade>) -> int
    decreases s.len(),
{
    if s.len() == 0 {
        0
    } else {
        sum_size(s.drop_last()) + s.last().size as int
    }
}

/// Number of open trades on one side (long when `long` is true).
pub open spec fn count_side(s: Seq<Trade>, long: bool) -> int
    decreases s.len(),
{
    if s.len() == 0 {
        0
    } else {
        count_side(s.drop_last(), long) + if long == (s.last().size > 0) && s.last().size != 0 {
            1int
        } else {
            0int
        }
    }
}

/// Ledger weight of one pending order: an order carrying a stop-loss price
/// counts twice, because executing it creates both a trade and a contingent
/// order.
pub open spec fn order_weight(o: Order) -> int {
    if o.sl is Some {
        2
    } else {
        1
    }
}

/// Total ledger weight of a pending-order sequence.
pub open spec fn sum_weight(s: Seq<Order>) -> int
    decreases s.len(),
{
    if s.len() == 0 {
        0
    } else {
        sum_weight(s.drop_last()) + order_weight(s.last())
    }
}

/// A raw price the engine will accept.
pub open spec fn price_in_range(p: i64) -> bool {
    1 <= p <= PRICE_LIMIT
}

/// An optional order price field, in range when present.
pub open spec fn opt_price_ok(p: Option<i64>) -> bool {
    p is Some ==> price_in_range(p->0)
}

/// Bounds every order the engine stores or admits.
pub open spec fn order_ok(o: Order) -> bool {
    &&& iabs(o.size as int) <= SIZE_LIMIT as int
    &&& opt_price_ok(o.limit)
    &&& opt_price_ok(o.stop)
    &&& opt_price_ok(o.sl)
    &&& opt_price_ok(o.tp)
    &&& (o.instrument == 1 || o.instrument == 2)
}

/// Bounds every trade the engine stores.
pub open spec fn trade_ok(t: Trade) -> bool {
    &&& iabs(t.size as int) <= SIZE_LIMIT as int
    &&& iabs(t.entry_price as int) <= ADJ_PRICE_LIMIT as int
    &&& (t.exit_price matches Some(x) ==> iabs(x as int) <= ADJ_PRICE_LIMIT as int)
    &&& (t.instrument == 1 || t.instrument == 2)
}

/// One price column: one in-range entry per tick.
pub open spec fn col_wf(s: Seq<i64>, n: nat) -> bool {
    &&& s.len() == n
    &&& forall|i: int| 0 <= i < s.len() ==> price_in_range(#[trigger] s[i])
}

/// Well-formedness of a price series: equal-length columns of in-range prices.
pub open spec fn series_wf(d: PriceSeries) -> bool {
    &&& col_wf(d.open@, d.date@.len())
    &&& col_wf(d.high@, d.date@.len())
    &&& col_wf(d.low@, d.date@.len())
    &&& col_wf(d.close@, d.date@.len())
    &&& col_wf(d.close2@, d.date@.len())
    &&& col_wf(d.ask@, d.date@.len())
    &&& col_wf(d.bid@, d.date@.len())
    &&& col_wf(d.ask2@, d.date@.len())
    &&& col_wf(d.bid2@, d.date@.len())
}

impl Trade {
    /// Realized profit or loss of this trade in cash units, zero while open.
    pub fn pnl(&self) -> (r: i128)
        requires
            trade_ok(*self),
        ensures
            r == spec_pnl(*self),
            iabs(r as int) <= PNL_ABS_LIMIT as int,
    {
        match self.exit_price {
            Some(exit_price) => {
                proof {
                    lemma_mul_abs_bound(
                        self.size as int,
                        exit_price as int - self.entry_price as int,
                        SIZE_LIMIT as int,
                        2 * ADJ_PRICE_LIMIT as int,
                    );
                }
                (self.size as i128) * (exit_price as i128 - self.entry_price as i128)
            },
            None => 0,
        }
    }

    /// Percent return of this trade in parts per million of the entry price,
    /// signed by the trade's side; zero when the entry price is zero.
    pub fn pl_pct(&self) -> (r: i128)
        requires
            trade_ok(*self),
        ensures
            r == spec_pl_pct(*self),
    {
        let exit: i64 = match self.exit_price {
            Some(x) => x,
            None => self.entry_price,
        };
        if self.entry_price == 0 {
            0
        } else {
            let sgn: i128 = if self.size > 0 {
                1
            } else if self.size < 0 {
                -1
            } else {
                0
            };
            let num: i128 = (exit as i128 - self.entry_price as i128) * 1_000_000 * sgn;
            proof {
                lemma_mul_abs_bound(
                    exit as int - self.entry_price as int,
                    1_000_000,
                    2 * ADJ_PRICE_LIMIT as int,
                    1_000_000,
                );
                lemma_mul_abs_bound(
                    (exit as int - self.entry_price as int) * 1_000_000,
                    sgn as int,
                    6_000_000_000_000_000,
                    1,
                );
            }
            if self.entry_price > 0 {
                div_trunc_i128(num, self.entry_price as i128)
            } else {
                div_trunc_i128(-num, -(self.entry_price as i128))
            }
        }
    }

    /// Marks this trade closed at `price` on tick `index`.
    pub fn close(&mut self, index: usize, price: i64)
        ensures
            *final(self) == (Trade {
                exit_price: Some(price),
                exit_index: Some(index),
                ..*old(self)
            }),
    {
        self.exit_price = Some(price);
        self.exit_index = Some(index);
    }
}

/// Fractional return of a trade relative to its entry price, in parts per
/// million, signed by the trade's side.
pub open spec fn spec_pl_pct(t: Trade) -> int {
    let exit = match t.exit_price {
        Some(x) => x as int,
        None => t.entry_price as int,
    };
    let sgn: int = if t.size > 0 {
        1
    } else if t.size < 0 {
        -1
    } else {
        0
    };
    if t.entry_price == 0 {
        0
    } else if t.entry_price > 0 {
        div_trunc((exit - t.entry_price) * 1_000_000 * sgn, t.entry_price as int)
    } else {
        div_trunc(-((exit - t.entry_price) * 1_000_000 * sgn), -(t.entry_price as int))
    }
}

/// The net open position, derived from the active trades.
pub struct Position;

impl Position {
    /// Net position size over the given open trades.
    pub fn size(trades: &Vec<Trade>) -> (r: i128)
        requires
            forall|i: int| 0 <= i < trades@.len() ==> trade_ok(#[trigger] trades@[i]),
            trades@.len() <= LEDGER_CAP,
        ensures
            r == sum_size(trades@),
    {
        let mut acc: i128 = 0;
        let mut k: usize = 0;
        while k < trades.len()
            invariant
                0 <= k <= trades@.len(),
                trades@.len() <= LEDGER_CAP,
                forall|i: int| 0 <= i < trades@.len() ==> trade_ok(#[trigger] trades@[i]),
                acc == sum_size(trades@.take(k as int)),
                iabs(acc as int) <= k * SIZE_LIMIT as int,
            decreases trades@.len() - k,
        {
            proof {
                assert(trades@.take(k + 1).drop_last() =~= trades@.take(k as int));
                lemma_mul_le(k as int + 1, LEDGER_CAP as int, SIZE_LIMIT as int);
            }
            acc = acc + trades[k].size as i128;
            k = k + 1;
        }
        proof {
            assert(trades@.take(trades@.len() as int) =~= trades@);
        }
        acc
    }

    /// Mark-to-market profit of the open trades at one shared price.
    pub fn pl(trades: &Vec<Trade>, current_price: i64) -> (r: i128)
        requires
            forall|i: int| 0 <= i < trades@.len() ==> trade_ok(#[trigger] trades@[i]),
            trades@.len() <= LEDGER_CAP,
            price_in_range(current_price),
        ensures
            r == sum_pl_at(trades@, current_price as int),
    {
        let mut acc: i128 = 0;
        let mut k: usize = 0;
        while k < trades.len()
            invariant
                0 <= k <= trades@.len(),
                trades@.len() <= LEDGER_CAP,
                forall|i: int| 0 <= i < trades@.len() ==> trade_ok(#[trigger] trades@[i]),
                price_in_range(current_price),
                acc == sum_pl_at(trades@.take(k as int), current_price as int),
                iabs(acc as int) <= k * PNL_ABS_LIMIT as int,
            decreases trades@.len() - k,
        {
            let t = trades[k];
            proof {
                assert(trades@.take(k + 1).drop_last() =~= trades@.take(k as int));
                lemma_mul_abs_bound(
                    t.size as int,
                    current_price as int - t.entry_price as int,
                    SIZE_LIMIT as int,
                    2 * ADJ_PRICE_LIMIT as int,
                );
                lemma_mul_le(k as int + 1, LEDGER_CAP as int, PNL_ABS_LIMIT as int);
            }
            acc = acc + (t.size as i128) * (current_price as i128 - t.entry_price as i128);
            k = k + 1;
        }
        proof {
            assert(trades@.take(trades@.len() as int) =~= trades@);
        }
        acc
    }
}

/// Mark-to-market profit of open trades at one shared mark price.
pub open spec fn sum_pl_at(s: Seq<Trade>, mark: int) -> int
    decreases s.len(),
{
    if s.len() == 0 {
        0
    } else {
        sum_pl_at(s.drop_last(), mark) + (s.last().size as int) * (mark
            - s.last().entry_price as int)
    }
}

/// The broker: pending orders, open and closed trades, cash, the equity
/// curve and margin telemetry, stepped once per tick.
pub struct Broker {
    pub data: PriceSeries,
    /// Cash in size-unit-times-price-unit; changes only when a trade closes
    /// or when ruin zeroes the account.
    pub cash: i128,
    /// Fixed spread added to (subtracted from) a long (short) execution price.
    pub bidask_spread: i64,
    /// Commission ratio numerator over `COMMISSION_DEN`.
    pub commission: i64,
    /// Margin ratio as the fraction `margin_num / margin_den` (at most 1 for
    /// a leveraged account, exactly 1 for a cash account).
    pub margin_num: i64,
    pub margin_den: i64,
    /// Margin usage above this many basis points forces liquidation.
    pub margin_call_bp: i64,
    pub trade_on_close: bool,
    pub hedging: bool,
    pub exclusive_orders: bool,
    pub scaling_enabled: bool,
    pub orders: Vec<Order>,
    /// Open trades only; closing moves a trade to `closed_trades`.
    pub trades: Vec<Trade>,
    pub closed_trades: Vec<Trade>,
    /// One equity value per tick.
    pub equity: Vec<i128>,
    /// Highest margin usage seen, in basis points.
    pub max_margin_usage: i128,
    /// Initial cash, the reference for equity scaling and conservation.
    pub base_equity: i128,
    /// Margin usage in basis points, appended on every admission and tick.
    pub margin_usage_history: Vec<i128>,
    /// True once equity fell to or below zero; the account stays flat after.
    pub ruined: bool,
    pub next_trade_id: u64,
    /// High-water mark of the number of concurrently open trades.
    pub max_concurrent_trades: usize,
}

/// Ghost image of a broker: the same state over mathematical integers and
/// sequences, which the contracts and the step functions below speak of.
#[verifier::ext_equal]
pub ghost struct BrokerView {
    pub data: PriceSeries,
    pub cash: int,
    pub spread: int,
    pub commission: int,
    pub margin_num: int,
    pub margin_den: int,
    pub margin_call_bp: int,
    pub trade_on_close: bool,
    pub hedging: bool,
    pub exclusive_orders: bool,
    pub scaling: bool,
    pub orders: Seq<Order>,
    pub trades: Seq<Trade>,
    pub closed: Seq<Trade>,
    pub equity: Seq<int>,
    pub max_usage: int,
    pub base_equity: int,
    pub usage_history: Seq<int>,
    pub ruined: bool,
    pub next_id: int,
    pub max_concurrent: int,
}

impl View for Broker {
    type V = BrokerView;

    open spec fn view(&self) -> BrokerView {
        BrokerView {
            data: self.data,
            cash: self.cash as int,
            spread: self.bidask_spread as int,
            commission: self.commission as int,
            margin_num: self.margin_num as int,
            margin_den: self.margin_den as int,
            margin_call_bp: self.margin_call_bp as int,
            trade_on_close: self.trade_on_close,
            hedging: self.hedging,
            exclusive_orders: self.exclusive_orders,
            scaling: self.scaling_enabled,
            orders: self.orders@,
            trades: self.trades@,
            closed: self.closed_trades@,
            equity: self.equity@.map_values(|x: i128| x as int),
            max_usage: self.max_margin_usage as int,
            base_equity: self.base_equity as int,
            usage_history: self.margin_usage_history@.map_values(|x: i128| x as int),
            ruined: self.ruined,
            next_id: self.next_trade_id as int,
            max_concurrent: self.max_concurrent_trades as int,
        }
    }
}

/// Number of ticks in the series.
pub open spec fn spec_n(v: BrokerView) -> int {
    v.data.date@.len() as int
}

/// Weighted ledger size: pending orders (counting stop-loss carriers twice)
/// plus open and closed trades.
pub open spec fn ledger_units(v: BrokerView) -> int {
    sum_weight(v.orders) + v.trades.len() + v.closed.len()
}

/// A ruined account is flat: every remaining order and open trade has size
/// zero, so nothing can ever move cash or equity again.
pub open spec fn flat_zero(v: BrokerView) -> bool {
    &&& forall|i: int| 0 <= i < v.trades.len() ==> #[trigger] v.trades[i].size == 0
    &&& forall|i: int| 0 <= i < v.orders.len() ==> #[trigger] v.orders[i].size == 0
}

/// Bounds on the run-constant configuration.
pub open spec fn config_wf(v: BrokerView) -> bool {
    &&& 0 <= v.spread <= PRICE_LIMIT as int
    &&& 0 <= v.commission < COMMISSION_DEN as int
    &&& 1 <= v.margin_num <= MARGIN_DEN_LIMIT as int
    &&& 1 <= v.margin_den <= MARGIN_DEN_LIMIT as int
    &&& 0 <= v.margin_call_bp <= USAGE_SCALE as int
    &&& 1 <= v.base_equity <= CASH_LIMIT as int
}

/// Well-formedness of the open-trade ledger: bounded open trades with
/// distinct identifiers below the allocation counter.
pub open spec fn trades_wf(s: Seq<Trade>, next_id: int) -> bool {
    &&& forall|i: int|
        0 <= i < s.len() ==> trade_ok(#[trigger] s[i]) && s[i].exit_price is None && (
        s[i].id as int) < next_id
    &&& forall|i: int, j: int| 0 <= i < j < s.len() ==> s[i].id != s[j].id
}

/// Well-formedness of the closed-trade ledger.
pub open spec fn closed_wf(s: Seq<Trade>) -> bool {
    forall|i: int| 0 <= i < s.len() ==> trade_ok(#[trigger] s[i]) && s[i].exit_price is Some
}

/// The broker invariant.  Every public operation preserves it; the cash
/// conservation clause is the ledger's central promise: while the account is
/// not ruined, cash is exactly the initial cash plus the realized profit of
/// every closed trade.
pub open spec fn inv(v: BrokerView) -> bool {
    &&& series_wf(v.data)
    &&& config_wf(v)
    &&& forall|i: int| 0 <= i < v.orders.len() ==> order_ok(#[trigger] v.orders[i])
    &&& trades_wf(v.trades, v.next_id)
    &&& closed_wf(v.closed)
    &&& ledger_units(v) <= LEDGER_CAP as int
    &&& v.equity.len() == spec_n(v)
    &&& forall|i: int| 0 <= i < v.equity.len() ==> iabs(#[trigger] v.equity[i]) <= EQUITY_ABS_LIMIT as int
    &&& iabs(v.cash) <= CASH_LIMIT as int + v.closed.len() * PNL_ABS_LIMIT as int
    &&& !v.ruined ==> v.cash == v.base_equity + sum_pnl(v.closed)
    &&& v.ruined ==> v.cash == 0 && flat_zero(v)
}

// ---------------------------------------------------------------------------
// Matching rules (section: which pending orders fill on a tick).
// ---------------------------------------------------------------------------

/// Whether an order's stop price is triggered on tick `i`.  A contingent
/// (protective) stop for a long trade triggers when the market falls to it;
/// an entry stop for a long order triggers when the market rises to it; and
/// symmetrically for shorts.  Bar mode tests the bar's high/low, live mode
/// the current ask/bid of the order's instrument.
pub open spec fn spec_stop_hit(d: PriceSeries, o: Order, i: int) -> bool
    recommends
        o.stop is Some,
{
    let stop = o.stop->0 as int;
    if d.live_mode {
        let ask = (if o.instrument == 2 { d.ask2@[i] } else { d.ask@[i] }) as int;
        let bid = (if o.instrument == 2 { d.bid2@[i] } else { d.bid@[i] }) as int;
        if o.parent_trade is Some {
            if o.size > 0 { bid <= stop } else { ask >= stop }
        } else {
            if o.size > 0 { ask >= stop } else { bid <= stop }
        }
    } else {
        let high = d.high@[i] as int;
        let low = d.low@[i] as int;
        if o.parent_trade is Some {
            if o.size > 0 { low <= stop } else { high >= stop }
        } else {
            if o.size > 0 { high >= stop } else { low <= stop }
        }
    }
}

/// Whether an order's limit price is reached on tick `i`.
pub open spec fn spec_limit_hit(d: PriceSeries, o: Order, i: int) -> bool
    recommends
        o.limit is Some,
{
    let lim = o.limit->0 as int;
    if d.live_mode {
        let ask = (if o.instrument == 2 { d.ask2@[i] } else { d.ask@[i] }) as int;
        let bid = (if o.instrument == 2 { d.bid2@[i] } else { d.bid@[i] }) as int;
        if o.size > 0 { ask <= lim } else { bid >= lim }
    } else {
        if o.size > 0 { (d.low@[i] as int) < lim } else { (d.high@[i] as int) > lim }
    }
}

/// An order fills on tick `i` when its stop (if any) triggers and its limit
/// (if any) is reached; a plain market order always fills.
pub open spec fn spec_order_fills(d: PriceSeries, o: Order, i: int) -> bool {
    &&& (o.stop is Some ==> spec_stop_hit(d, o, i))
    &&& (o.limit is Some ==> spec_limit_hit(d, o, i))
}

/// How a checked order looks after tick `i`: a triggered stop is cleared
/// (the order then behaves as a market or limit order), everything else is
/// untouched.
pub open spec fn spec_after_check(d: PriceSeries, o: Order, i: int) -> Order {
    if o.stop is Some && spec_stop_hit(d, o, i) {
        Order { stop: None, ..o }
    } else {
        o
    }
}

/// The orders still queued after the matching pass of tick `i`, in their
/// original relative order, with triggered stops cleared.
pub open spec fn spec_remaining(d: PriceSeries, s: Seq<Order>, i: int) -> Seq<Order>
    decreases s.len(),
{
    if s.len() == 0 {
        Seq::empty()
    } else {
        let rest = spec_remaining(d, s.drop_last(), i);
        if spec_order_fills(d, s.last(), i) {
            rest
        } else {
            rest.push(spec_after_check(d, s.last(), i))
        }
    }
}

/// The orders selected to execute on tick `i`, in their original relative
/// order.
pub open spec fn spec_executables(d: PriceSeries, s: Seq<Order>, i: int) -> Seq<Order>
    decreases s.len(),
{
    if s.len() == 0 {
        Seq::empty()
    } else {
        let rest = spec_executables(d, s.drop_last(), i);
        if spec_order_fills(d, s.last(), i) {
            rest.push(spec_after_check(d, s.last(), i))
        } else {
            rest
        }
    }
}

// ---------------------------------------------------------------------------
// Execution (section: what a filled order does to the ledger).
// ---------------------------------------------------------------------------

/// The raw execution price of a filled order: its limit price when set,
/// otherwise the tick's reference price for the order's instrument and side
/// (the previous tick's reference under trade-on-close).
pub open spec fn spec_exec_price(d: PriceSeries, toc: bool, o: Order, i: int) -> int {
    if o.limit is Some {
        o.limit->0 as int
    } else if d.live_mode {
        let j: int = if toc && i > 0 { i - 1 } else { i };
        if o.instrument == 2 {
            (if o.size > 0 { d.ask2@[j] } else { d.bid2@[j] }) as int
        } else {
            (if o.size > 0 { d.ask@[j] } else { d.bid@[j] }) as int
        }
    } else {
        if o.instrument == 2 {
            let j: int = if toc && i > 0 { i - 1 } else { i };
            d.close2@[j] as int
        } else {
            if toc {
                (if i > 0 { d.close@[i - 1] } else { d.open@[i] }) as int
            } else {
                d.open@[i] as int
            }
        }
    }
}

/// A raw price adjusted for commission and spread: a long pays
/// `price * (1 + commission) + spread`, a short receives
/// `price * (1 - commission) - spread`; a zero size leaves it unchanged.
/// The commission part rounds toward zero.
pub open spec fn spec_adjust(commission: int, spread: int, size: int, raw: int) -> int {
    let c = (raw * commission) / COMMISSION_DEN as int;
    if size > 0 {
        raw + c + spread
    } else if size < 0 {
        raw - c - spread
    } else {
        raw
    }
}

/// Index of the open trade with identifier `id`, or -1 when none has it.
pub open spec fn spec_find_trade(s: Seq<Trade>, id: u64) -> int
    decreases s.len(),
{
    if s.len() == 0 {
        -1
    } else if s[0].id == id {
        0
    } else {
        let r = spec_find_trade(s.drop_first(), id);
        if r == -1 { -1 } else { r + 1 }
    }
}

/// A trade closed at `price` on tick `i`.
pub open spec fn spec_close_trade(t: Trade, price: int, i: int) -> Trade {
    Trade { exit_price: Some(price as i64), exit_index: Some(i as usize), ..t }
}

/// Effect of executing one filled order on tick `i`.  A contingent order
/// closes its parent trade (if it is still open), realizes the profit into
/// cash and moves the trade to the closed ledger; any other order opens a
/// new trade, and, when it carries a stop-loss price, queues a contingent
/// stop order attached to the new trade's identifier.
pub open spec fn spec_exec_one(v: BrokerView, o: Order, i: int) -> BrokerView {
    let raw = spec_exec_price(v.data, v.trade_on_close, o, i);
    let px = spec_adjust(v.commission, v.spread, o.size as int, raw);
    match o.parent_trade {
        Some(pid) => {
            let j = spec_find_trade(v.trades, pid);
            if j >= 0 {
                let ct = spec_close_trade(v.trades[j], px, i);
                BrokerView {
                    trades: v.trades.remove(j),
                    closed: v.closed.push(ct),
                    cash: v.cash + spec_pnl(ct),
                    ..v
                }
            } else {
                v
            }
        },
        None => {
            let nt = Trade {
                id: v.next_id as u64,
                instrument: o.instrument,
                size: o.size,
                entry_price: px as i64,
                entry_index: i as usize,
                exit_price: None,
                exit_index: None,
            };
            let v1 = BrokerView { trades: v.trades.push(nt), next_id: v.next_id + 1, ..v };
            match o.sl {
                Some(sl) => BrokerView {
                    orders: v1.orders.push(
                        Order {
                            size: o.size,
                            limit: None,
                            stop: Some(sl),
                            sl: None,
                            tp: o.tp,
                            parent_trade: Some(v.next_id as u64),
                            instrument: o.instrument,
                        },
                    ),
                    ..v1
                },
                None => v1,
            }
        },
    }
}

/// Executes a sequence of filled orders in order.
pub open spec fn spec_exec_seq(v: BrokerView, os: Seq<Order>, i: int) -> BrokerView
    decreases os.len(),
{
    if os.len() == 0 {
        v
    } else {
        spec_exec_seq(spec_exec_one(v, os[0], i), os.drop_first(), i)
    }
}

/// The whole matching pass of tick `i`: the queue is reduced to the
/// non-filling orders and every filling order is executed in its original
/// queue position.
pub open spec fn spec_process(v: BrokerView, i: int) -> BrokerView {
    let v0 = BrokerView { orders: spec_remaining(v.data, v.orders, i), ..v };
    spec_exec_seq(v0, spec_executables(v.data, v.orders, i), i)
}

// ---------------------------------------------------------------------------
// Equity, margin usage, liquidation and ruin (section: the tick epilogue).
// ---------------------------------------------------------------------------

/// The mark price of an open trade on tick `i`: its instrument's close in
/// bar mode; in live mode the price the trade could be closed at now (bid
/// for longs, ask for shorts).
pub open spec fn spec_mark(d: PriceSeries, t: Trade, i: int) -> int {
    if d.live_mode {
        if t.instrument == 2 {
            (if t.size > 0 { d.bid2@[i] } else { d.ask2@[i] }) as int
        } else {
            (if t.size > 0 { d.bid@[i] } else { d.ask@[i] }) as int
        }
    } else {
        if t.instrument == 2 { d.close2@[i] as int } else { d.close@[i] as int }
    }
}

/// Unrealized profit of the open trades marked on tick `i`.
pub open spec fn sum_unrealized(d: PriceSeries, s: Seq<Trade>, i: int) -> int
    decreases s.len(),
{
    if s.len() == 0 {
        0
    } else {
        sum_unrealized(d, s.drop_last(), i) + (s.last().size as int) * (spec_mark(d, s.last(), i)
            - s.last().entry_price as int)
    }
}

/// Equity on tick `i`: cash plus unrealized profit at tick-`i` marks.
pub open spec fn spec_equity_at(v: BrokerView, i: int) -> int {
    v.cash + sum_unrealized(v.data, v.trades, i)
}

/// Current margin usage in basis points, rounded toward zero: exposure over
/// the total allowed notional `cash / margin_ratio`.  Defined as zero for a
/// cash account (ratio exactly 1) and when the allowed notional is not
/// positive.
pub open spec fn spec_margin_usage_bp(v: BrokerView) -> int {
    if v.margin_num == v.margin_den || v.cash <= 0 {
        0
    } else {
        div_trunc(
            sum_exposure(v.trades) * v.margin_num * USAGE_SCALE as int,
            v.cash * v.margin_den,
        )
    }
}

/// Whether the exact margin usage exceeds the liquidation threshold.
pub open spec fn spec_margin_call(v: BrokerView) -> bool {
    &&& v.margin_num != v.margin_den
    &&& v.cash > 0
    &&& sum_exposure(v.trades) * v.margin_num * USAGE_SCALE as int > v.margin_call_bp * v.cash
        * v.margin_den
}

/// The raw price a trade is liquidated at on tick `i` (its mark price).
pub open spec fn spec_close_price(d: PriceSeries, t: Trade, i: int) -> int {
    spec_mark(d, t, i)
}

/// The closed images of the open trades of one instrument partition, in
/// their relative order: instrument 1 when `first` is true, everything else
/// otherwise, each closed at its adjusted tick-`tick` mark.
pub open spec fn spec_close_batch(
    d: PriceSeries,
    commission: int,
    spread: int,
    s: Seq<Trade>,
    first: bool,
    tick: int,
) -> Seq<Trade>
    decreases s.len(),
{
    if s.len() == 0 {
        Seq::empty()
    } else {
        let t = s.last();
        let rest = spec_close_batch(d, commission, spread, s.drop_last(), first, tick);
        if first == (t.instrument == 1) {
            rest.push(
                spec_close_trade(
                    t,
                    spec_adjust(commission, spread, t.size as int, spec_close_price(d, t, tick)),
                    tick,
                ),
            )
        } else {
            rest
        }
    }
}

/// Liquidation: every open trade is closed at its adjusted mark (instrument
/// 1 trades at tick `t1`, the rest at tick `t2`), the realized profit goes
/// into cash, and all pending orders are cancelled.
pub open spec fn spec_liquidated(v: BrokerView, t1: int, t2: int) -> BrokerView {
    let b1 = spec_close_batch(v.data, v.commission, v.spread, v.trades, true, t1);
    let b2 = spec_close_batch(v.data, v.commission, v.spread, v.trades, false, t2);
    BrokerView {
        trades: Seq::empty(),
        orders: Seq::empty(),
        closed: v.closed + b1 + b2,
        cash: v.cash + sum_pnl(b1) + sum_pnl(b2),
        ..v
    }
}

/// Records the current margin usage: raises the running maximum and appends
/// to the history.
pub open spec fn spec_usage_recorded(v: BrokerView) -> BrokerView {
    let u = spec_margin_usage_bp(v);
    BrokerView {
        max_usage: if u > v.max_usage { u } else { v.max_usage },
        usage_history: v.usage_history.push(u),
        ..v
    }
}

/// The margin-call check of tick `i`: a usage above the threshold forces
/// liquidation at tick-`i` prices and records the usage after it.
pub open spec fn spec_margin_checked(v: BrokerView, i: int) -> BrokerView {
    if spec_margin_call(v) {
        spec_usage_recorded(spec_liquidated(v, i, i))
    } else {
        v
    }
}

/// Equity entries from `i` on zeroed.
pub open spec fn spec_zero_from(s: Seq<int>, i: int) -> Seq<int> {
    Seq::new(s.len(), |j: int| if j >= i { 0 } else { s[j] })
}

/// The ruin check of tick `i`: when the recorded equity is not positive the
/// account is liquidated, cash is zeroed, every equity entry from `i` to the
/// end is zeroed, and the account is marked ruined for good.
pub open spec fn spec_ruin_checked(v: BrokerView, i: int) -> BrokerView {
    if v.equity[i] <= 0 {
        let v1 = spec_liquidated(v, i, i);
        BrokerView { cash: 0, equity: spec_zero_from(v1.equity, i), ruined: true, ..v1 }
    } else {
        v
    }
}

/// The equity recomputation of tick `i`.
pub open spec fn spec_equity_updated(v: BrokerView, i: int) -> BrokerView {
    BrokerView { equity: v.equity.update(i, spec_equity_at(v, i)), ..v }
}

/// One full tick: raise the concurrent-trade high-water mark, match orders,
/// recompute equity, check for a margin call, check for ruin, and record the
/// margin usage.
pub open spec fn spec_next(v: BrokerView, i: int) -> BrokerView {
    let c = v.trades.len() as int;
    let v0 = BrokerView {
        max_concurrent: if c > v.max_concurrent { c } else { v.max_concurrent },
        ..v
    };
    spec_usage_recorded(
        spec_ruin_checked(spec_margin_checked(spec_equity_updated(spec_process(v0, i), i), i), i),
    )
}

/// Scaled order size under equity scaling: the proposed size times the
/// latest equity over the initial equity, rounded toward zero; the proposed
/// size itself when scaling is off.
pub open spec fn spec_scaled_size(v: BrokerView, sz: i64) -> int {
    if v.scaling {
        let e = if v.equity.len() > 0 { v.equity.last() } else { v.cash };
        div_trunc(sz as int * e, v.base_equity)
    } else {
        sz as int
    }
}

/// Available buying power: total allowed notional `cash / margin_ratio`
/// (rounded toward zero) minus the current exposure.
pub open spec fn spec_buying_power(v: BrokerView) -> int {
    div_trunc(v.cash * v.margin_den, v.margin_num) - sum_exposure(v.trades)
}

// ---------------------------------------------------------------------------
// Lemmas about the ledger sums.
// ---------------------------------------------------------------------------

pub proof fn lemma_sum_pnl_take_step(s: Seq<Trade>, k: int)
    requires
        0 <= k < s.len(),
    ensures
        sum_pnl(s.take(k + 1)) == sum_pnl(s.take(k)) + spec_pnl(s[k]),
{
    assert(s.take(k + 1).drop_last() =~= s.take(k));
}

pub proof fn lemma_sum_exposure_take_step(s: Seq<Trade>, k: int)
    requires
        0 <= k < s.len(),
    ensures
        sum_exposure(s.take(k + 1)) == sum_exposure(s.take(k)) + spec_exposure(s[k]),
{
    assert(s.take(k + 1).drop_last() =~= s.take(k));
}

pub proof fn lemma_sum_weight_take_step(s: Seq<Order>, k: int)
    requires
        0 <= k < s.len(),
    ensures
        sum_weight(s.take(k + 1)) == sum_weight(s.take(k)) + order_weight(s[k]),
{
    assert(s.take(k + 1).drop_last() =~= s.take(k));
}

pub proof fn lemma_sum_unrealized_take_step(d: PriceSeries, s: Seq<Trade>, i: int, k: int)
    requires
        0 <= k < s.len(),
    ensures
        sum_unrealized(d, s.take(k + 1), i) == sum_unrealized(d, s.take(k), i) + (
        s[k].size as int) * (spec_mark(d, s[k], i) - s[k].entry_price as int),
{
    assert(s.take(k + 1).drop_last() =~= s.take(k));
}

pub proof fn lemma_sum_pnl_push(s: Seq<Trade>, t: Trade)
    ensures
        sum_pnl(s.push(t)) == sum_pnl(s) + spec_pnl(t),
{
    assert(s.push(t).drop_last() =~= s);
}

/// A pending-order sequence weighs at least one and at most two per order.
pub proof fn lemma_sum_weight_bounds(s: Seq<Order>)
    ensures
        s.len() <= sum_weight(s) <= 2 * s.len(),
    decreases s.len(),
{
    if s.len() > 0 {
        lemma_sum_weight_bounds(s.drop_last());
    }
}

/// Exposure of a well-formed trade sequence is bounded per entry.
pub proof fn lemma_sum_exposure_bound(s: Seq<Trade>)
    requires
        forall|i: int| 0 <= i < s.len() ==> trade_ok(#[trigger] s[i]),
    ensures
        iabs(sum_exposure(s)) <= s.len() * PNL_ABS_LIMIT as int,
    decreases s.len(),
{
    if s.len() > 0 {
        lemma_sum_exposure_bound(s.drop_last());
        let t = s.last();
        lemma_mul_abs_bound(
            iabs(t.size as int),
            t.entry_price as int,
            SIZE_LIMIT as int,
            ADJ_PRICE_LIMIT as int,
        );
        assert((s.len() - 1) * PNL_ABS_LIMIT as int + PNL_ABS_LIMIT as int == s.len()
            * PNL_ABS_LIMIT as int) by (nonlinear_arith);
    }
}

/// Unrealized profit of a well-formed trade sequence is bounded per entry
/// when the marks come from a well-formed series.
pub proof fn lemma_sum_unrealized_bound(d: PriceSeries, s: Seq<Trade>, i: int)
    requires
        forall|j: int| 0 <= j < s.len() ==> trade_ok(#[trigger] s[j]),
        series_wf(d),
        0 <= i < d.date@.len(),
    ensures
        iabs(sum_unrealized(d, s, i)) <= s.len() * PNL_ABS_LIMIT as int,
    decreases s.len(),
{
    if s.len() > 0 {
        lemma_sum_unrealized_bound(d, s.drop_last(), i);
        let t = s.last();
        assert(1 <= spec_mark(d, t, i) <= PRICE_LIMIT as int);
        lemma_mul_abs_bound(
            t.size as int,
            spec_mark(d, t, i) - t.entry_price as int,
            SIZE_LIMIT as int,
            2 * ADJ_PRICE_LIMIT as int,
        );
        assert((s.len() - 1) * PNL_ABS_LIMIT as int + PNL_ABS_LIMIT as int == s.len()
            * PNL_ABS_LIMIT as int) by (nonlinear_arith);
    }
}

/// The invariant caps every ledger collection by `LEDGER_CAP` and bounds
/// cash by `CASH_ABS_LIMIT`.
pub proof fn lemma_inv_counts(v: BrokerView)
    requires
        inv(v),
    ensures
        v.orders.len() <= LEDGER_CAP,
        v.trades.len() <= LEDGER_CAP,
        v.closed.len() <= LEDGER_CAP,
        iabs(v.cash) <= CASH_ABS_LIMIT as int,
{
    lemma_sum_weight_bounds(v.orders);
    lemma_mul_le(v.closed.len() as int, LEDGER_CAP as int, PNL_ABS_LIMIT as int);
}

impl Broker {
    /// The broker invariant, as seen by callers.
    pub open spec fn wf(&self) -> bool {
        inv(self@)
    }

    /// Total notional exposure of the open trades:
    /// the sum of `|size| * entry_price`.
    pub fn current_exposure(&self) -> (r: i128)
        requires
            self.wf(),
        ensures
            r == sum_exposure(self@.trades),
            iabs(r as int) <= self@.trades.len() * PNL_ABS_LIMIT as int,
    {
        let mut acc: i128 = 0;
        let mut k: usize = 0;
        proof {
            lemma_inv_counts(self@);
        }
        while k < self.trades.len()
            invariant
                0 <= k <= self.trades@.len(),
                self.trades@.len() <= LEDGER_CAP,
                forall|i: int| 0 <= i < self.trades@.len() ==> trade_ok(#[trigger] self.trades@[i]),
                acc == sum_exposure(self.trades@.take(k as int)),
                iabs(acc as int) <= k * PNL_ABS_LIMIT as int,
            decreases self.trades@.len() - k,
        {
            let t = self.trades[k];
            let a: i64 = if t.size >= 0 {
                t.size
            } else {
                -t.size
            };
            proof {
                lemma_sum_exposure_take_step(self.trades@, k as int);
                lemma_mul_abs_bound(
                    a as int,
                    t.entry_price as int,
                    SIZE_LIMIT as int,
                    ADJ_PRICE_LIMIT as int,
                );
                lemma_mul_le(k as int + 1, LEDGER_CAP as int, PNL_ABS_LIMIT as int);
            }
            acc = acc + (a as i128) * (t.entry_price as i128);
            k = k + 1;
        }
        proof {
            assert(self.trades@.take(self.trades@.len() as int) =~= self.trades@);
        }
        acc
    }

    /// A raw price adjusted for commission and the fixed spread, by the sign
    /// of `size`: longs pay up, shorts receive less.
    pub fn adjusted_price(&self, size: i64, price: i64) -> (r: i64)
        requires
            0 <= self@.commission < COMMISSION_DEN as int,
            0 <= self@.spread <= PRICE_LIMIT as int,
            price_in_range(price),
        ensures
            r == spec_adjust(self@.commission, self@.spread, size as int, price as int),
            iabs(r as int) <= ADJ_PRICE_LIMIT as int,
    {
        proof {
            lemma_mul_abs_bound(
                price as int,
                self@.commission,
                PRICE_LIMIT as int,
                COMMISSION_DEN as int,
            );
            assert((price as int * self@.commission) / COMMISSION_DEN as int <= price as int
                * self@.commission) by (nonlinear_arith)
                requires
                    price as int * self@.commission >= 0,
                    COMMISSION_DEN as int >= 1,
            ;
            assert((price as int * self@.commission) / COMMISSION_DEN as int >= 0) by (nonlinear_arith)
                requires
                    price as int * self@.commission >= 0,
                    COMMISSION_DEN as int >= 1,
            ;
            assert((price as int * self@.commission) / COMMISSION_DEN as int <= PRICE_LIMIT as int)
                by (nonlinear_arith)
                requires
                    0 <= price as int <= PRICE_LIMIT as int,
                    0 <= self@.commission < COMMISSION_DEN as int,
            ;
        }
        let c64: u64 = ((price as u64) * (self.commission as u64)) / (COMMISSION_DEN as u64);
        let c: i64 = c64 as i64;
        if size > 0 {
            price + c + self.bidask_spread
        } else if size < 0 {
            price - c - self.bidask_spread
        } else {
            price
        }
    }

    /// Buying power left under the margin requirement: `cash / margin_ratio`
    /// (rounded toward zero) minus the current exposure.
    pub fn available_buying_power(&self) -> (r: i128)
        requires
            self.wf(),
        ensures
            r == spec_buying_power(self@),
    {
        proof {
            lemma_inv_counts(self@);
        }
        let expo = self.current_exposure();
        proof {
            lemma_mul_abs_bound(
                self@.cash,
                self@.margin_den,
                CASH_ABS_LIMIT as int,
                MARGIN_DEN_LIMIT as int,
            );
            lemma_mul_le(self@.trades.len() as int, LEDGER_CAP as int, PNL_ABS_LIMIT as int);
        }
        let allowed = div_trunc_i128(self.cash * (self.margin_den as i128), self.margin_num as i128);
        allowed - expo
    }

    /// Margin usage in basis points, rounded toward zero; zero for a cash
    /// account or when the allowed notional is not positive.
    pub fn current_margin_usage(&self) -> (r: i128)
        requires
            self.wf(),
        ensures
            r == spec_margin_usage_bp(self@),
    {
        if self.margin_num == self.margin_den || self.cash <= 0 {
            0
        } else {
            proof {
                lemma_inv_counts(self@);
                lemma_mul_le(self@.trades.len() as int, LEDGER_CAP as int, PNL_ABS_LIMIT as int);
            }
            let expo = self.current_exposure();
            proof {
                lemma_mul_abs_bound(
                    sum_exposure(self@.trades),
                    self@.margin_num,
                    LEDGER_CAP as int * PNL_ABS_LIMIT as int,
                    MARGIN_DEN_LIMIT as int,
                );
                lemma_mul_abs_bound(
                    sum_exposure(self@.trades) * self@.margin_num,
                    USAGE_SCALE as int,
                    LEDGER_CAP as int * PNL_ABS_LIMIT as int * MARGIN_DEN_LIMIT as int,
                    USAGE_SCALE as int,
                );
                lemma_mul_abs_bound(
                    self@.cash,
                    self@.margin_den,
                    CASH_ABS_LIMIT as int,
                    MARGIN_DEN_LIMIT as int,
                );
                assert(self@.cash * self@.margin_den >= 1) by (nonlinear_arith)
                    requires
                        self@.cash >= 1,
                        self@.margin_den >= 1,
                ;
            }
            let num = expo * (self.margin_num as i128) * (USAGE_SCALE as i128);
            let den = self.cash * (self.margin_den as i128);
            div_trunc_i128(num, den)
        }
    }

    /// The proposed order size under equity scaling: multiplied by the
    /// latest equity over the initial equity, rounded toward zero.
    pub fn scale_order_size(&self, base_size: i64) -> (r: i128)
        requires
            self.wf(),
            iabs(base_size as int) <= SIZE_LIMIT as int,
        ensures
            r == spec_scaled_size(self@, base_size),
    {
        if !self.scaling_enabled {
            base_size as i128
        } else {
            proof {
                lemma_inv_counts(self@);
            }
            let e: i128 = if self.equity.len() > 0 {
                self.equity[self.equity.len() - 1]
            } else {
                self.cash
            };
            proof {
                if self.equity@.len() > 0 {
                    assert(self@.equity[self.equity@.len() - 1] == self.equity@[self.equity@.len()
                        - 1] as int);
                    assert(iabs(e as int) <= EQUITY_ABS_LIMIT as int);
                } else {
                    assert(iabs(e as int) <= CASH_ABS_LIMIT as int);
                }
                lemma_mul_abs_bound(
                    base_size as int,
                    e as int,
                    SIZE_LIMIT as int,
                    EQUITY_ABS_LIMIT as int,
                );
            }
            div_trunc_i128((base_size as i128) * e, self.base_equity)
        }
    }

    /// Raises the maximum-usage statistic to the current margin usage.
    pub fn update_max_margin_usage(&mut self)
        requires
            old(self).wf(),
        ensures
            final(self)@ == (BrokerView {
                max_usage: if spec_margin_usage_bp(old(self)@) > old(self)@.max_usage {
                    spec_margin_usage_bp(old(self)@)
                } else {
                    old(self)@.max_usage
                },
                ..old(self)@
            }),
            final(self).wf(),
    {
        let usage = self.current_margin_usage();
        if usage > self.max_margin_usage {
            self.max_margin_usage = usage;
        }
    }

    /// Records the current margin usage: raises the running maximum and
    /// appends to the history.
    pub fn update_margin_usage(&mut self)
        requires
            old(self).wf(),
        ensures
            final(self)@ == spec_usage_recorded(old(self)@),
            final(self).wf(),
    {
        let usage = self.current_margin_usage();
        if usage > self.max_margin_usage {
            self.max_margin_usage = usage;
        }
        self.margin_usage_history.push(usage);
        proof {
            assert(final(self)@.usage_history =~= spec_usage_recorded(old(self)@).usage_history);
            assert(final(self)@ =~= spec_usage_recorded(old(self)@));
        }
    }
}

// ---------------------------------------------------------------------------
// Order admission.
// ---------------------------------------------------------------------------

/// Fractional sizes are rejected in the no-leverage regime (margin ratio at
/// least 1): the scaled size must be a whole number of shares.
pub open spec fn spec_fractional(v: BrokerView, s: int) -> bool {
    v.margin_num >= v.margin_den && iabs(s) % (SIZE_UNIT as int) != 0
}

/// The order's notional exceeds the available buying power:
/// `|size| * price > cash / margin_ratio - exposure`, written without
/// division.
pub open spec fn spec_margin_exceeded(v: BrokerView, s: int, price: int) -> bool {
    (iabs(s) * price + sum_exposure(v.trades)) * v.margin_num > v.cash * v.margin_den
}

/// Per-side cap for non-contingent orders.
pub const TRADE_LIMIT: usize = 3;

/// A non-contingent order is rejected when its side already holds
/// `TRADE_LIMIT` open trades.
pub open spec fn spec_trade_limited(v: BrokerView, o: Order, s: int) -> bool {
    o.parent_trade is None && ((s > 0 && count_side(v.trades, true) >= TRADE_LIMIT as int) || (s
        < 0 && count_side(v.trades, false) >= TRADE_LIMIT as int))
}

/// The admission verdict, in check order: scaling happens first, then the
/// fractional, margin and trade-limit checks.
pub open spec fn spec_order_rejection(v: BrokerView, o: Order, price: int) -> Option<OrderError> {
    let s = spec_scaled_size(v, o.size);
    if spec_fractional(v, s) {
        Some(OrderError::FractionalOrderNotAllowed)
    } else if spec_margin_exceeded(v, s, price) {
        Some(OrderError::MarginExceeded)
    } else if spec_trade_limited(v, o, s) {
        Some(OrderError::TradeLimitExceeded)
    } else {
        None
    }
}

/// The broker after admitting an order whose scaled size is `s`.  In
/// exclusive-orders mode admission first clears every pending order and
/// every open trade.  A contingent order goes to the front of the queue,
/// anything else to the back, and the margin usage is recorded.
pub open spec fn spec_admitted(v: BrokerView, o: Order, s: int) -> BrokerView {
    let o2 = Order { size: s as i64, ..o };
    let v1 = if v.exclusive_orders {
        BrokerView { orders: Seq::empty(), trades: Seq::empty(), ..v }
    } else {
        v
    };
    let v2 = BrokerView {
        orders: if o.parent_trade is Some {
            seq![o2] + v1.orders
        } else {
            v1.orders.push(o2)
        },
        ..v1
    };
    spec_usage_recorded(v2)
}

pub proof fn lemma_count_side_take_step(s: Seq<Trade>, long: bool, k: int)
    requires
        0 <= k < s.len(),
    ensures
        count_side(s.take(k + 1), long) == count_side(s.take(k), long) + if long == (s[k].size > 0)
            && s[k].size != 0 {
            1int
        } else {
            0int
        },
{
    assert(s.take(k + 1).drop_last() =~= s.take(k));
}

pub proof fn lemma_sum_weight_prepend(o: Order, s: Seq<Order>)
    ensures
        sum_weight(seq![o] + s) == order_weight(o) + sum_weight(s),
    decreases s.len(),
{
    if s.len() == 0 {
        assert(seq![o] + s =~= seq![o]);
        assert(seq![o].drop_last() =~= Seq::<Order>::empty());
        assert(sum_weight(Seq::<Order>::empty()) == 0);
        assert(seq![o].last() == o);
        assert(sum_weight(seq![o]) == order_weight(o));
    } else {
        lemma_sum_weight_prepend(o, s.drop_last());
        assert((seq![o] + s).drop_last() =~= seq![o] + s.drop_last());
        assert((seq![o] + s).last() == s.last());
    }
}

pub proof fn lemma_sum_weight_push(s: Seq<Order>, o: Order)
    ensures
        sum_weight(s.push(o)) == sum_weight(s) + order_weight(o),
{
    assert(s.push(o).drop_last() =~= s);
}

/// A flat (all-zero-size) open book has zero exposure.
pub proof fn lemma_sum_exposure_flat(s: Seq<Trade>)
    requires
        forall|i: int| 0 <= i < s.len() ==> #[trigger] s[i].size == 0,
    ensures
        sum_exposure(s) == 0,
    decreases s.len(),
{
    if s.len() > 0 {
        lemma_sum_exposure_flat(s.drop_last());
        let t = s.last();
        assert(s[s.len() - 1].size == 0);
        assert(iabs(t.size as int) == 0);
        assert(spec_exposure(t) == iabs(t.size as int) * (t.entry_price as int));
        assert(0int * (t.entry_price as int) == 0) by (nonlinear_arith);
    }
}

impl Broker {
    /// A fresh broker over a validated series: all ledgers empty, the equity
    /// curve prefilled with the initial cash, and the margin-usage history
    /// started at zero.
    #[allow(clippy::too_many_arguments)]
    pub fn new(
        data: PriceSeries,
        cash: i128,
        commission: i64,
        bidask_spread: i64,
        margin_num: i64,
        margin_den: i64,
        margin_call_bp: i64,
        trade_on_close: bool,
        hedging: bool,
        exclusive_orders: bool,
        scaling_enabled: bool,
    ) -> (r: Broker)
        requires
            series_wf(data),
            1 <= cash <= CASH_LIMIT,
            0 <= commission < COMMISSION_DEN,
            0 <= bidask_spread <= PRICE_LIMIT,
            1 <= margin_num <= MARGIN_DEN_LIMIT,
            1 <= margin_den <= MARGIN_DEN_LIMIT,
            0 <= margin_call_bp <= USAGE_SCALE,
        ensures
            r.wf(),
            r@ == (BrokerView {
                data: data,
                cash: cash as int,
                spread: bidask_spread as int,
                commission: commission as int,
                margin_num: margin_num as int,
                margin_den: margin_den as int,
                margin_call_bp: margin_call_bp as int,
                trade_on_close: trade_on_close,
                hedging: hedging,
                exclusive_orders: exclusive_orders,
                scaling: scaling_enabled,
                orders: Seq::empty(),
                trades: Seq::empty(),
                closed: Seq::empty(),
                equity: Seq::new(data.date@.len(), |j: int| cash as int),
                max_usage: 0,
                base_equity: cash as int,
                usage_history: seq![0],
                ruined: false,
                next_id: 0,
                max_concurrent: 0,
            }),
    {
        let n = data.date.len();
        let r = Broker {
            data,
            cash,
            bidask_spread,
            commission,
            margin_num,
            margin_den,
            margin_call_bp,
            trade_on_close,
            hedging,
            exclusive_orders,
            scaling_enabled,
            orders: Vec::new(),
            trades: Vec::new(),
            closed_trades: Vec::new(),
            equity: vec![cash; n],
            max_margin_usage: 0,
            base_equity: cash,
            margin_usage_history: vec![0],
            ruined: false,
            next_trade_id: 0,
            max_concurrent_trades: 0,
        };
        proof {
            assert(r@.equity =~= Seq::new(r.data.date@.len(), |j: int| cash as int));
            assert(r@.usage_history =~= seq![0int]);
            assert(r@ =~= (BrokerView {
                data: r.data,
                cash: cash as int,
                spread: bidask_spread as int,
                commission: commission as int,
                margin_num: margin_num as int,
                margin_den: margin_den as int,
                margin_call_bp: margin_call_bp as int,
                trade_on_close: trade_on_close,
                hedging: hedging,
                exclusive_orders: exclusive_orders,
                scaling: scaling_enabled,
                orders: Seq::empty(),
                trades: Seq::empty(),
                closed: Seq::empty(),
                equity: Seq::new(r.data.date@.len(), |j: int| cash as int),
                max_usage: 0,
                base_equity: cash as int,
                usage_history: seq![0int],
                ruined: false,
                next_id: 0,
                max_concurrent: 0,
            }));
        }
        r
    }

    /// Appends one tick to the series and one provisional entry (the current
    /// cash) to the equity curve; the entry is overwritten when `next` runs
    /// for the new tick.  This is how a live feed grows the series.
    pub fn append_tick(&mut self, t: Tick)
        requires
            old(self).wf(),
            price_in_range(t.open),
            price_in_range(t.high),
            price_in_range(t.low),
            price_in_range(t.close),
            price_in_range(t.close2),
            price_in_range(t.ask),
            price_in_range(t.bid),
            price_in_range(t.ask2),
            price_in_range(t.bid2),
        ensures
            final(self).wf(),
            final(self)@ == (BrokerView {
                data: final(self).data,
                equity: old(self)@.equity.push(old(self)@.cash),
                ..old(self)@
            }),
            final(self).data.live_mode == old(self).data.live_mode,
            final(self).data.date@ == old(self).data.date@.push(t.date),
            final(self).data.open@ == old(self).data.open@.push(t.open),
            final(self).data.high@ == old(self).data.high@.push(t.high),
            final(self).data.low@ == old(self).data.low@.push(t.low),
            final(self).data.close@ == old(self).data.close@.push(t.close),
            final(self).data.close2@ == old(self).data.close2@.push(t.close2),
            final(self).data.ask@ == old(self).data.ask@.push(t.ask),
            final(self).data.bid@ == old(self).data.bid@.push(t.bid),
            final(self).data.ask2@ == old(self).data.ask2@.push(t.ask2),
            final(self).data.bid2@ == old(self).data.bid2@.push(t.bid2),
    {
        proof {
            lemma_inv_counts(old(self)@);
        }
        self.data.date.push(t.date);
        self.data.open.push(t.open);
        self.data.high.push(t.high);
        self.data.low.push(t.low);
        self.data.close.push(t.close);
        self.data.close2.push(t.close2);
        self.data.ask.push(t.ask);
        self.data.bid.push(t.bid);
        self.data.ask2.push(t.ask2);
        self.data.bid2.push(t.bid2);
        self.equity.push(self.cash);
        proof {
            assert(final(self)@.equity =~= old(self)@.equity.push(old(self)@.cash));
            assert(final(self)@ =~= (BrokerView {
                data: final(self).data,
                equity: old(self)@.equity.push(old(self)@.cash),
                ..old(self)@
            }));
        }
    }

    /// True when the ledger surely has room for one more admission (every
    /// pending order is counted at its maximal weight); strategies test
    /// this before submitting.
    pub fn can_admit(&self) -> (r: bool)
        requires
            self.wf(),
        ensures
            r == (2 * self@.orders.len() + self@.trades.len() + self@.closed.len() + 2
                <= LEDGER_CAP as int),
            r ==> ledger_units(self@) + 2 <= LEDGER_CAP as int,
    {
        proof {
            lemma_inv_counts(self@);
            lemma_sum_weight_bounds(self@.orders);
        }
        2 * self.orders.len() + self.trades.len() + self.closed_trades.len() + 2 <= LEDGER_CAP
    }

    /// Number of open trades on one side.
    fn count_open_side(&self, long: bool) -> (r: usize)
        requires
            self.wf(),
        ensures
            r == count_side(self@.trades, long),
    {
        proof {
            lemma_inv_counts(self@);
        }
        let mut acc: usize = 0;
        let mut k: usize = 0;
        while k < self.trades.len()
            invariant
                0 <= k <= self.trades@.len(),
                self.trades@.len() <= LEDGER_CAP,
                acc == count_side(self.trades@.take(k as int), long),
                acc <= k,
            decreases self.trades@.len() - k,
        {
            proof {
                lemma_count_side_take_step(self.trades@, long, k as int);
            }
            let t = self.trades[k];
            if long == (t.size > 0) && t.size != 0 {
                acc = acc + 1;
            }
            k = k + 1;
        }
        proof {
            assert(self.trades@.take(self.trades@.len() as int) =~= self.trades@);
        }
        acc
    }

    /// Admits a proposed order or rejects it with one of the three soft
    /// errors.  On success the (scaled) order is queued — at the front when
    /// contingent — after the destructive exclusive-orders flatten, if that
    /// mode is on, and the margin usage is recorded.  On rejection the
    /// broker is untouched.
    ///
    /// Equity scaling is the only rescale admission performs.  In
    /// particular, a hedge-instrument order is queued at exactly the size
    /// given: sizing the hedge leg (for example by the primary/hedge price
    /// ratio) is the submitting strategy's business, not the broker's.
    #[verifier::rlimit(80)]
    pub fn new_order(&mut self, order: Order, current_price: i64) -> (r: Result<(), OrderError>)
        requires
            old(self).wf(),
            order_ok(order),
            price_in_range(current_price),
            iabs(spec_scaled_size(old(self)@, order.size)) <= SIZE_LIMIT as int,
            ledger_units(old(self)@) + 2 <= LEDGER_CAP as int,
        ensures
            final(self).wf(),
            r is Err <==> spec_order_rejection(old(self)@, order, current_price as int) is Some,
            (r matches Err(e) ==> Some(e) == spec_order_rejection(
                old(self)@,
                order,
                current_price as int,
            )),
            r is Err ==> *final(self) == *old(self),
            r is Ok ==> final(self)@ == spec_admitted(
                old(self)@,
                order,
                spec_scaled_size(old(self)@, order.size),
            ),
    {
        proof {
            lemma_inv_counts(old(self)@);
        }
        let s128 = self.scale_order_size(order.size);
        let s: i64 = s128 as i64;
        let a: i64 = if s >= 0 {
            s
        } else {
            -s
        };

        // Scaling first, then the fractional check: a cash account only
        // trades whole shares.
        if self.margin_num >= self.margin_den && (a as u64) % (SIZE_UNIT as u64) != 0 {
            return Err(OrderError::FractionalOrderNotAllowed);
        }

        // Margin check, written without division: exact over the integers.
        let expo = self.current_exposure();
        proof {
            lemma_mul_abs_bound(a as int, current_price as int, SIZE_LIMIT as int, PRICE_LIMIT as int);
            lemma_mul_le(self@.trades.len() as int, LEDGER_CAP as int, PNL_ABS_LIMIT as int);
        }
        let notional: i128 = (a as i128) * (current_price as i128);
        proof {
            lemma_mul_abs_bound(
                notional as int + sum_exposure(self@.trades),
                self@.margin_num,
                SIZE_LIMIT as int * PRICE_LIMIT as int + LEDGER_CAP as int * PNL_ABS_LIMIT as int,
                MARGIN_DEN_LIMIT as int,
            );
            lemma_mul_abs_bound(
                self@.cash,
                self@.margin_den,
                CASH_ABS_LIMIT as int,
                MARGIN_DEN_LIMIT as int,
            );
        }
        if (notional + expo) * (self.margin_num as i128) > self.cash * (self.margin_den as i128) {
            return Err(OrderError::MarginExceeded);
        }

        // Per-side cap on open trades, for entries only.
        if order.parent_trade.is_none() {
            if s > 0 {
                if self.count_open_side(true) >= TRADE_LIMIT {
                    return Err(OrderError::TradeLimitExceeded);
                }
            } else if s < 0 {
                if self.count_open_side(false) >= TRADE_LIMIT {
                    return Err(OrderError::TradeLimitExceeded);
                }
            }
        }

        // Exclusive-orders mode: flatten everything before queueing.  This
        // cancels every pending order and drops every open trade without
        // closing it.
        if self.exclusive_orders {
            self.orders.clear();
            self.trades.clear();
        }
        let o2 = Order { size: s, ..order };
        if order.parent_trade.is_some() {
            self.orders.insert(0, o2);
        } else {
            self.orders.push(o2);
        }
        proof {
            let vmid = self@;
            let vold = old(self)@;
            let o2g = Order { size: spec_scaled_size(vold, order.size) as i64, ..order };
            assert(s as int == spec_scaled_size(vold, order.size));
            assert(o2 == o2g);
            let base = if vold.exclusive_orders {
                Seq::<Order>::empty()
            } else {
                vold.orders
            };
            assert(sum_weight(Seq::<Order>::empty()) == 0);
            lemma_sum_weight_bounds(vold.orders);
            if order.parent_trade is Some {
                assert(vmid.orders =~= seq![o2g] + base);
                lemma_sum_weight_prepend(o2g, base);
            } else {
                assert(vmid.orders =~= base.push(o2g));
                lemma_sum_weight_push(base, o2g);
            }
            assert(sum_weight(vmid.orders) <= sum_weight(vold.orders) + 2);
            if vold.ruined {
                // A ruined account admits only zero-size orders: its cash is
                // zero and its book is flat, so any positive notional fails
                // the margin check.
                lemma_sum_exposure_flat(vold.trades);
                assert(a as int * current_price as int >= a as int) by (nonlinear_arith)
                    requires
                        a as int >= 0,
                        current_price as int >= 1,
                ;
                assert((notional as int + 0) * vmid.margin_num >= notional as int) by (nonlinear_arith)
                    requires
                        notional as int >= 0,
                        vmid.margin_num >= 1,
                ;
                assert(a == 0);
                assert(forall|i: int|
                    0 <= i < self@.orders.len() ==> #[trigger] self@.orders[i].size == 0);
            }
            assert(order_ok(o2g));
            assert(forall|i: int|
                0 <= i < self@.orders.len() ==> order_ok(#[trigger] self@.orders[i]));
            assert(trades_wf(self@.trades, self@.next_id));
            assert(closed_wf(self@.closed));
            lemma_sum_weight_bounds(self@.orders);
            assert(ledger_units(self@) <= LEDGER_CAP as int);
            assert(inv(self@));
        }
        self.update_max_margin_usage();
        self.update_margin_usage();
        proof {
            assert(final(self)@ =~= spec_admitted(
                old(self)@,
                order,
                spec_scaled_size(old(self)@, order.size),
            ));
        }
        Ok(())
    }
}

// ---------------------------------------------------------------------------
// Closing trades.
// ---------------------------------------------------------------------------

/// The broker after closing the open trade at position `ti` at tick
/// `tick`'s adjusted mark; unchanged when the position is out of range.
pub open spec fn spec_position_closed(v: BrokerView, ti: int, tick: int) -> BrokerView {
    if 0 <= ti < v.trades.len() {
        let t = v.trades[ti];
        let ct = spec_close_trade(
            t,
            spec_adjust(v.commission, v.spread, t.size as int, spec_close_price(v.data, t, tick)),
            tick,
        );
        BrokerView {
            trades: v.trades.remove(ti),
            closed: v.closed.push(ct),
            cash: v.cash + spec_pnl(ct),
            ..v
        }
    } else {
        v
    }
}

pub proof fn lemma_sum_pnl_concat(a: Seq<Trade>, b: Seq<Trade>)
    ensures
        sum_pnl(a + b) == sum_pnl(a) + sum_pnl(b),
    decreases b.len(),
{
    if b.len() == 0 {
        assert(a + b =~= a);
    } else {
        lemma_sum_pnl_concat(a, b.drop_last());
        assert((a + b).drop_last() =~= a + b.drop_last());
        assert((a + b).last() == b.last());
    }
}

pub proof fn lemma_close_batch_take_step(
    d: PriceSeries,
    commission: int,
    spread: int,
    s: Seq<Trade>,
    first: bool,
    tick: int,
    k: int,
)
    requires
        0 <= k < s.len(),
    ensures
        spec_close_batch(d, commission, spread, s.take(k + 1), first, tick) == if first == (
        s[k].instrument == 1) {
            spec_close_batch(d, commission, spread, s.take(k), first, tick).push(
                spec_close_trade(
                    s[k],
                    spec_adjust(commission, spread, s[k].size as int, spec_close_price(d, s[k], tick)),
                    tick,
                ),
            )
        } else {
            spec_close_batch(d, commission, spread, s.take(k), first, tick)
        },
{
    assert(s.take(k + 1).drop_last() =~= s.take(k));
    assert(s.take(k + 1).last() == s[k]);
}

/// The two instrument partitions of a close-out cover the book exactly.
pub proof fn lemma_close_batch_lens(
    d: PriceSeries,
    commission: int,
    spread: int,
    s: Seq<Trade>,
    tick1: int,
    tick2: int,
)
    ensures
        spec_close_batch(d, commission, spread, s, true, tick1).len() + spec_close_batch(
            d,
            commission,
            spread,
            s,
            false,
            tick2,
        ).len() == s.len(),
    decreases s.len(),
{
    if s.len() > 0 {
        lemma_close_batch_lens(d, commission, spread, s.drop_last(), tick1, tick2);
    }
}

/// Closing a flat (all-zero-size) book realizes nothing.
pub proof fn lemma_close_batch_flat(
    d: PriceSeries,
    commission: int,
    spread: int,
    s: Seq<Trade>,
    first: bool,
    tick: int,
)
    requires
        forall|i: int| 0 <= i < s.len() ==> #[trigger] s[i].size == 0,
    ensures
        sum_pnl(spec_close_batch(d, commission, spread, s, first, tick)) == 0,
    decreases s.len(),
{
    if s.len() > 0 {
        lemma_close_batch_flat(d, commission, spread, s.drop_last(), first, tick);
        let t = s.last();
        assert(s[s.len() - 1].size == 0);
        if first == (t.instrument == 1) {
            let ct = spec_close_trade(
                t,
                spec_adjust(commission, spread, t.size as int, spec_close_price(d, t, tick)),
                tick,
            );
            assert(ct.size == 0);
            assert((ct.size as int) * (ct.exit_price->0 as int - ct.entry_price as int) == 0)
                by (nonlinear_arith)
                requires
                    ct.size as int == 0,
            ;
            assert(spec_pnl(ct) == 0);
            lemma_sum_pnl_push(spec_close_batch(d, commission, spread, s.drop_last(), first, tick), ct);
        }
    }
}

/// Removing one open trade keeps the open ledger well formed.
pub proof fn lemma_trades_wf_remove(s: Seq<Trade>, next_id: int, j: int)
    requires
        trades_wf(s, next_id),
        0 <= j < s.len(),
    ensures
        trades_wf(s.remove(j), next_id),
{
    s.remove_ensures(j);
    let r = s.remove(j);
    assert forall|i: int|
        0 <= i < r.len() implies trade_ok(#[trigger] r[i]) && r[i].exit_price is None && (
    r[i].id as int) < next_id by {
        if i < j {
            assert(r[i] == s[i]);
        } else {
            assert(r[i] == s[i + 1]);
        }
    }
    assert forall|i: int, k: int| 0 <= i < k < r.len() implies r[i].id != r[k].id by {
        let si: int = if i < j { i } else { i + 1 };
        let sk: int = if k < j { k } else { k + 1 };
        assert(r[i] == s[si]);
        assert(r[k] == s[sk]);
        assert(s[si].id != s[sk].id);
    }
}

impl Broker {
    /// The raw price a trade would be closed at on tick `tick` (its mark).
    fn close_price(&self, t: &Trade, tick: usize) -> (r: i64)
        requires
            series_wf(self@.data),
            tick < self@.data.date@.len(),
        ensures
            r == spec_close_price(self@.data, *t, tick as int),
            price_in_range(r),
    {
        if self.data.live_mode {
            if t.instrument == 2 {
                if t.size > 0 {
                    self.data.bid2[tick]
                } else {
                    self.data.ask2[tick]
                }
            } else {
                if t.size > 0 {
                    self.data.bid[tick]
                } else {
                    self.data.ask[tick]
                }
            }
        } else {
            if t.instrument == 2 {
                self.data.close2[tick]
            } else {
                self.data.close[tick]
            }
        }
    }

    /// Closes the open trade at position `trade_index` at tick `tick_index`'s
    /// adjusted market price, realizing its profit into cash and moving it
    /// to the closed ledger; does nothing for an out-of-range position.
    pub fn close_position(&mut self, trade_index: usize, tick_index: usize)
        requires
            old(self).wf(),
            tick_index < old(self)@.data.date@.len(),
        ensures
            final(self).wf(),
            final(self)@ == spec_position_closed(old(self)@, trade_index as int, tick_index as int),
    {
        proof {
            lemma_inv_counts(old(self)@);
        }
        if trade_index < self.trades.len() {
            let trade = self.trades.remove(trade_index);
            let raw = self.close_price(&trade, tick_index);
            let exit = self.adjusted_price(trade.size, raw);
            let closed_trade = Trade {
                exit_price: Some(exit),
                exit_index: Some(tick_index),
                ..trade
            };
            let p = closed_trade.pnl();
            self.cash = self.cash + p;
            self.closed_trades.push(closed_trade);
            proof {
                let vold = old(self)@;
                lemma_trades_wf_remove(vold.trades, vold.next_id, trade_index as int);
                lemma_sum_pnl_push(vold.closed, closed_trade);
                lemma_sum_weight_bounds(vold.orders);
                if vold.ruined {
                    assert(vold.trades[trade_index as int].size == 0);
                    assert(closed_trade.size == 0);
                    assert((closed_trade.size as int) * (closed_trade.exit_price->0 as int
                        - closed_trade.entry_price as int) == 0) by (nonlinear_arith)
                        requires
                            closed_trade.size as int == 0,
                    ;
                    assert(spec_pnl(closed_trade) == 0);
                    assert(forall|i: int|
                        0 <= i < self@.trades.len() ==> #[trigger] self@.trades[i].size == 0)
                        by {
                        vold.trades.remove_ensures(trade_index as int);
                    }
                }
                assert(final(self)@ =~= spec_position_closed(
                    old(self)@,
                    trade_index as int,
                    tick_index as int,
                ));
            }
        }
    }

    /// Closes every open trade of one instrument partition at tick `tick`'s
    /// adjusted mark, leaving the open ledger itself untouched (the caller
    /// clears it once both partitions are done).
    fn close_batch(&mut self, first: bool, tick: usize)
        requires
            series_wf(old(self)@.data),
            config_wf(old(self)@),
            tick < old(self)@.data.date@.len(),
            forall|i: int| 0 <= i < old(self)@.trades.len() ==> trade_ok(#[trigger] old(self)@.trades[i]),
            closed_wf(old(self)@.closed),
            old(self)@.trades.len() <= LEDGER_CAP,
            old(self)@.closed.len() <= 2 * LEDGER_CAP,
            iabs(old(self)@.cash) <= CASH_LIMIT as int + old(self)@.closed.len() * PNL_ABS_LIMIT as int,
        ensures
            final(self)@ == (BrokerView {
                closed: old(self)@.closed + spec_close_batch(
                    old(self)@.data,
                    old(self)@.commission,
                    old(self)@.spread,
                    old(self)@.trades,
                    first,
                    tick as int,
                ),
                cash: old(self)@.cash + sum_pnl(
                    spec_close_batch(
                        old(self)@.data,
                        old(self)@.commission,
                        old(self)@.spread,
                        old(self)@.trades,
                        first,
                        tick as int,
                    ),
                ),
                ..old(self)@
            }),
            closed_wf(final(self)@.closed),
            iabs(final(self)@.cash) <= CASH_LIMIT as int + final(self)@.closed.len()
                * PNL_ABS_LIMIT as int,
            final(self)@.closed.len() <= old(self)@.closed.len() + old(self)@.trades.len(),
    {
        let ghost d = old(self)@.data;
        let ghost cm = old(self)@.commission;
        let ghost sp = old(self)@.spread;
        let ghost ts = old(self)@.trades;
        let mut k: usize = 0;
        while k < self.trades.len()
            invariant
                d == old(self)@.data,
                cm == old(self)@.commission,
                sp == old(self)@.spread,
                ts == old(self)@.trades,
                0 <= k <= ts.len(),
                ts.len() <= LEDGER_CAP,
                old(self)@.closed.len() <= 2 * LEDGER_CAP,
                tick < d.date@.len(),
                series_wf(d),
                config_wf(old(self)@),
                forall|i: int| 0 <= i < ts.len() ==> trade_ok(#[trigger] ts[i]),
                closed_wf(old(self)@.closed),
                self.data == old(self).data,
                self.orders@ == old(self).orders@,
                self.trades@ == ts,
                self.equity@ == old(self).equity@,
                self.margin_usage_history@ == old(self).margin_usage_history@,
                self.bidask_spread == old(self).bidask_spread,
                self.commission == old(self).commission,
                self.margin_num == old(self).margin_num,
                self.margin_den == old(self).margin_den,
                self.margin_call_bp == old(self).margin_call_bp,
                self.trade_on_close == old(self).trade_on_close,
                self.hedging == old(self).hedging,
                self.exclusive_orders == old(self).exclusive_orders,
                self.scaling_enabled == old(self).scaling_enabled,
                self.base_equity == old(self).base_equity,
                self.max_margin_usage == old(self).max_margin_usage,
                self.ruined == old(self).ruined,
                self.next_trade_id == old(self).next_trade_id,
                self.max_concurrent_trades == old(self).max_concurrent_trades,
                self@.closed == old(self)@.closed + spec_close_batch(
                    d,
                    cm,
                    sp,
                    ts.take(k as int),
                    first,
                    tick as int,
                ),
                self@.cash == old(self)@.cash + sum_pnl(
                    spec_close_batch(d, cm, sp, ts.take(k as int), first, tick as int),
                ),
                closed_wf(self@.closed),
                self@.closed.len() <= old(self)@.closed.len() + k,
                iabs(self@.cash) <= CASH_LIMIT as int + self@.closed.len() * PNL_ABS_LIMIT as int,
            decreases ts.len() - k,
        {
            proof {
                lemma_close_batch_take_step(d, cm, sp, ts, first, tick as int, k as int);
            }
            let t = self.trades[k];
            if first == (t.instrument == 1) {
                let raw = self.close_price(&t, tick);
                let exit = self.adjusted_price(t.size, raw);
                let ct = Trade { exit_price: Some(exit), exit_index: Some(tick), ..t };
                let p = ct.pnl();
                proof {
                    lemma_sum_pnl_push(
                        spec_close_batch(d, cm, sp, ts.take(k as int), first, tick as int),
                        ct,
                    );
                }
                self.cash = self.cash + p;
                self.closed_trades.push(ct);
            }
            k = k + 1;
        }
        proof {
            assert(ts.take(ts.len() as int) =~= ts);
            assert(final(self)@ =~= (BrokerView {
                closed: old(self)@.closed + spec_close_batch(d, cm, sp, ts, first, tick as int),
                cash: old(self)@.cash + sum_pnl(
                    spec_close_batch(d, cm, sp, ts, first, tick as int),
                ),
                ..old(self)@
            }));
        }
    }

    /// Liquidates the whole book: every open trade is closed at its adjusted
    /// mark — instrument 1 trades at tick `tick1`, the rest at `tick2` —
    /// the realized profit goes into cash, and every pending order is
    /// cancelled.
    pub fn close_all_trades(&mut self, tick1: usize, tick2: usize)
        requires
            old(self).wf(),
            tick1 < old(self)@.data.date@.len(),
            tick2 < old(self)@.data.date@.len(),
        ensures
            final(self).wf(),
            final(self)@ == spec_liquidated(old(self)@, tick1 as int, tick2 as int),
    {
        proof {
            lemma_inv_counts(old(self)@);
            lemma_sum_weight_bounds(old(self)@.orders);
        }
        let ghost v0 = old(self)@;
        let ghost b1 = spec_close_batch(v0.data, v0.commission, v0.spread, v0.trades, true, tick1 as int);
        let ghost b2 = spec_close_batch(
            v0.data,
            v0.commission,
            v0.spread,
            v0.trades,
            false,
            tick2 as int,
        );
        self.close_batch(true, tick1);
        self.close_batch(false, tick2);
        self.trades.clear();
        self.orders.clear();
        proof {
            lemma_close_batch_lens(v0.data, v0.commission, v0.spread, v0.trades, tick1 as int, tick2 as int);
            assert(final(self)@.closed =~= v0.closed + b1 + b2);
            assert(final(self)@ =~= spec_liquidated(v0, tick1 as int, tick2 as int));
            lemma_sum_pnl_concat(v0.closed + b1, b2);
            lemma_sum_pnl_concat(v0.closed, b1);
            if v0.ruined {
                lemma_close_batch_flat(v0.data, v0.commission, v0.spread, v0.trades, true, tick1 as int);
                lemma_close_batch_flat(v0.data, v0.commission, v0.spread, v0.trades, false, tick2 as int);
            }
            assert(inv(final(self)@));
        }
    }
}

// ---------------------------------------------------------------------------
// Executing filled orders.
// ---------------------------------------------------------------------------

/// An execution price is always a raw series price or a limit price, hence
/// in range.
pub proof fn lemma_exec_price_range(d: PriceSeries, toc: bool, o: Order, i: int)
    requires
        series_wf(d),
        order_ok(o),
        0 <= i < d.date@.len(),
    ensures
        1 <= spec_exec_price(d, toc, o, i) <= PRICE_LIMIT as int,
{
}

/// An adjusted price keeps within `ADJ_PRICE_LIMIT`.
pub proof fn lemma_adjust_range(commission: int, spread: int, size: int, raw: int)
    requires
        0 <= commission < COMMISSION_DEN as int,
        0 <= spread <= PRICE_LIMIT as int,
        1 <= raw <= PRICE_LIMIT as int,
    ensures
        iabs(spec_adjust(commission, spread, size, raw)) <= ADJ_PRICE_LIMIT as int,
{
    assert(0 <= (raw * commission) / (COMMISSION_DEN as int) <= raw) by (nonlinear_arith)
        requires
            1 <= raw,
            0 <= commission < COMMISSION_DEN as int,
    ;
}

/// What `spec_find_trade` finds: the first open trade carrying the
/// identifier, or nothing when none does.
pub proof fn lemma_find_trade(s: Seq<Trade>, id: u64)
    ensures
        spec_find_trade(s, id) == -1 ==> forall|i: int|
            0 <= i < s.len() ==> (#[trigger] s[i]).id != id,
        spec_find_trade(s, id) != -1 ==> 0 <= spec_find_trade(s, id) < s.len() && s[spec_find_trade(
            s,
            id,
        )].id == id,
    decreases s.len(),
{
    if s.len() > 0 {
        if s[0].id != id {
            lemma_find_trade(s.drop_first(), id);
            assert(forall|i: int|
                0 <= i < s.drop_first().len() ==> #[trigger] s.drop_first()[i] == s[i + 1]);
            let rr = spec_find_trade(s.drop_first(), id);
            if rr == -1 {
                assert forall|i: int| 0 <= i < s.len() implies (#[trigger] s[i]).id != id by {
                    if i > 0 {
                        assert(s.drop_first()[i - 1] == s[i]);
                        assert(s.drop_first()[i - 1].id != id);
                    }
                }
            } else {
                assert(s.drop_first()[rr] == s[rr + 1]);
            }
        }
    }
}

/// What executing one filled order preserves: the invariant pieces, the
/// conservation of cash against the closed ledger, the ledger-weight
/// budget, and flatness of a ruined account.
pub proof fn lemma_exec_one_preserves(v: BrokerView, o: Order, i: int)
    requires
        series_wf(v.data),
        config_wf(v),
        0 <= i < v.data.date@.len(),
        order_ok(o),
        forall|x: int| 0 <= x < v.orders.len() ==> order_ok(#[trigger] v.orders[x]),
        trades_wf(v.trades, v.next_id),
        closed_wf(v.closed),
        iabs(v.cash) <= CASH_LIMIT as int + v.closed.len() * PNL_ABS_LIMIT as int,
        0 <= v.next_id < u64::MAX as int,
    ensures
        ({
            let w = spec_exec_one(v, o, i);
            &&& w.data == v.data
            &&& w.spread == v.spread
            &&& w.commission == v.commission
            &&& w.margin_num == v.margin_num
            &&& w.margin_den == v.margin_den
            &&& w.margin_call_bp == v.margin_call_bp
            &&& w.trade_on_close == v.trade_on_close
            &&& w.hedging == v.hedging
            &&& w.exclusive_orders == v.exclusive_orders
            &&& w.scaling == v.scaling
            &&& w.equity == v.equity
            &&& w.usage_history == v.usage_history
            &&& w.max_usage == v.max_usage
            &&& w.max_concurrent == v.max_concurrent
            &&& w.ruined == v.ruined
            &&& w.base_equity == v.base_equity
            &&& forall|x: int| 0 <= x < w.orders.len() ==> order_ok(#[trigger] w.orders[x])
            &&& trades_wf(w.trades, w.next_id)
            &&& closed_wf(w.closed)
            &&& v.next_id <= w.next_id <= v.next_id + 1
            &&& w.cash - sum_pnl(w.closed) == v.cash - sum_pnl(v.closed)
            &&& iabs(w.cash) <= CASH_LIMIT as int + w.closed.len() * PNL_ABS_LIMIT as int
            &&& v.closed.len() <= w.closed.len() <= v.closed.len() + 1
            &&& w.trades.len() <= v.trades.len() + 1
            &&& w.orders.len() <= v.orders.len() + 1
            &&& ledger_units(w) <= ledger_units(v) + order_weight(o)
            &&& (flat_zero(v) && o.size == 0 ==> flat_zero(w) && w.cash == v.cash)
        }),
{
    let raw = spec_exec_price(v.data, v.trade_on_close, o, i);
    let px = spec_adjust(v.commission, v.spread, o.size as int, raw);
    lemma_exec_price_range(v.data, v.trade_on_close, o, i);
    lemma_adjust_range(v.commission, v.spread, o.size as int, raw);
    match o.parent_trade {
        Some(pid) => {
            lemma_find_trade(v.trades, pid);
            let j = spec_find_trade(v.trades, pid);
            if j >= 0 {
                let t = v.trades[j];
                let ct = spec_close_trade(t, px, i);
                assert(trade_ok(ct));
                lemma_trades_wf_remove(v.trades, v.next_id, j);
                lemma_sum_pnl_push(v.closed, ct);
                lemma_mul_abs_bound(
                    ct.size as int,
                    ct.exit_price->0 as int - ct.entry_price as int,
                    SIZE_LIMIT as int,
                    2 * ADJ_PRICE_LIMIT as int,
                );
                v.trades.remove_ensures(j);
                if flat_zero(v) && o.size == 0 {
                    assert(t.size == 0);
                    assert((ct.size as int) * (ct.exit_price->0 as int - ct.entry_price as int)
                        == 0) by (nonlinear_arith)
                        requires
                            ct.size as int == 0,
                    ;
                }
            }
        },
        None => {
            let nt = Trade {
                id: v.next_id as u64,
                instrument: o.instrument,
                size: o.size,
                entry_price: px as i64,
                entry_index: i as usize,
                exit_price: None,
                exit_index: None,
            };
            assert(trade_ok(nt));
            let w = spec_exec_one(v, o, i);
            assert(forall|x: int|
                0 <= x < v.trades.len() ==> #[trigger] v.trades.push(nt)[x] == v.trades[x]);
            assert(v.trades.push(nt)[v.trades.len() as int] == nt);
            match o.sl {
                Some(sl) => {
                    lemma_sum_weight_push(
                        v.orders,
                        Order {
                            size: o.size,
                            limit: None,
                            stop: Some(sl),
                            sl: None,
                            tp: o.tp,
                            parent_trade: Some(v.next_id as u64),
                            instrument: o.instrument,
                        },
                    );
                },
                None => {},
            }
        },
    }
}

/// Appending one more order to an execution run folds as one more step.
pub proof fn lemma_exec_seq_snoc(v: BrokerView, os: Seq<Order>, o: Order, i: int)
    ensures
        spec_exec_seq(v, os.push(o), i) == spec_exec_one(spec_exec_seq(v, os, i), o, i),
    decreases os.len(),
{
    if os.len() == 0 {
        assert(os.push(o)[0] == o);
        assert(os.push(o).drop_first() =~= Seq::<Order>::empty());
        assert(spec_exec_seq(v, os.push(o), i) == spec_exec_seq(
            spec_exec_one(v, o, i),
            Seq::<Order>::empty(),
            i,
        ));
        assert(spec_exec_seq(spec_exec_one(v, o, i), Seq::<Order>::empty(), i) == spec_exec_one(
            v,
            o,
            i,
        ));
        assert(spec_exec_seq(v, os, i) == v);
    } else {
        assert(os.push(o)[0] == os[0]);
        assert(os.push(o).drop_first() =~= os.drop_first().push(o));
        lemma_exec_seq_snoc(spec_exec_one(v, os[0], i), os.drop_first(), o, i);
        assert(spec_exec_seq(v, os.push(o), i) == spec_exec_seq(
            spec_exec_one(v, os[0], i),
            os.drop_first().push(o),
            i,
        ));
        assert(spec_exec_seq(v, os, i) == spec_exec_seq(
            spec_exec_one(v, os[0], i),
            os.drop_first(),
            i,
        ));
    }
}

impl Broker {
    /// The raw execution price for a filled order on tick `index`.
    fn exec_price(&self, o: &Order, index: usize) -> (r: i64)
        requires
            series_wf(self@.data),
            opt_price_ok(o.limit),
            index < self@.data.date@.len(),
        ensures
            r == spec_exec_price(self@.data, self@.trade_on_close, *o, index as int),
            price_in_range(r),
    {
        match o.limit {
            Some(limit_price) => limit_price,
            None => {
                if self.data.live_mode {
                    let j: usize = if self.trade_on_close && index > 0 {
                        index - 1
                    } else {
                        index
                    };
                    if o.instrument == 2 {
                        if o.size > 0 {
                            self.data.ask2[j]
                        } else {
                            self.data.bid2[j]
                        }
                    } else {
                        if o.size > 0 {
                            self.data.ask[j]
                        } else {
                            self.data.bid[j]
                        }
                    }
                } else {
                    if o.instrument == 2 {
                        let j: usize = if self.trade_on_close && index > 0 {
                            index - 1
                        } else {
                            index
                        };
                        self.data.close2[j]
                    } else {
                        if self.trade_on_close {
                            if index > 0 {
                                self.data.close[index - 1]
                            } else {
                                self.data.open[index]
                            }
                        } else {
                            self.data.open[index]
                        }
                    }
                }
            },
        }
    }

    /// Position of the open trade with identifier `id`, if any.
    fn find_open_trade(&self, id: u64) -> (r: Option<usize>)
        ensures
            match r {
                Some(j) => spec_find_trade(self@.trades, id) == j && j < self@.trades.len()
                    && self@.trades[j as int].id == id,
                None => spec_find_trade(self@.trades, id) == -1,
            },
    {
        proof {
            lemma_find_trade(self@.trades, id);
        }
        let mut k: usize = 0;
        while k < self.trades.len()
            invariant
                0 <= k <= self.trades@.len(),
                forall|i: int| 0 <= i < k ==> (#[trigger] self.trades@[i]).id != id,
            decreases self.trades@.len() - k,
        {
            if self.trades[k].id == id {
                proof {
                    lemma_find_trade(self@.trades, id);
                    let f = spec_find_trade(self@.trades, id);
                    assert(f != -1);
                    if f < k as int {
                        assert(self@.trades[f].id != id);
                    }
                    if f > k as int {
                        lemma_find_trade_prefix(self@.trades, id, k as int);
                    }
                }
                return Some(k);
            }
            k = k + 1;
        }
        proof {
            lemma_find_trade(self@.trades, id);
        }
        None
    }

    /// Executes one filled order on tick `index`, as `spec_exec_one` says.
    fn execute_order(&mut self, o: Order, index: usize)
        requires
            series_wf(old(self)@.data),
            config_wf(old(self)@),
            index < old(self)@.data.date@.len(),
            order_ok(o),
            trades_wf(old(self)@.trades, old(self)@.next_id),
            closed_wf(old(self)@.closed),
            old(self)@.trades.len() <= 2 * LEDGER_CAP,
            old(self)@.closed.len() <= 2 * LEDGER_CAP,
            old(self)@.orders.len() <= 2 * LEDGER_CAP,
            iabs(old(self)@.cash) <= CASH_LIMIT as int + old(self)@.closed.len()
                * PNL_ABS_LIMIT as int,
            old(self)@.next_id < u64::MAX as int,
        ensures
            final(self)@ == spec_exec_one(old(self)@, o, index as int),
    {
        let raw = self.exec_price(&o, index);
        let px = self.adjusted_price(o.size, raw);
        proof {
            lemma_exec_price_range(old(self)@.data, old(self)@.trade_on_close, o, index as int);
        }
        match o.parent_trade {
            Some(pid) => {
                match self.find_open_trade(pid) {
                    Some(j) => {
                        let t = self.trades.remove(j);
                        let ct = Trade { exit_price: Some(px), exit_index: Some(index), ..t };
                        let p = ct.pnl();
                        self.cash = self.cash + p;
                        self.closed_trades.push(ct);
                        proof {
                            lemma_mul_le(
                                old(self)@.closed.len() as int,
                                2 * LEDGER_CAP as int,
                                PNL_ABS_LIMIT as int,
                            );
                            assert(final(self)@ =~= spec_exec_one(old(self)@, o, index as int));
                        }
                    },
                    None => {
                        proof {
                            assert(final(self)@ =~= spec_exec_one(old(self)@, o, index as int));
                        }
                    },
                }
            },
            None => {
                let nt = Trade {
                    id: self.next_trade_id,
                    instrument: o.instrument,
                    size: o.size,
                    entry_price: px,
                    entry_index: index,
                    exit_price: None,
                    exit_index: None,
                };
                self.trades.push(nt);
                let tid = self.next_trade_id;
                self.next_trade_id = self.next_trade_id + 1;
                match o.sl {
                    Some(sl) => {
                        self.orders.push(
                            Order {
                                size: o.size,
                                limit: None,
                                stop: Some(sl),
                                sl: None,
                                tp: o.tp,
                                parent_trade: Some(tid),
                                instrument: o.instrument,
                            },
                        );
                    },
                    None => {},
                }
                proof {
                    assert(final(self)@ =~= spec_exec_one(old(self)@, o, index as int));
                }
            },
        }
    }
}

/// `spec_find_trade` never skips a hit: if it lands past `k`, position `k`
/// does not carry the identifier.
pub proof fn lemma_find_trade_prefix(s: Seq<Trade>, id: u64, k: int)
    requires
        0 <= k < s.len(),
        spec_find_trade(s, id) > k,
    ensures
        s[k].id != id,
    decreases s.len(),
{
    if s.len() > 0 && s[0].id != id {
        if k > 0 {
            lemma_find_trade_prefix(s.drop_first(), id, k - 1);
            assert(s.drop_first()[k - 1] == s[k]);
        }
    }
}

// ---------------------------------------------------------------------------
// The matching pass.
// ---------------------------------------------------------------------------

pub proof fn lemma_split_take_step(d: PriceSeries, s: Seq<Order>, i: int, k: int)
    requires
        0 <= k < s.len(),
    ensures
        spec_remaining(d, s.take(k + 1), i) == if spec_order_fills(d, s[k], i) {
            spec_remaining(d, s.take(k), i)
        } else {
            spec_remaining(d, s.take(k), i).push(spec_after_check(d, s[k], i))
        },
        spec_executables(d, s.take(k + 1), i) == if spec_order_fills(d, s[k], i) {
            spec_executables(d, s.take(k), i).push(spec_after_check(d, s[k], i))
        } else {
            spec_executables(d, s.take(k), i)
        },
{
    assert(s.take(k + 1).drop_last() =~= s.take(k));
    assert(s.take(k + 1).last() == s[k]);
}

/// A prefix weighs no more than the whole queue.
pub proof fn lemma_sum_weight_take_le(s: Seq<Order>, k: int)
    requires
        0 <= k <= s.len(),
    ensures
        sum_weight(s.take(k)) <= sum_weight(s),
    decreases s.len(),
{
    if k == s.len() {
        assert(s.take(k) =~= s);
    } else if s.len() > 0 {
        lemma_sum_weight_take_le(s.drop_last(), k);
        assert(s.drop_last().take(k) =~= s.take(k));
    }
}

/// The matching pass conserves ledger weight: survivors and executables
/// together weigh exactly what the queue weighed.
pub proof fn lemma_split_weight(d: PriceSeries, s: Seq<Order>, i: int)
    ensures
        sum_weight(spec_remaining(d, s, i)) + sum_weight(spec_executables(d, s, i)) == sum_weight(
            s,
        ),
    decreases s.len(),
{
    if s.len() > 0 {
        lemma_split_weight(d, s.drop_last(), i);
        let o = s.last();
        let oc = spec_after_check(d, o, i);
        assert(order_weight(oc) == order_weight(o));
        if spec_order_fills(d, o, i) {
            lemma_sum_weight_push(spec_executables(d, s.drop_last(), i), oc);
        } else {
            lemma_sum_weight_push(spec_remaining(d, s.drop_last(), i), oc);
        }
    }
}

impl Broker {
    /// Decides one pending order on tick `index`: whether it fills, and how
    /// it looks afterwards (a triggered stop is cleared either way).
    fn order_decision(&self, o: Order, index: usize) -> (r: (bool, Order))
        requires
            series_wf(self@.data),
            index < self@.data.date@.len(),
        ensures
            r.0 == spec_order_fills(self@.data, o, index as int),
            r.1 == spec_after_check(self@.data, o, index as int),
    {
        let stop_res: (bool, Order) = match o.stop {
            Some(stop_price) => {
                let hit: bool = if self.data.live_mode {
                    let ask = if o.instrument == 2 {
                        self.data.ask2[index]
                    } else {
                        self.data.ask[index]
                    };
                    let bid = if o.instrument == 2 {
                        self.data.bid2[index]
                    } else {
                        self.data.bid[index]
                    };
                    if o.parent_trade.is_some() {
                        if o.size > 0 {
                            bid <= stop_price
                        } else {
                            ask >= stop_price
                        }
                    } else {
                        if o.size > 0 {
                            ask >= stop_price
                        } else {
                            bid <= stop_price
                        }
                    }
                } else {
                    let high = self.data.high[index];
                    let low = self.data.low[index];
                    if o.parent_trade.is_some() {
                        if o.size > 0 {
                            low <= stop_price
                        } else {
                            high >= stop_price
                        }
                    } else {
                        if o.size > 0 {
                            high >= stop_price
                        } else {
                            low <= stop_price
                        }
                    }
                };
                if hit {
                    (true, Order { stop: None, ..o })
                } else {
                    (false, o)
                }
            },
            None => (true, o),
        };
        let limit_ok: bool = match o.limit {
            Some(limit_price) => {
                if self.data.live_mode {
                    let ask = if o.instrument == 2 {
                        self.data.ask2[index]
                    } else {
                        self.data.ask[index]
                    };
                    let bid = if o.instrument == 2 {
                        self.data.bid2[index]
                    } else {
                        self.data.bid[index]
                    };
                    if o.size > 0 {
                        ask <= limit_price
                    } else {
                        bid >= limit_price
                    }
                } else {
                    if o.size > 0 {
                        self.data.low[index] < limit_price
                    } else {
                        self.data.high[index] > limit_price
                    }
                }
            },
            None => true,
        };
        (stop_res.0 && limit_ok, stop_res.1)
    }

    /// The matching pass of one tick: every pending order is checked against
    /// the tick's prices, the filling ones are removed from the queue and
    /// executed in their original order, and the rest stay queued (with
    /// triggered stops cleared).
    #[verifier::rlimit(80)]
    pub fn process_orders(&mut self, index: usize)
        requires
            old(self).wf(),
            index < old(self)@.data.date@.len(),
            old(self)@.next_id + old(self)@.orders.len() <= u64::MAX as int,
        ensures
            final(self).wf(),
            final(self)@ == spec_process(old(self)@, index as int),
            old(self)@.next_id <= final(self)@.next_id <= old(self)@.next_id
                + old(self)@.orders.len(),
            final(self)@.data == old(self)@.data,
            final(self)@.equity == old(self)@.equity,
            final(self)@.usage_history == old(self)@.usage_history,
            final(self)@.max_usage == old(self)@.max_usage,
            final(self)@.max_concurrent == old(self)@.max_concurrent,
            final(self)@.ruined == old(self)@.ruined,
            final(self)@.base_equity == old(self)@.base_equity,
            final(self)@.cash - sum_pnl(final(self)@.closed) == old(self)@.cash - sum_pnl(
                old(self)@.closed,
            ),
            final(self)@.closed.len() >= old(self)@.closed.len(),
    {
        proof {
            lemma_inv_counts(old(self)@);
            lemma_sum_weight_bounds(old(self)@.orders);
        }
        let mut remaining: Vec<Order> = Vec::new();
        let mut to_exec: Vec<Order> = Vec::new();
        let mut k: usize = 0;
        while k < self.orders.len()
            invariant
                self.wf(),
                index < self@.data.date@.len(),
                0 <= k <= self.orders@.len(),
                self.orders@.len() <= LEDGER_CAP,
                remaining@ == spec_remaining(self@.data, self.orders@.take(k as int), index as int),
                to_exec@ == spec_executables(self@.data, self.orders@.take(k as int), index as int),
                remaining@.len() + to_exec@.len() == k,
                forall|x: int| 0 <= x < remaining@.len() ==> order_ok(#[trigger] remaining@[x]),
                forall|x: int| 0 <= x < to_exec@.len() ==> order_ok(#[trigger] to_exec@[x]),
                self@.ruined ==> forall|x: int|
                    0 <= x < remaining@.len() ==> #[trigger] remaining@[x].size == 0,
                self@.ruined ==> forall|x: int|
                    0 <= x < to_exec@.len() ==> #[trigger] to_exec@[x].size == 0,
            decreases self.orders@.len() - k,
        {
            let o = self.orders[k];
            let dec = self.order_decision(o, index);
            proof {
                lemma_split_take_step(self@.data, self.orders@, index as int, k as int);
            }
            if dec.0 {
                to_exec.push(dec.1);
            } else {
                remaining.push(dec.1);
            }
            k = k + 1;
        }
        proof {
            assert(self.orders@.take(self.orders@.len() as int) =~= self.orders@);
        }
        let ghost v0 = old(self)@;
        self.orders = remaining;
        proof {
            assert(self@ =~= (BrokerView {
                orders: spec_remaining(v0.data, v0.orders, index as int),
                ..v0
            }));
            lemma_split_weight(v0.data, v0.orders, index as int);
            lemma_sum_weight_bounds(spec_remaining(v0.data, v0.orders, index as int));
            lemma_sum_weight_bounds(spec_executables(v0.data, v0.orders, index as int));
        }
        let mut j: usize = 0;
        while j < to_exec.len()
            invariant
                inv(old(self)@),
                index < old(self)@.data.date@.len(),
                old(self)@.next_id + old(self)@.orders.len() <= u64::MAX as int,
                0 <= j <= to_exec@.len(),
                to_exec@ == spec_executables(old(self)@.data, old(self)@.orders, index as int),
                to_exec@.len() + spec_remaining(
                    old(self)@.data,
                    old(self)@.orders,
                    index as int,
                ).len() == old(self)@.orders.len(),
                sum_weight(spec_remaining(old(self)@.data, old(self)@.orders, index as int))
                    + sum_weight(to_exec@) == sum_weight(old(self)@.orders),
                forall|x: int| 0 <= x < to_exec@.len() ==> order_ok(#[trigger] to_exec@[x]),
                self@ == spec_exec_seq(
                    BrokerView {
                        orders: spec_remaining(old(self)@.data, old(self)@.orders, index as int),
                        ..old(self)@
                    },
                    to_exec@.take(j as int),
                    index as int,
                ),
                self@.data == old(self)@.data,
                self@.spread == old(self)@.spread,
                self@.commission == old(self)@.commission,
                self@.margin_num == old(self)@.margin_num,
                self@.margin_den == old(self)@.margin_den,
                self@.margin_call_bp == old(self)@.margin_call_bp,
                self@.trade_on_close == old(self)@.trade_on_close,
                self@.hedging == old(self)@.hedging,
                self@.exclusive_orders == old(self)@.exclusive_orders,
                self@.scaling == old(self)@.scaling,
                self@.equity == old(self)@.equity,
                self@.usage_history == old(self)@.usage_history,
                self@.max_usage == old(self)@.max_usage,
                self@.max_concurrent == old(self)@.max_concurrent,
                self@.ruined == old(self)@.ruined,
                self@.base_equity == old(self)@.base_equity,
                series_wf(self@.data),
                config_wf(self@),
                forall|x: int| 0 <= x < self@.orders.len() ==> order_ok(#[trigger] self@.orders[x]),
                trades_wf(self@.trades, self@.next_id),
                closed_wf(self@.closed),
                iabs(self@.cash) <= CASH_LIMIT as int + self@.closed.len() * PNL_ABS_LIMIT as int,
                self@.trades.len() <= 2 * LEDGER_CAP,
                self@.closed.len() <= 2 * LEDGER_CAP,
                self@.closed.len() >= old(self)@.closed.len(),
                self@.orders.len() <= 2 * LEDGER_CAP,
                ledger_units(self@) <= sum_weight(
                    spec_remaining(old(self)@.data, old(self)@.orders, index as int),
                ) + old(self)@.trades.len() + old(self)@.closed.len() + sum_weight(
                    to_exec@.take(j as int),
                ),
                old(self)@.next_id <= self@.next_id <= old(self)@.next_id + j,
                self@.cash - sum_pnl(self@.closed) == old(self)@.cash - sum_pnl(old(self)@.closed),
                old(self)@.ruined ==> forall|x: int|
                    0 <= x < to_exec@.len() ==> #[trigger] to_exec@[x].size == 0,
                old(self)@.ruined ==> flat_zero(self@) && self@.cash == 0,
            decreases to_exec@.len() - j,
        {
            let o = to_exec[j];
            proof {
                lemma_sum_weight_bounds(self@.orders);
                lemma_exec_one_preserves(self@, o, index as int);
                lemma_exec_seq_snoc(
                    BrokerView {
                        orders: spec_remaining(old(self)@.data, old(self)@.orders, index as int),
                        ..old(self)@
                    },
                    to_exec@.take(j as int),
                    o,
                    index as int,
                );
                assert(to_exec@.take(j + 1) =~= to_exec@.take(j as int).push(o));
                lemma_sum_weight_take_step(to_exec@, j as int);
            }
            self.execute_order(o, index);
            proof {
                lemma_sum_weight_bounds(self@.orders);
                lemma_sum_weight_take_le(to_exec@, j as int + 1);
                assert(ledger_units(self@) <= LEDGER_CAP as int);
            }
            j = j + 1;
        }
        proof {
            assert(to_exec@.take(to_exec@.len() as int) =~= to_exec@);
            lemma_sum_weight_bounds(self@.orders);
            assert(final(self)@ == spec_process(old(self)@, index as int));
            assert(ledger_units(final(self)@) <= ledger_units(old(self)@));
            assert(inv(final(self)@));
        }
    }
}

// ---------------------------------------------------------------------------
// The tick epilogue.
// ---------------------------------------------------------------------------

impl Broker {
    /// Recomputes equity on tick `index`: cash plus the unrealized profit of
    /// every open trade at the tick's marks.
    pub fn update_equity(&mut self, index: usize)
        requires
            old(self).wf(),
            index < old(self)@.equity.len(),
        ensures
            final(self).wf(),
            final(self)@ == spec_equity_updated(old(self)@, index as int),
    {
        proof {
            lemma_inv_counts(old(self)@);
            lemma_sum_unrealized_bound(old(self)@.data, old(self)@.trades, index as int);
        }
        let mut acc: i128 = 0;
        let mut k: usize = 0;
        while k < self.trades.len()
            invariant
                self.wf(),
                index < self@.equity.len(),
                0 <= k <= self.trades@.len(),
                self.trades@.len() <= LEDGER_CAP,
                acc == sum_unrealized(self@.data, self.trades@.take(k as int), index as int),
                iabs(acc as int) <= k * PNL_ABS_LIMIT as int,
            decreases self.trades@.len() - k,
        {
            let t = self.trades[k];
            let mark = self.close_price(&t, index);
            proof {
                lemma_sum_unrealized_take_step(self@.data, self.trades@, index as int, k as int);
                lemma_mul_abs_bound(
                    t.size as int,
                    mark as int - t.entry_price as int,
                    SIZE_LIMIT as int,
                    2 * ADJ_PRICE_LIMIT as int,
                );
                lemma_mul_le(k as int + 1, LEDGER_CAP as int, PNL_ABS_LIMIT as int);
            }
            acc = acc + (t.size as i128) * (mark as i128 - t.entry_price as i128);
            k = k + 1;
        }
        proof {
            assert(self.trades@.take(self.trades@.len() as int) =~= self.trades@);
            lemma_mul_le(self@.trades.len() as int, LEDGER_CAP as int, PNL_ABS_LIMIT as int);
        }
        let e: i128 = self.cash + acc;
        self.equity.set(index, e);
        proof {
            assert(final(self)@.equity =~= spec_equity_updated(old(self)@, index as int).equity);
            assert(final(self)@ =~= spec_equity_updated(old(self)@, index as int));
        }
    }

    /// The margin-call check: a usage strictly above the configured
    /// threshold forces a full liquidation at tick-`index` prices; the usage
    /// after liquidation is recorded.  Either way the usage afterwards is
    /// within the threshold.
    fn check_margin_call(&mut self, index: usize)
        requires
            old(self).wf(),
            index < old(self)@.data.date@.len(),
        ensures
            final(self).wf(),
            final(self)@ == spec_margin_checked(old(self)@, index as int),
            !spec_margin_call(final(self)@),
    {
        proof {
            lemma_inv_counts(old(self)@);
            lemma_mul_le(old(self)@.trades.len() as int, LEDGER_CAP as int, PNL_ABS_LIMIT as int);
        }
        let called: bool = if self.margin_num != self.margin_den && self.cash > 0 {
            let expo = self.current_exposure();
            proof {
                lemma_mul_abs_bound(
                    sum_exposure(self@.trades),
                    self@.margin_num,
                    LEDGER_CAP as int * PNL_ABS_LIMIT as int,
                    MARGIN_DEN_LIMIT as int,
                );
                lemma_mul_abs_bound(
                    sum_exposure(self@.trades) * self@.margin_num,
                    USAGE_SCALE as int,
                    LEDGER_CAP as int * PNL_ABS_LIMIT as int * MARGIN_DEN_LIMIT as int,
                    USAGE_SCALE as int,
                );
                lemma_mul_abs_bound(
                    self@.cash,
                    self@.margin_den,
                    CASH_ABS_LIMIT as int,
                    MARGIN_DEN_LIMIT as int,
                );
                lemma_mul_abs_bound(self@.margin_call_bp, self@.cash, USAGE_SCALE as int, CASH_ABS_LIMIT as int);
                lemma_mul_abs_bound(
                    self@.margin_call_bp * self@.cash,
                    self@.margin_den,
                    USAGE_SCALE as int * CASH_ABS_LIMIT as int,
                    MARGIN_DEN_LIMIT as int,
                );
            }
            expo * (self.margin_num as i128) * (USAGE_SCALE as i128) > ((self.margin_call_bp
                as i128) * self.cash) * (self.margin_den as i128)
        } else {
            false
        };
        if called {
            self.close_all_trades(index, index);
            self.update_margin_usage();
            proof {
                assert(final(self)@.trades =~= Seq::<Trade>::empty());
                assert(sum_exposure(final(self)@.trades) == 0);
                assert(!spec_margin_call(final(self)@)) by {
                    if final(self)@.margin_num != final(self)@.margin_den && final(self)@.cash > 0 {
                        assert(sum_exposure(final(self)@.trades) * final(self)@.margin_num
                            * USAGE_SCALE as int == 0) by (nonlinear_arith)
                            requires
                                sum_exposure(final(self)@.trades) == 0,
                        ;
                        assert(final(self)@.margin_call_bp * final(self)@.cash
                            * final(self)@.margin_den >= 0) by (nonlinear_arith)
                            requires
                                final(self)@.margin_call_bp >= 0,
                                final(self)@.cash > 0,
                                final(self)@.margin_den >= 1,
                        ;
                    }
                }
            }
        }
    }

    /// One full tick: raise the concurrent-trade high-water mark, match
    /// orders, recompute equity, check for a margin call, check for ruin,
    /// and record the margin usage.  Afterwards the margin usage is within
    /// the threshold, and a non-positive equity on this tick means the
    /// account is ruined: cash is zero and the equity curve is zero from
    /// this tick to the end, for good.
    pub fn next(&mut self, index: usize)
        requires
            old(self).wf(),
            index < old(self)@.data.date@.len(),
            old(self)@.next_id + old(self)@.orders.len() <= u64::MAX as int,
        ensures
            final(self).wf(),
            final(self)@ == spec_next(old(self)@, index as int),
            !spec_margin_call(final(self)@),
            final(self)@.equity[index as int] <= 0 ==> final(self)@.ruined && final(self)@.cash
                == 0 && forall|j: int|
                index <= j < final(self)@.equity.len() ==> final(self)@.equity[j] == 0,
            old(self)@.ruined ==> final(self)@.ruined,
            old(self)@.next_id <= final(self)@.next_id <= old(self)@.next_id
                + old(self)@.orders.len(),
            final(self)@.data == old(self)@.data,
            final(self)@.base_equity == old(self)@.base_equity,
            final(self)@.usage_history.len() >= old(self)@.usage_history.len() + 1,
            final(self)@.closed.len() >= old(self)@.closed.len(),
    {
        if self.trades.len() > self.max_concurrent_trades {
            self.max_concurrent_trades = self.trades.len();
        }
        proof {
            assert(self@ =~= (BrokerView {
                max_concurrent: if old(self)@.trades.len() as int > old(self)@.max_concurrent {
                    old(self)@.trades.len() as int
                } else {
                    old(self)@.max_concurrent
                },
                ..old(self)@
            }));
        }
        self.process_orders(index);
        self.update_equity(index);
        self.check_margin_call(index);
        if self.equity[index] <= 0 {
            self.close_all_trades(index, index);
            self.cash = 0;
            let ghost eq1 = self.equity@;
            let mut eqv: Vec<i128> = Vec::new();
            core::mem::swap(&mut self.equity, &mut eqv);
            let mut t: usize = index;
            while t < eqv.len()
                invariant
                    index <= t <= eqv@.len(),
                    eqv@.len() == eq1.len(),
                    forall|j: int| 0 <= j < index ==> eqv@[j] == eq1[j],
                    forall|j: int| index <= j < t ==> eqv@[j] == 0,
                    forall|j: int| t <= j < eqv@.len() ==> eqv@[j] == eq1[j],
                decreases eqv@.len() - t,
            {
                eqv.set(t, 0);
                t = t + 1;
            }
            self.equity = eqv;
            self.ruined = true;
            proof {
                let ze = spec_zero_from(eq1.map_values(|x: i128| x as int), index as int);
                assert(self@.equity.len() == ze.len());
                assert forall|j: int| 0 <= j < ze.len() implies self@.equity[j] == ze[j] by {
                    assert(self@.equity[j] == self.equity@[j] as int);
                    if j < index {
                        assert(self.equity@[j] == eq1[j]);
                    } else {
                        assert(self.equity@[j] == 0);
                    }
                }
                assert(self@.equity =~= ze);
                assert(forall|j: int|
                    0 <= j < self@.equity.len() ==> iabs(#[trigger] self@.equity[j])
                        <= EQUITY_ABS_LIMIT as int);
                assert(flat_zero(self@));
                assert(inv(self@));
            }
        }
        self.update_margin_usage();
        proof {
            assert(final(self)@ == spec_next(old(self)@, index as int));
        }
    }
}

// ---------------------------------------------------------------------------
// Strategies and the run driver.
// ---------------------------------------------------------------------------

/// A trading strategy: initialized once over the whole series, then invoked
/// once per tick to inspect the broker and submit or close orders.  A
/// strategy may only admit orders and close positions: it leaves the price
/// series and the trade-identifier counter alone, never erases telemetry
/// (the usage history and the closed-trade ledger only ever grow), and
/// hands the broker back well formed.
pub trait Strategy: Sized {
    fn init(&mut self, broker: &mut Broker)
        requires
            old(broker).wf(),
        ensures
            final(broker).wf(),
            final(broker)@.next_id == old(broker)@.next_id,
            final(broker)@.data == old(broker)@.data,
            final(broker)@.usage_history.len() >= old(broker)@.usage_history.len(),
            final(broker)@.closed.len() >= old(broker)@.closed.len(),
    ;

    fn next(&mut self, broker: &mut Broker, index: usize)
        requires
            old(broker).wf(),
            index < old(broker)@.data.date@.len(),
        ensures
            final(broker).wf(),
            final(broker)@.next_id == old(broker)@.next_id,
            final(broker)@.data == old(broker)@.data,
            final(broker)@.usage_history.len() >= old(broker)@.usage_history.len(),
            final(broker)@.closed.len() >= old(broker)@.closed.len(),
    ;
}

/// A whole simulation: a broker stepped over its series with a strategy.
pub struct Backtest<S: Strategy> {
    pub broker: Broker,
    pub strategy: S,
}

impl<S: Strategy> Backtest<S> {
    /// Builds the broker over the series and pairs it with the strategy.
    #[allow(clippy::too_many_arguments)]
    pub fn new(
        data: PriceSeries,
        strategy: S,
        cash: i128,
        commission: i64,
        bidask_spread: i64,
        margin_num: i64,
        margin_den: i64,
        margin_call_bp: i64,
        trade_on_close: bool,
        hedging: bool,
        exclusive_orders: bool,
        scaling_enabled: bool,
    ) -> (r: Self)
        requires
            series_wf(data),
            1 <= cash <= CASH_LIMIT,
            0 <= commission < COMMISSION_DEN,
            0 <= bidask_spread <= PRICE_LIMIT,
            1 <= margin_num <= MARGIN_DEN_LIMIT,
            1 <= margin_den <= MARGIN_DEN_LIMIT,
            0 <= margin_call_bp <= USAGE_SCALE,
        ensures
            r.broker.wf(),
            r.strategy == strategy,
            r.broker@ == (BrokerView {
                data: data,
                cash: cash as int,
                spread: bidask_spread as int,
                commission: commission as int,
                margin_num: margin_num as int,
                margin_den: margin_den as int,
                margin_call_bp: margin_call_bp as int,
                trade_on_close: trade_on_close,
                hedging: hedging,
                exclusive_orders: exclusive_orders,
                scaling: scaling_enabled,
                orders: Seq::empty(),
                trades: Seq::empty(),
                closed: Seq::empty(),
                equity: Seq::new(data.date@.len(), |j: int| cash as int),
                max_usage: 0,
                base_equity: cash as int,
                usage_history: seq![0],
                ruined: false,
                next_id: 0,
                max_concurrent: 0,
            }),
    {
        let broker = Broker::new(
            data,
            cash,
            commission,
            bidask_spread,
            margin_num,
            margin_den,
            margin_call_bp,
            trade_on_close,
            hedging,
            exclusive_orders,
            scaling_enabled,
        );
        Backtest { broker, strategy }
    }

    /// Runs the simulation over every tick in order: the broker is stepped
    /// first, then the strategy is consulted, exactly once per tick.  Every
    /// tick's epilogue records the margin usage, so the run demonstrably
    /// visited every tick: the usage history grows by at least one entry
    /// per tick of the series (and the closed-trade ledger never shrinks).
    pub fn run(&mut self)
        requires
            old(self).broker.wf(),
            old(self).broker@.next_id == 0,
            old(self).broker@.data.date@.len() <= 1_000_000_000,
        ensures
            final(self).broker.wf(),
            final(self).broker@.data == old(self).broker@.data,
            final(self).broker@.usage_history.len() >= old(self).broker@.usage_history.len()
                + old(self).broker@.data.date@.len(),
            final(self).broker@.closed.len() >= old(self).broker@.closed.len(),
    {
        self.strategy.init(&mut self.broker);
        let n = self.broker.data.date.len();
        let mut i: usize = 0;
        while i < n
            invariant
                self.broker.wf(),
                self.broker@.data == old(self).broker@.data,
                n == self.broker@.data.date@.len(),
                n <= 1_000_000_000,
                0 <= i <= n,
                self.broker@.next_id <= (i as int) * (LEDGER_CAP as int),
                self.broker@.usage_history.len() >= old(self).broker@.usage_history.len() + i,
                self.broker@.closed.len() >= old(self).broker@.closed.len(),
            decreases n - i,
        {
            proof {
                lemma_inv_counts(self.broker@);
                lemma_sum_weight_bounds(self.broker@.orders);
                assert((i as int) * (LEDGER_CAP as int) <= 1_000_000_000int * (LEDGER_CAP as int))
                    by (nonlinear_arith)
                    requires
                        0 <= i as int <= 1_000_000_000int,
                ;
                assert((i as int + 1) * (LEDGER_CAP as int) == (i as int) * (LEDGER_CAP as int)
                    + LEDGER_CAP as int) by (nonlinear_arith);
            }
            self.broker.next(i);
            self.strategy.next(&mut self.broker, i);
            i = i + 1;
        }
    }
}

/// `a <= b` and `0 <= c` give `a * c <= b * c`.
pub proof fn lemma_mul_le(a: int, b: int, c: int)
    requires
        a <= b,
        0 <= c,
    ensures
        a * c <= b * c,
{
    assert(a * c <= b * c) by (nonlinear_arith)
        requires
            a <= b,
            0 <= c,
    ;
}

} // verus!
