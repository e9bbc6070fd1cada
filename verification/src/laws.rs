//! The engine's general laws, stated over the broker's step functions and
//! proved once and for all.  Each law's inputs are universally quantified:
//! these are theorems about every reachable broker state, not about chosen
//! examples.

use vstd::prelude::*;
use crate::engine::{
    BrokerView, Order, Trade, PriceSeries, inv, flat_zero, spec_pnl, spec_next, spec_process,
    spec_exec_one, spec_exec_seq, spec_equity_updated, spec_margin_checked, spec_ruin_checked,
    spec_usage_recorded, spec_margin_call, spec_liquidated, spec_remaining, spec_executables,
    spec_after_check, spec_order_fills, spec_find_trade, sum_pnl, sum_unrealized, count_side,
    lemma_find_trade, TRADE_LIMIT,
};

verus! {

/// Cash conservation: while the account is not ruined, the broker's cash is
/// exactly the initial cash plus the realized profit of every closed trade.
pub proof fn lemma_cash_conservation(v: BrokerView)
    requires
        inv(v),
        !v.ruined,
    ensures
        v.cash == v.base_equity + sum_pnl(v.closed),
{
}

/// The profit of a long and a short opened at one price and closed at one
/// price are exact opposites when their sizes are opposite.
pub proof fn lemma_pnl_sign_symmetry(long: Trade, short: Trade)
    requires
        long.size as int == -(short.size as int),
        long.entry_price == short.entry_price,
        long.exit_price == short.exit_price,
    ensures
        spec_pnl(long) == -spec_pnl(short),
{
    match long.exit_price {
        Some(x) => {
            assert((long.size as int) * (x as int - long.entry_price as int) == -((
            short.size as int) * (x as int - short.entry_price as int))) by (nonlinear_arith)
                requires
                    long.size as int == -(short.size as int),
                    long.entry_price == short.entry_price,
            ;
        },
        None => {},
    }
}

/// Executing orders never touches the configuration, the equity curve, the
/// usage telemetry or the ruin flag.
pub proof fn lemma_exec_seq_frame(v: BrokerView, os: Seq<Order>, i: int)
    ensures
        ({
            let w = spec_exec_seq(v, os, i);
            &&& w.data == v.data
            &&& w.spread == v.spread
            &&& w.commission == v.commission
            &&& w.margin_num == v.margin_num
            &&& w.margin_den == v.margin_den
            &&& w.margin_call_bp == v.margin_call_bp
            &&& w.trade_on_close == v.trade_on_close
            &&& w.hedging == v.hedging
            &&& w.exclusive_orders == v.exclusive_orders
            &&& w.scaling == v.scaling
            &&& w.equity == v.equity
            &&& w.usage_history == v.usage_history
            &&& w.max_usage == v.max_usage
            &&& w.max_concurrent == v.max_concurrent
            &&& w.ruined == v.ruined
            &&& w.base_equity == v.base_equity
        }),
    decreases os.len(),
{
    if os.len() > 0 {
        lemma_exec_seq_frame(spec_exec_one(v, os[0], i), os.drop_first(), i);
    }
}

/// Margin cap: immediately after a full tick the margin usage is within the
/// liquidation threshold — the margin call either never fired or flattened
/// the book.
pub proof fn lemma_margin_cap(v: BrokerView, i: int)
    requires
        v.margin_call_bp >= 0,
        v.margin_den >= 1,
        v.margin_num >= 1,
    ensures
        !spec_margin_call(spec_next(v, i)),
{
    let c = v.trades.len() as int;
    let v0 = BrokerView {
        max_concurrent: if c > v.max_concurrent {
            c
        } else {
            v.max_concurrent
        },
        ..v
    };
    let u0 = spec_process(v0, i);
    lemma_exec_seq_frame(
        BrokerView { orders: spec_remaining(v0.data, v0.orders, i), ..v0 },
        spec_executables(v0.data, v0.orders, i),
        i,
    );
    let u1 = spec_equity_updated(u0, i);
    let u2 = spec_margin_checked(u1, i);
    assert(!spec_margin_call(u2)) by {
        if spec_margin_call(u1) {
            let l = spec_usage_recorded(spec_liquidated(u1, i, i));
            assert(l.trades =~= Seq::<Trade>::empty());
            if l.margin_num != l.margin_den && l.cash > 0 {
                assert(crate::engine::sum_exposure(l.trades) == 0);
                assert(0int * l.margin_num * (crate::fixed::USAGE_SCALE as int) == 0)
                    by (nonlinear_arith);
                assert(l.margin_call_bp * l.cash * l.margin_den >= 0) by (nonlinear_arith)
                    requires
                        l.margin_call_bp >= 0,
                        l.cash > 0,
                        l.margin_den >= 1,
                ;
            }
        }
    }
    let u3 = spec_ruin_checked(u2, i);
    assert(!spec_margin_call(u3)) by {
        if u2.equity[i] <= 0 {
            assert(u3.cash == 0);
        }
    }
    assert(spec_next(v, i) == spec_usage_recorded(u3));
}

/// A flat book stays flat through a tick's executions, and its cash stays
/// where it was.
pub proof fn lemma_exec_seq_keeps_flat(v: BrokerView, os: Seq<Order>, i: int)
    requires
        flat_zero(v),
        forall|x: int| 0 <= x < os.len() ==> #[trigger] os[x].size == 0,
    ensures
        flat_zero(spec_exec_seq(v, os, i)),
        spec_exec_seq(v, os, i).cash == v.cash,
    decreases os.len(),
{
    if os.len() > 0 {
        let o = os[0];
        let w = spec_exec_one(v, o, i);
        assert(os[0].size == 0);
        match o.parent_trade {
            Some(pid) => {
                lemma_find_trade(v.trades, pid);
                let j = spec_find_trade(v.trades, pid);
                if j >= 0 {
                    let t = v.trades[j];
                    assert(t.size == 0);
                    let ct = crate::engine::spec_close_trade(
                        t,
                        crate::engine::spec_adjust(
                            v.commission,
                            v.spread,
                            o.size as int,
                            crate::engine::spec_exec_price(v.data, v.trade_on_close, o, i),
                        ),
                        i,
                    );
                    assert((ct.size as int) * (ct.exit_price->0 as int - ct.entry_price as int)
                        == 0) by (nonlinear_arith)
                        requires
                            ct.size as int == 0,
                    ;
                    v.trades.remove_ensures(j);
                    assert(forall|x: int|
                        0 <= x < w.trades.len() ==> #[trigger] w.trades[x].size == 0);
                }
            },
            None => {},
        }
        assert(flat_zero(w));
        assert(w.cash == v.cash);
        assert(forall|x: int|
            0 <= x < os.drop_first().len() ==> #[trigger] os.drop_first()[x].size == 0);
        lemma_exec_seq_keeps_flat(w, os.drop_first(), i);
    }
}

/// The matching pass of a flat queue hands out only flat orders.
pub proof fn lemma_split_keeps_flat(d: PriceSeries, s: Seq<Order>, i: int)
    requires
        forall|x: int| 0 <= x < s.len() ==> #[trigger] s[x].size == 0,
    ensures
        forall|x: int|
            0 <= x < spec_executables(d, s, i).len() ==> #[trigger] spec_executables(d, s, i)[x].size
                == 0,
        forall|x: int|
            0 <= x < spec_remaining(d, s, i).len() ==> #[trigger] spec_remaining(d, s, i)[x].size
                == 0,
    decreases s.len(),
{
    if s.len() > 0 {
        lemma_split_keeps_flat(d, s.drop_last(), i);
        assert(s[s.len() - 1].size == 0);
    }
}

/// Marking a flat book to market yields no unrealized profit.
pub proof fn lemma_sum_unrealized_flat(d: PriceSeries, s: Seq<Trade>, i: int)
    requires
        forall|x: int| 0 <= x < s.len() ==> #[trigger] s[x].size == 0,
    ensures
        sum_unrealized(d, s, i) == 0,
    decreases s.len(),
{
    if s.len() > 0 {
        lemma_sum_unrealized_flat(d, s.drop_last(), i);
        let t = s.last();
        assert(s[s.len() - 1].size == 0);
        assert((t.size as int) * (crate::engine::spec_mark(d, t, i) - t.entry_price as int) == 0)
            by (nonlinear_arith)
            requires
                t.size as int == 0,
        ;
    }
}

/// Ruin is terminal: once the account is ruined, every further tick leaves
/// it ruined, with zero cash and a zero equity curve from that tick on.
pub proof fn lemma_ruin_is_terminal(v: BrokerView, i: int)
    requires
        inv(v),
        v.ruined,
        0 <= i < v.equity.len(),
    ensures
        ({
            let w = spec_next(v, i);
            &&& w.ruined
            &&& w.cash == 0
            &&& w.equity.len() == v.equity.len()
            &&& forall|j: int| i <= j < w.equity.len() ==> w.equity[j] == 0
        }),
{
    let c = v.trades.len() as int;
    let v0 = BrokerView {
        max_concurrent: if c > v.max_concurrent {
            c
        } else {
            v.max_concurrent
        },
        ..v
    };
    let st0 = BrokerView { orders: spec_remaining(v0.data, v0.orders, i), ..v0 };
    let ex = spec_executables(v0.data, v0.orders, i);
    lemma_split_keeps_flat(v0.data, v0.orders, i);
    lemma_exec_seq_keeps_flat(st0, ex, i);
    lemma_exec_seq_frame(st0, ex, i);
    let u0 = spec_process(v0, i);
    assert(u0.cash == 0);
    assert(flat_zero(u0));
    lemma_sum_unrealized_flat(u0.data, u0.trades, i);
    let u1 = spec_equity_updated(u0, i);
    assert(u1.equity[i] == 0);
    let u2 = spec_margin_checked(u1, i);
    assert(u2 == u1);
    let u3 = spec_ruin_checked(u2, i);
    assert(u3.ruined && u3.cash == 0);
    assert(forall|j: int| i <= j < u3.equity.len() ==> u3.equity[j] == 0);
    assert(spec_next(v, i) == spec_usage_recorded(u3));
}

/// Count of one side's entries among pending orders.
pub open spec fn count_entries(s: Seq<Order>, long: bool) -> int
    decreases s.len(),
{
    if s.len() == 0 {
        0
    } else {
        count_entries(s.drop_last(), long) + if s.last().parent_trade is None && long == (
        s.last().size > 0) && s.last().size != 0 {
            1int
        } else {
            0int
        }
    }
}

/// Removing a trade cannot raise a side's open count.
pub proof fn lemma_count_side_remove(s: Seq<Trade>, long: bool, j: int)
    requires
        0 <= j < s.len(),
    ensures
        count_side(s.remove(j), long) <= count_side(s, long),
    decreases s.len(),
{
    if j == s.len() - 1 {
        assert(s.remove(j) =~= s.drop_last());
    } else {
        assert(s.remove(j).drop_last() =~= s.drop_last().remove(j));
        assert(s.remove(j).last() == s.last());
        lemma_count_side_remove(s.drop_last(), long, j);
    }
}

/// One execution raises a side's open count by at most that order's entry
/// flag.
pub proof fn lemma_exec_one_count(v: BrokerView, o: Order, i: int, long: bool)
    ensures
        count_side(spec_exec_one(v, o, i).trades, long) <= count_side(v.trades, long) + if o.parent_trade is None
            && long == (o.size > 0) && o.size != 0 {
            1int
        } else {
            0int
        },
{
    match o.parent_trade {
        Some(pid) => {
            lemma_find_trade(v.trades, pid);
            let j = spec_find_trade(v.trades, pid);
            if j >= 0 {
                lemma_count_side_remove(v.trades, long, j);
            }
        },
        None => {
            let w = spec_exec_one(v, o, i);
            assert(w.trades.drop_last() =~= v.trades);
        },
    }
}

/// Executing a run of orders raises a side's open count by at most the
/// entries it contains.
pub proof fn lemma_exec_seq_count(v: BrokerView, os: Seq<Order>, i: int, long: bool)
    ensures
        count_side(spec_exec_seq(v, os, i).trades, long) <= count_side(v.trades, long)
            + count_entries(os, long),
    decreases os.len(),
{
    if os.len() > 0 {
        lemma_exec_one_count(v, os[0], i, long);
        lemma_exec_seq_count(spec_exec_one(v, os[0], i), os.drop_first(), i, long);
        lemma_count_entries_drop_first(os, long);
    }
}

/// Entry counting decomposes at the front.
pub proof fn lemma_count_entries_drop_first(s: Seq<Order>, long: bool)
    requires
        s.len() > 0,
    ensures
        count_entries(s, long) == count_entries(s.drop_first(), long) + if s[0].parent_trade is None
            && long == (s[0].size > 0) && s[0].size != 0 {
            1int
        } else {
            0int
        },
    decreases s.len(),
{
    if s.len() == 1 {
        assert(s.drop_first() =~= Seq::<Order>::empty());
        assert(s.drop_last() =~= Seq::<Order>::empty());
        assert(s.last() == s[0]);
    } else {
        lemma_count_entries_drop_first(s.drop_last(), long);
        assert(s.drop_first().drop_last() =~= s.drop_last().drop_first());
        assert(s.drop_first().last() == s.last());
        assert(s.drop_last()[0] == s[0]);
    }
}

/// A checked order keeps its size and contingency, so the executables of a
/// queue hold no more entries than the queue.
pub proof fn lemma_executables_entries(d: PriceSeries, s: Seq<Order>, i: int, long: bool)
    ensures
        count_entries(spec_executables(d, s, i), long) <= count_entries(s, long),
    decreases s.len(),
{
    if s.len() > 0 {
        lemma_executables_entries(d, s.drop_last(), i, long);
        let o = s.last();
        let oc = spec_after_check(d, o, i);
        assert(oc.size == o.size && oc.parent_trade == o.parent_trade);
        if spec_order_fills(d, o, i) {
            let prev = spec_executables(d, s.drop_last(), i);
            assert(prev.push(oc).drop_last() =~= prev);
            assert(prev.push(oc).last() == oc);
        }
        assert(count_entries(spec_executables(d, s, i), long) >= 0 ==> true);
    }
}

/// Entry counts are never negative.
pub proof fn lemma_count_entries_nonneg(s: Seq<Order>, long: bool)
    ensures
        count_entries(s, long) >= 0,
    decreases s.len(),
{
    if s.len() > 0 {
        lemma_count_entries_nonneg(s.drop_last(), long);
    }
}

/// Trade-limit invariant: a tick whose open trades and pending entries on
/// one side together fit under the cap cannot leave that side over the cap.
/// (Admission already refuses an entry when the side's open count is at the
/// cap; this law covers the executions of a whole tick.)
pub proof fn lemma_trade_limit_preserved(v: BrokerView, i: int, long: bool)
    requires
        count_side(v.trades, long) + count_entries(v.orders, long) <= TRADE_LIMIT as int,
    ensures
        count_side(spec_process(v, i).trades, long) <= TRADE_LIMIT as int,
{
    let st0 = BrokerView { orders: spec_remaining(v.data, v.orders, i), ..v };
    let ex = spec_executables(v.data, v.orders, i);
    lemma_exec_seq_count(st0, ex, i, long);
    lemma_executables_entries(v.data, v.orders, i, long);
    lemma_count_entries_nonneg(v.orders, long);
}

/// The same invariant through a whole tick: the epilogue only ever closes
/// trades (a margin call or ruin flattens the book entirely), so a side
/// that fits under the cap going in still fits coming out.
pub proof fn lemma_trade_limit_through_tick(v: BrokerView, i: int, long: bool)
    requires
        count_side(v.trades, long) + count_entries(v.orders, long) <= TRADE_LIMIT as int,
    ensures
        count_side(spec_next(v, i).trades, long) <= TRADE_LIMIT as int,
{
    let c = v.trades.len() as int;
    let v0 = BrokerView {
        max_concurrent: if c > v.max_concurrent {
            c
        } else {
            v.max_concurrent
        },
        ..v
    };
    lemma_trade_limit_preserved(v0, i, long);
    let u0 = spec_process(v0, i);
    let u1 = spec_equity_updated(u0, i);
    let u2 = spec_margin_checked(u1, i);
    assert(count_side(Seq::<Trade>::empty(), long) == 0);
    assert(count_side(u2.trades, long) <= TRADE_LIMIT as int) by {
        if spec_margin_call(u1) {
            assert(u2.trades =~= Seq::<Trade>::empty());
        }
    }
    let u3 = spec_ruin_checked(u2, i);
    assert(count_side(u3.trades, long) <= TRADE_LIMIT as int) by {
        if u2.equity[i] <= 0 {
            assert(u3.trades =~= Seq::<Trade>::empty());
        }
    }
    assert(spec_next(v, i) == spec_usage_recorded(u3));
}

} // verus!
