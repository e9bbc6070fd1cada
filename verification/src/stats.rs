//! Performance statistics derived from a finished run: the closed-trade
//! ledger, the equity curve and the price series.
//!
//! Every figure is an exact integer.  Fractions (returns, drawdown, win
//! rate, exposure) are reported in parts per million with division rounding
//! toward zero; per-trade money figures are in cash units.  Figures that
//! need a real-valued exponent (annualization of the return, and the ratios
//! built on it) are left to the caller, who has the raw series to hand.

use vstd::prelude::*;
use crate::engine::{Trade, PriceSeries, closed_wf, series_wf, spec_pnl};
use crate::fixed::{
    RATIO_SCALE, EQUITY_ABS_LIMIT, PNL_ABS_LIMIT, LEDGER_CAP, iabs, div_trunc, div_trunc_i128,
    lemma_mul_abs_bound,
};

verus! {

/// Per-tick fractional returns are clamped to this many parts per million
/// so that their squares stay summable.
pub const RETURN_CLAMP_PPM: i128 = 1_000_000_000;

/// Epoch seconds parsed from a timestamp of the fixed form
/// `%Y-%m-%d %H:%M:%S`, when it parses.
pub uninterp spec fn parse_epoch_seconds(s: Seq<char>) -> Option<i64>;

/// Relies on chrono's `NaiveDateTime::parse_from_str` with the fixed format
/// `"%Y-%m-%d %H:%M:%S"`, then `DateTime::timestamp`: the parsed epoch
/// second count depends on the characters of `s` alone.
#[verifier::external_body]
fn timestamp_seconds(s: &String) -> (r: Option<i64>)
    ensures
        r == parse_epoch_seconds(s@),
{
    match chrono::NaiveDateTime::parse_from_str(s.as_str(), "%Y-%m-%d %H:%M:%S") {
        Ok(dt) => Some(dt.and_utc().timestamp()),
        Err(_) => None,
    }
}

// ---------------------------------------------------------------------------
// Trade statistics.
// ---------------------------------------------------------------------------

pub open spec fn count_wins(s: Seq<Trade>) -> int
    decreases s.len(),
{
    if s.len() == 0 {
        0
    } else {
        count_wins(s.drop_last()) + if spec_pnl(s.last()) > 0 {
            1int
        } else {
            0int
        }
    }
}

pub open spec fn count_losses(s: Seq<Trade>) -> int
    decreases s.len(),
{
    if s.len() == 0 {
        0
    } else {
        count_losses(s.drop_last()) + if spec_pnl(s.last()) < 0 {
            1int
        } else {
            0int
        }
    }
}

pub open spec fn sum_win_pnl(s: Seq<Trade>) -> int
    decreases s.len(),
{
    if s.len() == 0 {
        0
    } else {
        sum_win_pnl(s.drop_last()) + if spec_pnl(s.last()) > 0 {
            spec_pnl(s.last())
        } else {
            0
        }
    }
}

pub open spec fn sum_loss_pnl(s: Seq<Trade>) -> int
    decreases s.len(),
{
    if s.len() == 0 {
        0
    } else {
        sum_loss_pnl(s.drop_last()) + if spec_pnl(s.last()) < 0 {
            spec_pnl(s.last())
        } else {
            0
        }
    }
}

/// Largest realized profit, zero when there are no trades.
pub open spec fn best_pnl(s: Seq<Trade>) -> int
    decreases s.len(),
{
    if s.len() == 0 {
        0
    } else {
        let rest = best_pnl(s.drop_last());
        if s.len() == 1 {
            spec_pnl(s.last())
        } else if spec_pnl(s.last()) > rest {
            spec_pnl(s.last())
        } else {
            rest
        }
    }
}

/// Smallest realized profit, zero when there are no trades.
pub open spec fn worst_pnl(s: Seq<Trade>) -> int
    decreases s.len(),
{
    if s.len() == 0 {
        0
    } else {
        let rest = worst_pnl(s.drop_last());
        if s.len() == 1 {
            spec_pnl(s.last())
        } else if spec_pnl(s.last()) < rest {
            spec_pnl(s.last())
        } else {
            rest
        }
    }
}

// ---------------------------------------------------------------------------
// Exposure time.
// ---------------------------------------------------------------------------

/// Whether trade `t` occupies tick `k` (an open trade occupies every tick
/// to the end of the run).
pub open spec fn spec_covers(t: Trade, k: int, total: int) -> bool {
    t.entry_index <= k <= match t.exit_index {
        Some(e) => e as int,
        None => total - 1,
    }
}

/// Whether any trade occupies tick `k`.
pub open spec fn spec_occupied(s: Seq<Trade>, k: int, total: int) -> bool {
    exists|i: int| 0 <= i < s.len() && spec_covers(#[trigger] s[i], k, total)
}

/// Number of occupied ticks among the first `n`.
pub open spec fn count_occupied(s: Seq<Trade>, n: int, total: int) -> int
    decreases n,
{
    if n <= 0 {
        0
    } else {
        count_occupied(s, n - 1, total) + if spec_occupied(s, n - 1, total) {
            1int
        } else {
            0int
        }
    }
}

// ---------------------------------------------------------------------------
// Drawdown.
// ---------------------------------------------------------------------------

/// Running peak and worst drawdown (parts per million, rounded toward
/// zero) over an equity prefix.  A new high raises the peak; below the
/// peak, the drawdown `(value - peak) / peak` is taken while the peak is
/// positive.
pub open spec fn spec_drawdown(s: Seq<int>) -> (int, int)
    decreases s.len(),
{
    if s.len() == 0 {
        (0, 0)
    } else if s.len() == 1 {
        (s[0], 0)
    } else {
        let pd = spec_drawdown(s.drop_last());
        let v = s.last();
        if v > pd.0 {
            (v, pd.1)
        } else if pd.0 >= 1 {
            let d = div_trunc((v - pd.0) * RATIO_SCALE as int, pd.0);
            (pd.0, if d < pd.1 { d } else { pd.1 })
        } else {
            pd
        }
    }
}

pub proof fn lemma_drawdown_take_step(s: Seq<int>, k: int)
    requires
        1 <= k < s.len(),
    ensures
        spec_drawdown(s.take(k + 1)) == ({
            let pd = spec_drawdown(s.take(k));
            let v = s[k];
            if v > pd.0 {
                (v, pd.1)
            } else if pd.0 >= 1 {
                let d = div_trunc((v - pd.0) * RATIO_SCALE as int, pd.0);
                (pd.0, if d < pd.1 { d } else { pd.1 })
            } else {
                pd
            }
        }),
{
    assert(s.take(k + 1).drop_last() =~= s.take(k));
    assert(s.take(k + 1).last() == s[k]);
}

/// Worst drawdown of an equity curve, in parts per million (a loss is
/// negative), rounded toward zero.
pub fn max_drawdown(equity: &Vec<i128>) -> (r: i128)
    requires
        equity@.len() >= 1,
        forall|i: int|
            0 <= i < equity@.len() ==> iabs(#[trigger] equity@[i] as int) <= EQUITY_ABS_LIMIT as int,
    ensures
        r == spec_drawdown(equity@.map_values(|x: i128| x as int)).1,
{
    let ghost sv = equity@.map_values(|x: i128| x as int);
    let mut peak: i128 = equity[0];
    let mut dd: i128 = 0;
    let mut k: usize = 1;
    proof {
        assert(sv.take(1) =~= seq![sv[0]]);
        assert(spec_drawdown(sv.take(1)) == (sv[0], 0int));
    }
    while k < equity.len()
        invariant
            1 <= k <= equity@.len(),
            sv == equity@.map_values(|x: i128| x as int),
            forall|i: int|
                0 <= i < equity@.len() ==> iabs(#[trigger] equity@[i] as int)
                    <= EQUITY_ABS_LIMIT as int,
            (peak as int, dd as int) == spec_drawdown(sv.take(k as int)),
            iabs(peak as int) <= EQUITY_ABS_LIMIT as int,
            iabs(dd as int) <= 2 * EQUITY_ABS_LIMIT as int * RATIO_SCALE as int,
        decreases equity@.len() - k,
    {
        proof {
            lemma_drawdown_take_step(sv, k as int);
            assert(sv[k as int] == equity@[k as int] as int);
        }
        let v = equity[k];
        if v > peak {
            peak = v;
        } else if peak >= 1 {
            proof {
                lemma_mul_abs_bound(
                    v as int - peak as int,
                    RATIO_SCALE as int,
                    2 * EQUITY_ABS_LIMIT as int,
                    RATIO_SCALE as int,
                );
            }
            let d = div_trunc_i128((v - peak) * RATIO_SCALE, peak);
            if d < dd {
                dd = d;
            }
        }
        k = k + 1;
    }
    proof {
        assert(sv.take(sv.len() as int) =~= sv);
    }
    dd
}

// ---------------------------------------------------------------------------
// Generic integer-sequence sums (used for the return series).
// ---------------------------------------------------------------------------

pub open spec fn sum_ints(s: Seq<int>) -> int
    decreases s.len(),
{
    if s.len() == 0 {
        0
    } else {
        sum_ints(s.drop_last()) + s.last()
    }
}

pub open spec fn sum_sq_dev(s: Seq<int>, mean: int) -> int
    decreases s.len(),
{
    if s.len() == 0 {
        0
    } else {
        sum_sq_dev(s.drop_last(), mean) + (s.last() - mean) * (s.last() - mean)
    }
}

/// Sum of cross products of deviations, over the common prefix length.
pub open spec fn sum_cross_dev(a: Seq<int>, b: Seq<int>, ma: int, mb: int) -> int
    decreases a.len(),
{
    if a.len() == 0 || b.len() < a.len() {
        0
    } else {
        sum_cross_dev(a.drop_last(), b.drop_last(), ma, mb) + (a.last() - ma) * (b[a.len() - 1]
            - mb)
    }
}

/// A sum of squares is never negative.
pub proof fn lemma_sum_sq_dev_nonneg(s: Seq<int>, mean: int)
    ensures
        sum_sq_dev(s, mean) >= 0,
    decreases s.len(),
{
    if s.len() > 0 {
        lemma_sum_sq_dev_nonneg(s.drop_last(), mean);
        assert((s.last() - mean) * (s.last() - mean) >= 0) by (nonlinear_arith);
    }
}

/// One clamped per-tick fractional return in parts per million.
pub open spec fn spec_ret_ppm(prev: int, cur: int) -> int {
    if prev >= 1 {
        let d = div_trunc((cur - prev) * RATIO_SCALE as int, prev);
        if d > RETURN_CLAMP_PPM as int {
            RETURN_CLAMP_PPM as int
        } else if d < -(RETURN_CLAMP_PPM as int) {
            -(RETURN_CLAMP_PPM as int)
        } else {
            d
        }
    } else {
        0
    }
}

/// The per-tick return series of a value sequence.
pub open spec fn spec_returns(s: Seq<int>) -> Seq<int> {
    Seq::new((s.len() - 1) as nat, |i: int| spec_ret_ppm(s[i], s[i + 1]))
}

/// Mean of an integer sequence, rounded toward zero.
pub open spec fn spec_mean(s: Seq<int>) -> int {
    if s.len() == 0 {
        0
    } else {
        div_trunc(sum_ints(s), s.len() as int)
    }
}

/// Beta of the equity curve against the benchmark, in thousandths: the
/// cross deviation sum of the two clamped per-tick return series over the
/// benchmark's squared deviation sum, rounded toward zero; zero for a
/// degenerate series.
pub open spec fn spec_beta_milli(eq: Seq<int>, mk: Seq<int>) -> int {
    if eq.len() < 2 || mk.len() != eq.len() {
        0
    } else {
        let er = spec_returns(eq);
        let mr = spec_returns(mk);
        let var = sum_sq_dev(mr, spec_mean(mr));
        let cov = sum_cross_dev(er, mr, spec_mean(er), spec_mean(mr));
        if var != 0 {
            div_trunc(cov * 1000, var)
        } else {
            0
        }
    }
}

/// Whether every timestamp of the series parses.
pub open spec fn spec_dates_valid(ds: Seq<String>) -> bool {
    forall|i: int| 0 <= i < ds.len() ==> parse_epoch_seconds(#[trigger] ds[i]@) is Some
}

/// Sum of the second deltas between consecutive timestamps.
pub open spec fn spec_total_seconds(ds: Seq<String>) -> int
    decreases ds.len(),
{
    if ds.len() <= 1 {
        0
    } else {
        spec_total_seconds(ds.drop_last()) + (parse_epoch_seconds(ds.last()@)->0 as int
            - parse_epoch_seconds(ds[ds.len() - 2]@)->0 as int)
    }
}

/// Calendar days between the first and last timestamp, rounded toward
/// zero; nothing when either end does not parse.
pub open spec fn spec_duration_days(ds: Seq<String>) -> Option<i64> {
    if ds.len() >= 1 && parse_epoch_seconds(ds[0]@) is Some && parse_epoch_seconds(
        ds[ds.len() - 1]@,
    ) is Some {
        Some(
            div_trunc(
                parse_epoch_seconds(ds[ds.len() - 1]@)->0 as int - parse_epoch_seconds(ds[0]@)->0 as int,
                86400,
            ) as i64,
        )
    } else {
        None
    }
}

/// The radicand of the annualized volatility, when it is defined: the
/// sample variance of the clamped per-tick returns (denominator `n - 1`
/// over the `n` returns) times the seconds in a year over the average
/// observation delta, every division rounded toward zero.  `None` when a
/// timestamp does not parse or the average delta is not positive;
/// a curve of fewer than three points has zero volatility.
pub open spec fn spec_vol_radicand(eq: Seq<int>, ds: Seq<String>) -> Option<int> {
    if !spec_dates_valid(ds) || ds.len() != eq.len() {
        None
    } else if eq.len() < 3 {
        Some(0)
    } else {
        let total = spec_total_seconds(ds);
        if total < 1 {
            None
        } else {
            let avg = div_trunc(total, eq.len() as int - 1);
            if avg < 1 {
                None
            } else {
                let rs = spec_returns(eq);
                let var = div_trunc(sum_sq_dev(rs, spec_mean(rs)), rs.len() as int - 1);
                Some(div_trunc(var * 31_536_000, avg))
            }
        }
    }
}

/// Fractional change from `a` to `b` in parts per million, rounded toward
/// zero; zero when the base is not positive.
pub open spec fn spec_change_ppm(a: int, b: int) -> int {
    if a >= 1 {
        div_trunc((b - a) * RATIO_SCALE as int, a)
    } else {
        0
    }
}

// ---------------------------------------------------------------------------
// Take-step lemmas for the recursive sums.
// ---------------------------------------------------------------------------

pub proof fn lemma_trade_stats_take_step(s: Seq<Trade>, k: int)
    requires
        0 <= k < s.len(),
    ensures
        count_wins(s.take(k + 1)) == count_wins(s.take(k)) + if spec_pnl(s[k]) > 0 {
            1int
        } else {
            0int
        },
        count_losses(s.take(k + 1)) == count_losses(s.take(k)) + if spec_pnl(s[k]) < 0 {
            1int
        } else {
            0int
        },
        sum_win_pnl(s.take(k + 1)) == sum_win_pnl(s.take(k)) + if spec_pnl(s[k]) > 0 {
            spec_pnl(s[k])
        } else {
            0
        },
        sum_loss_pnl(s.take(k + 1)) == sum_loss_pnl(s.take(k)) + if spec_pnl(s[k]) < 0 {
            spec_pnl(s[k])
        } else {
            0
        },
        best_pnl(s.take(k + 1)) == if k == 0 {
            spec_pnl(s[k])
        } else if spec_pnl(s[k]) > best_pnl(s.take(k)) {
            spec_pnl(s[k])
        } else {
            best_pnl(s.take(k))
        },
        worst_pnl(s.take(k + 1)) == if k == 0 {
            spec_pnl(s[k])
        } else if spec_pnl(s[k]) < worst_pnl(s.take(k)) {
            spec_pnl(s[k])
        } else {
            worst_pnl(s.take(k))
        },
{
    assert(s.take(k + 1).drop_last() =~= s.take(k));
    assert(s.take(k + 1).last() == s[k]);
}

pub proof fn lemma_sum_ints_take_step(s: Seq<int>, k: int)
    requires
        0 <= k < s.len(),
    ensures
        sum_ints(s.take(k + 1)) == sum_ints(s.take(k)) + s[k],
{
    assert(s.take(k + 1).drop_last() =~= s.take(k));
}

pub proof fn lemma_sum_sq_dev_take_step(s: Seq<int>, mean: int, k: int)
    requires
        0 <= k < s.len(),
    ensures
        sum_sq_dev(s.take(k + 1), mean) == sum_sq_dev(s.take(k), mean) + (s[k] - mean) * (s[k]
            - mean),
{
    assert(s.take(k + 1).drop_last() =~= s.take(k));
}

pub proof fn lemma_sum_cross_dev_take_step(a: Seq<int>, b: Seq<int>, ma: int, mb: int, k: int)
    requires
        0 <= k < a.len(),
        a.len() <= b.len(),
    ensures
        sum_cross_dev(a.take(k + 1), b.take(k + 1), ma, mb) == sum_cross_dev(
            a.take(k),
            b.take(k),
            ma,
            mb,
        ) + (a[k] - ma) * (b[k] - mb),
{
    assert(a.take(k + 1).drop_last() =~= a.take(k));
    assert(b.take(k + 1).drop_last() =~= b.take(k));
    assert(a.take(k + 1).last() == a[k]);
    assert(b.take(k + 1)[a.take(k + 1).len() - 1] == b[k]);
}

pub proof fn lemma_total_seconds_take_step(ds: Seq<String>, k: int)
    requires
        1 <= k < ds.len(),
    ensures
        spec_total_seconds(ds.take(k + 1)) == spec_total_seconds(ds.take(k)) + (parse_epoch_seconds(
            ds[k]@,
        )->0 as int - parse_epoch_seconds(ds[k - 1]@)->0 as int),
{
    assert(ds.take(k + 1).drop_last() =~= ds.take(k));
    assert(ds.take(k + 1).last() == ds[k]);
    assert(ds.take(k + 1)[ds.take(k + 1).len() - 2] == ds[k - 1]);
}

// ---------------------------------------------------------------------------
// Executable helpers.
// ---------------------------------------------------------------------------

/// One clamped per-tick return, executably.
fn ret_ppm(prev: i128, cur: i128) -> (r: i128)
    requires
        iabs(prev as int) <= EQUITY_ABS_LIMIT as int,
        iabs(cur as int) <= EQUITY_ABS_LIMIT as int,
    ensures
        r == spec_ret_ppm(prev as int, cur as int),
        iabs(r as int) <= RETURN_CLAMP_PPM as int,
{
    if prev >= 1 {
        proof {
            lemma_mul_abs_bound(
                cur as int - prev as int,
                RATIO_SCALE as int,
                2 * EQUITY_ABS_LIMIT as int,
                RATIO_SCALE as int,
            );
        }
        let d = div_trunc_i128((cur - prev) * RATIO_SCALE, prev);
        if d > RETURN_CLAMP_PPM {
            RETURN_CLAMP_PPM
        } else if d < -RETURN_CLAMP_PPM {
            -RETURN_CLAMP_PPM
        } else {
            d
        }
    } else {
        0
    }
}

/// Integer square root by bisection.
fn isqrt_i128(x: i128) -> (r: i128)
    requires
        0 <= x <= 1_000_000_000_000_000_000_000_000_000_000_000_000,
    ensures
        0 <= r,
        r * r <= x,
        (r + 1) * (r + 1) > x,
{
    let mut lo: i128 = 0;
    let mut hi: i128 = 2_000_000_000_000_000_000;
    proof {
        assert(2_000_000_000_000_000_000int * 2_000_000_000_000_000_000int
            > 1_000_000_000_000_000_000_000_000_000_000_000_000int) by (nonlinear_arith);
    }
    while lo + 1 < hi
        invariant
            0 <= lo < hi <= 2_000_000_000_000_000_000,
            (lo as int) * (lo as int) <= x as int,
            (hi as int) * (hi as int) > x as int,
        decreases hi - lo,
    {
        let mid = lo + (hi - lo) / 2;
        proof {
            assert(lo < mid < hi) by (nonlinear_arith)
                requires
                    lo as int + 1 < hi as int,
                    mid as int == lo as int + (hi as int - lo as int) / 2,
            ;
            lemma_mul_abs_bound(
                mid as int,
                mid as int,
                2_000_000_000_000_000_000,
                2_000_000_000_000_000_000,
            );
        }
        if mid * mid <= x {
            lo = mid;
        } else {
            hi = mid;
        }
    }
    lo
}

/// Number of ticks during which at least one trade was open, counting
/// every tick from a trade's entry to its exit (or to the end for a trade
/// still open).
fn exposure_ticks(trades: &Vec<Trade>, total: usize) -> (r: usize)
    requires
        trades@.len() <= LEDGER_CAP,
    ensures
        r == count_occupied(trades@, total as int, total as int),
        r <= total,
{
    let mut cnt: usize = 0;
    let mut k: usize = 0;
    while k < total
        invariant
            0 <= k <= total,
            trades@.len() <= LEDGER_CAP,
            cnt == count_occupied(trades@, k as int, total as int),
            cnt <= k,
        decreases total - k,
    {
        let mut occ = false;
        let mut i: usize = 0;
        while i < trades.len()
            invariant
                0 <= i <= trades@.len(),
                k < total,
                occ == exists|x: int|
                    0 <= x < i && spec_covers(#[trigger] trades@[x], k as int, total as int),
            decreases trades@.len() - i,
        {
            let t = trades[i];
            let exit_tick: usize = match t.exit_index {
                Some(e) => e,
                None => total - 1,
            };
            let cov = t.entry_index <= k && k <= exit_tick;
            proof {
                assert(cov == spec_covers(trades@[i as int], k as int, total as int));
                if occ {
                    let x = choose|x: int|
                        0 <= x < i && spec_covers(#[trigger] trades@[x], k as int, total as int);
                    assert(0 <= x < i + 1 && spec_covers(trades@[x], k as int, total as int));
                }
            }
            if cov {
                occ = true;
            }
            i = i + 1;
        }
        if occ {
            cnt = cnt + 1;
        }
        k = k + 1;
    }
    cnt
}

/// The report of one finished run.  Ratios are in parts per million unless
/// the field name says otherwise; money figures are exact cash units.
#[derive(Debug, Clone)]
pub struct Stats {
    pub start: usize,
    pub end: usize,
    pub duration: usize,
    pub start_date: String,
    pub end_date: String,
    /// Calendar days between the first and last timestamp; nothing when a
    /// timestamp does not parse.
    pub duration_days: Option<i64>,
    pub exposure_time_ppm: i128,
    pub equity_final: i128,
    pub return_ppm: i128,
    pub buy_hold_return_ppm: i128,
    pub max_drawdown_ppm: i128,
    /// Annualized volatility of the per-tick returns; nothing when the
    /// timestamps do not parse or are not increasing on average.
    pub volatility_ann_ppm: Option<i128>,
    pub num_trades: usize,
    pub win_rate_ppm: i128,
    pub best_trade: i128,
    pub worst_trade: i128,
    /// Winning profit over losing loss; nothing when there are no losses.
    pub profit_factor_ppm: Option<i128>,
    pub avg_win: i128,
    /// Average losing trade (denominator: the number of losing trades).
    pub avg_loss: i128,
    pub alpha_ppm: i128,
    pub beta_milli: i128,
    pub max_margin_usage_bp: i128,
}

/// Win/loss counters and extremes of the closed-trade ledger, in one pass:
/// wins, losses, winning profit, losing loss, best and worst trade.
fn trade_figures(trades: &Vec<Trade>) -> (r: (usize, usize, i128, i128, i128, i128))
    requires
        closed_wf(trades@),
        trades@.len() <= LEDGER_CAP,
    ensures
        r.0 == count_wins(trades@),
        r.1 == count_losses(trades@),
        r.2 == sum_win_pnl(trades@),
        r.3 == sum_loss_pnl(trades@),
        r.4 == best_pnl(trades@),
        r.5 == worst_pnl(trades@),
        r.0 <= trades@.len(),
        r.1 <= trades@.len(),
        iabs(r.2 as int) <= trades@.len() * PNL_ABS_LIMIT as int,
        iabs(r.3 as int) <= trades@.len() * PNL_ABS_LIMIT as int,
        iabs(r.4 as int) <= PNL_ABS_LIMIT as int,
        iabs(r.5 as int) <= PNL_ABS_LIMIT as int,
{
    let mut wins: usize = 0;
    let mut losses: usize = 0;
    let mut sum_w: i128 = 0;
    let mut sum_l: i128 = 0;
    let mut best: i128 = 0;
    let mut worst: i128 = 0;
    let mut k: usize = 0;
    while k < trades.len()
        invariant
            0 <= k <= trades@.len(),
            trades@.len() <= LEDGER_CAP,
            closed_wf(trades@),
            wins == count_wins(trades@.take(k as int)),
            losses == count_losses(trades@.take(k as int)),
            wins <= k,
            losses <= k,
            sum_w == sum_win_pnl(trades@.take(k as int)),
            sum_l == sum_loss_pnl(trades@.take(k as int)),
            iabs(sum_w as int) <= k * PNL_ABS_LIMIT as int,
            iabs(sum_l as int) <= k * PNL_ABS_LIMIT as int,
            best == best_pnl(trades@.take(k as int)),
            worst == worst_pnl(trades@.take(k as int)),
            iabs(best as int) <= PNL_ABS_LIMIT as int,
            iabs(worst as int) <= PNL_ABS_LIMIT as int,
        decreases trades@.len() - k,
    {
        let t = trades[k];
        let p = t.pnl();
        proof {
            lemma_trade_stats_take_step(trades@, k as int);
            crate::engine::lemma_mul_le(k as int + 1, LEDGER_CAP as int, PNL_ABS_LIMIT as int);
        }
        if p > 0 {
            wins = wins + 1;
            sum_w = sum_w + p;
        }
        if p < 0 {
            losses = losses + 1;
            sum_l = sum_l + p;
        }
        if k == 0 {
            best = p;
            worst = p;
        } else {
            if p > best {
                best = p;
            }
            if p < worst {
                worst = p;
            }
        }
        k = k + 1;
    }
    proof {
        assert(trades@.take(trades@.len() as int) =~= trades@);
    }
    (wins, losses, sum_w, sum_l, best, worst)
}

/// Sum of the clamped per-tick returns of the equity curve.
fn sum_equity_returns(equity: &Vec<i128>) -> (r: i128)
    requires
        equity@.len() >= 1,
        equity@.len() <= 1_000_000_000,
        forall|i: int|
            0 <= i < equity@.len() ==> iabs(#[trigger] equity@[i] as int) <= EQUITY_ABS_LIMIT as int,
    ensures
        r == sum_ints(spec_returns(equity@.map_values(|x: i128| x as int))),
        iabs(r as int) <= (equity@.len() - 1) * RETURN_CLAMP_PPM as int,
{
    let ghost sv = equity@.map_values(|x: i128| x as int);
    let ghost rs = spec_returns(sv);
    let mut acc: i128 = 0;
    let mut k: usize = 0;
    while k + 1 < equity.len()
        invariant
            sv == equity@.map_values(|x: i128| x as int),
            rs == spec_returns(sv),
            equity@.len() >= 1,
            equity@.len() <= 1_000_000_000,
            forall|i: int|
                0 <= i < equity@.len() ==> iabs(#[trigger] equity@[i] as int)
                    <= EQUITY_ABS_LIMIT as int,
            0 <= k <= rs.len(),
            rs.len() == equity@.len() - 1,
            acc == sum_ints(rs.take(k as int)),
            iabs(acc as int) <= k * RETURN_CLAMP_PPM as int,
        decreases equity@.len() - k,
    {
        let r = ret_ppm(equity[k], equity[k + 1]);
        proof {
            assert(rs[k as int] == spec_ret_ppm(sv[k as int], sv[k as int + 1]));
            lemma_sum_ints_take_step(rs, k as int);
            crate::engine::lemma_mul_le(k as int + 1, 1_000_000_000, RETURN_CLAMP_PPM as int);
        }
        acc = acc + r;
        k = k + 1;
    }
    proof {
        assert(rs.take(rs.len() as int) =~= rs);
    }
    acc
}

/// Sum of the clamped per-tick returns of the benchmark close column.
fn sum_close_returns(data: &PriceSeries) -> (r: i128)
    requires
        series_wf(*data),
        data.date@.len() >= 1,
        data.date@.len() <= 1_000_000_000,
    ensures
        r == sum_ints(spec_returns(data.close@.map_values(|x: i64| x as int))),
        iabs(r as int) <= (data.close@.len() - 1) * RETURN_CLAMP_PPM as int,
{
    let ghost sv = data.close@.map_values(|x: i64| x as int);
    let ghost rs = spec_returns(sv);
    let mut acc: i128 = 0;
    let mut k: usize = 0;
    while k + 1 < data.close.len()
        invariant
            sv == data.close@.map_values(|x: i64| x as int),
            rs == spec_returns(sv),
            series_wf(*data),
            data.date@.len() >= 1,
            data.date@.len() <= 1_000_000_000,
            0 <= k <= rs.len(),
            rs.len() == data.close@.len() - 1,
            acc == sum_ints(rs.take(k as int)),
            iabs(acc as int) <= k * RETURN_CLAMP_PPM as int,
        decreases data.close@.len() - k,
    {
        let r = ret_ppm(data.close[k] as i128, data.close[k + 1] as i128);
        proof {
            assert(rs[k as int] == spec_ret_ppm(sv[k as int], sv[k as int + 1]));
            lemma_sum_ints_take_step(rs, k as int);
            crate::engine::lemma_mul_le(k as int + 1, 1_000_000_000, RETURN_CLAMP_PPM as int);
        }
        acc = acc + r;
        k = k + 1;
    }
    proof {
        assert(rs.take(rs.len() as int) =~= rs);
    }
    acc
}

/// Cross-deviation sum of the two return series and squared-deviation sum
/// of the benchmark's, in one pass.
fn dev_sums(equity: &Vec<i128>, data: &PriceSeries, mean_e: i128, mean_m: i128) -> (r: (
    i128,
    i128,
    i128,
))
    requires
        series_wf(*data),
        equity@.len() == data.date@.len(),
        equity@.len() >= 1,
        equity@.len() <= 1_000_000_000,
        forall|i: int|
            0 <= i < equity@.len() ==> iabs(#[trigger] equity@[i] as int) <= EQUITY_ABS_LIMIT as int,
        iabs(mean_e as int) <= RETURN_CLAMP_PPM as int,
        iabs(mean_m as int) <= RETURN_CLAMP_PPM as int,
    ensures
        r.0 == sum_cross_dev(
            spec_returns(equity@.map_values(|x: i128| x as int)),
            spec_returns(data.close@.map_values(|x: i64| x as int)),
            mean_e as int,
            mean_m as int,
        ),
        r.1 == sum_sq_dev(
            spec_returns(data.close@.map_values(|x: i64| x as int)),
            mean_m as int,
        ),
        r.2 == sum_sq_dev(
            spec_returns(equity@.map_values(|x: i128| x as int)),
            mean_e as int,
        ),
        iabs(r.0 as int) <= (equity@.len() - 1) * 4_000_000_000_000_000_000,
        0 <= r.1 <= (equity@.len() - 1) * 4_000_000_000_000_000_000,
        0 <= r.2 <= (equity@.len() - 1) * 4_000_000_000_000_000_000,
{
    let ghost ev = equity@.map_values(|x: i128| x as int);
    let ghost mv = data.close@.map_values(|x: i64| x as int);
    let ghost er = spec_returns(ev);
    let ghost mr = spec_returns(mv);
    let mut cov: i128 = 0;
    let mut var: i128 = 0;
    let mut vare: i128 = 0;
    let mut k: usize = 0;
    proof {
        lemma_sum_sq_dev_nonneg(mr.take(0), mean_m as int);
    }
    while k + 1 < equity.len()
        invariant
            ev == equity@.map_values(|x: i128| x as int),
            mv == data.close@.map_values(|x: i64| x as int),
            er == spec_returns(ev),
            mr == spec_returns(mv),
            series_wf(*data),
            equity@.len() == data.date@.len(),
            equity@.len() >= 1,
            equity@.len() <= 1_000_000_000,
            forall|i: int|
                0 <= i < equity@.len() ==> iabs(#[trigger] equity@[i] as int)
                    <= EQUITY_ABS_LIMIT as int,
            iabs(mean_e as int) <= RETURN_CLAMP_PPM as int,
            iabs(mean_m as int) <= RETURN_CLAMP_PPM as int,
            0 <= k <= er.len(),
            er.len() == equity@.len() - 1,
            mr.len() == er.len(),
            cov == sum_cross_dev(er.take(k as int), mr.take(k as int), mean_e as int, mean_m as int),
            var == sum_sq_dev(mr.take(k as int), mean_m as int),
            vare == sum_sq_dev(er.take(k as int), mean_e as int),
            iabs(cov as int) <= k * 4_000_000_000_000_000_000,
            0 <= var <= k * 4_000_000_000_000_000_000,
            0 <= vare <= k * 4_000_000_000_000_000_000,
        decreases equity@.len() - k,
    {
        let re = ret_ppm(equity[k], equity[k + 1]);
        let rm = ret_ppm(data.close[k] as i128, data.close[k + 1] as i128);
        proof {
            assert(er[k as int] == spec_ret_ppm(ev[k as int], ev[k as int + 1]));
            assert(mr[k as int] == spec_ret_ppm(mv[k as int], mv[k as int + 1]));
            lemma_sum_cross_dev_take_step(er, mr, mean_e as int, mean_m as int, k as int);
            lemma_sum_sq_dev_take_step(mr, mean_m as int, k as int);
            lemma_sum_sq_dev_take_step(er, mean_e as int, k as int);
            lemma_mul_abs_bound(
                re as int - mean_e as int,
                re as int - mean_e as int,
                2 * RETURN_CLAMP_PPM as int,
                2 * RETURN_CLAMP_PPM as int,
            );
            assert((re as int - mean_e as int) * (re as int - mean_e as int) >= 0)
                by (nonlinear_arith);
            lemma_mul_abs_bound(
                re as int - mean_e as int,
                rm as int - mean_m as int,
                2 * RETURN_CLAMP_PPM as int,
                2 * RETURN_CLAMP_PPM as int,
            );
            lemma_mul_abs_bound(
                rm as int - mean_m as int,
                rm as int - mean_m as int,
                2 * RETURN_CLAMP_PPM as int,
                2 * RETURN_CLAMP_PPM as int,
            );
            assert((rm as int - mean_m as int) * (rm as int - mean_m as int) >= 0)
                by (nonlinear_arith);
            crate::engine::lemma_mul_le(k as int + 1, 1_000_000_000, 4_000_000_000_000_000_000);
        }
        cov = cov + (re - mean_e) * (rm - mean_m);
        var = var + (rm - mean_m) * (rm - mean_m);
        vare = vare + (re - mean_e) * (re - mean_e);
        k = k + 1;
    }
    proof {
        assert(er.take(er.len() as int) =~= er);
        assert(mr.take(mr.len() as int) =~= mr);
    }
    (cov, var, vare)
}

/// Winning profit is never negative and losing loss never positive.
pub proof fn lemma_win_loss_signs(s: Seq<Trade>)
    ensures
        sum_win_pnl(s) >= 0,
        sum_loss_pnl(s) <= 0,
    decreases s.len(),
{
    if s.len() > 0 {
        lemma_win_loss_signs(s.drop_last());
    }
}

/// Scans the timestamps: whether they all parse, and the sum of the
/// consecutive second deltas when they do.
fn date_scan(data: &PriceSeries) -> (r: (bool, i128))
    requires
        data.date@.len() <= 1_000_000_000,
    ensures
        r.0 == spec_dates_valid(data.date@),
        r.0 ==> r.1 == spec_total_seconds(data.date@),
{
    let n = data.date.len();
    if n == 0 {
        return (true, 0);
    }
    let first = timestamp_seconds(&data.date[0]);
    if first.is_none() {
        proof {
            assert(!spec_dates_valid(data.date@));
        }
        return (false, 0);
    }
    let mut prev: i64 = match first {
        Some(e) => e,
        None => 0,
    };
    let mut total: i128 = 0;
    let mut k: usize = 1;
    while k < n
        invariant
            1 <= k <= n,
            n == data.date@.len(),
            n <= 1_000_000_000,
            forall|i: int| 0 <= i < k ==> parse_epoch_seconds(#[trigger] data.date@[i]@) is Some,
            prev as int == parse_epoch_seconds(data.date@[k - 1]@)->0 as int,
            total == spec_total_seconds(data.date@.take(k as int)),
            iabs(total as int) <= k * 36_893_488_147_419_103_232,
        decreases n - k,
    {
        let e = timestamp_seconds(&data.date[k]);
        match e {
            Some(epoch) => {
                proof {
                    lemma_total_seconds_take_step(data.date@, k as int);
                    crate::engine::lemma_mul_le(
                        k as int + 1,
                        1_000_000_000,
                        36_893_488_147_419_103_232,
                    );
                }
                total = total + (epoch as i128 - prev as i128);
                prev = epoch;
                k = k + 1;
            },
            None => {
                proof {
                    assert(!spec_dates_valid(data.date@));
                }
                return (false, 0);
            },
        }
    }
    proof {
        assert(data.date@.take(data.date@.len() as int) =~= data.date@);
    }
    (true, total)
}

/// The report of a finished run, from its literal definitions: the closed
/// trades, the equity curve (one entry per tick, aligned with the series)
/// and the recorded maximum margin usage.
#[verifier::rlimit(80)]
pub fn compute_stats(
    trades: &Vec<Trade>,
    equity: &Vec<i128>,
    data: &PriceSeries,
    max_margin_usage_bp: i128,
) -> (r: Stats)
    requires
        closed_wf(trades@),
        trades@.len() <= LEDGER_CAP,
        series_wf(*data),
        equity@.len() == data.date@.len(),
        1 <= equity@.len() <= 1_000_000_000,
        forall|i: int|
            0 <= i < equity@.len() ==> iabs(#[trigger] equity@[i] as int) <= EQUITY_ABS_LIMIT as int,
    ensures
        r.start == 0,
        r.end == equity@.len() - 1,
        r.duration == equity@.len() - 1,
        r.start_date == data.date@[0],
        r.end_date == data.date@[equity@.len() - 1],
        r.duration_days == spec_duration_days(data.date@),
        r.equity_final == equity@[equity@.len() - 1],
        r.return_ppm == spec_change_ppm(
            equity@[0] as int,
            equity@[equity@.len() - 1] as int,
        ),
        r.buy_hold_return_ppm == spec_change_ppm(
            data.close@[0] as int,
            data.close@[equity@.len() - 1] as int,
        ),
        r.max_drawdown_ppm == spec_drawdown(equity@.map_values(|x: i128| x as int)).1,
        r.num_trades == trades@.len(),
        r.win_rate_ppm == if trades@.len() > 0 {
            div_trunc(count_wins(trades@) * RATIO_SCALE as int, trades@.len() as int)
        } else {
            0
        },
        r.best_trade == best_pnl(trades@),
        r.worst_trade == worst_pnl(trades@),
        r.profit_factor_ppm is Some <==> sum_loss_pnl(trades@) != 0,
        (r.profit_factor_ppm matches Some(v) ==> v == div_trunc(
            sum_win_pnl(trades@) * RATIO_SCALE as int,
            -sum_loss_pnl(trades@),
        )),
        r.avg_win == if count_wins(trades@) > 0 {
            div_trunc(sum_win_pnl(trades@), count_wins(trades@))
        } else {
            0
        },
        r.avg_loss == if count_losses(trades@) > 0 {
            div_trunc(sum_loss_pnl(trades@), count_losses(trades@))
        } else {
            0
        },
        r.alpha_ppm == spec_change_ppm(equity@[0] as int, equity@[equity@.len() - 1] as int)
            - spec_change_ppm(data.close@[0] as int, data.close@[equity@.len() - 1] as int),
        r.beta_milli == spec_beta_milli(
            equity@.map_values(|x: i128| x as int),
            data.close@.map_values(|x: i64| x as int),
        ),
        r.exposure_time_ppm == div_trunc(
            count_occupied(trades@, equity@.len() as int, equity@.len() as int) * RATIO_SCALE as int,
            equity@.len() as int,
        ),
        r.volatility_ann_ppm is Some <==> spec_vol_radicand(
            equity@.map_values(|x: i128| x as int),
            data.date@,
        ) is Some,
        (r.volatility_ann_ppm matches Some(v) ==> {
            let a = spec_vol_radicand(equity@.map_values(|x: i128| x as int), data.date@)->0;
            0 <= v && (v as int) * (v as int) <= a && ((v as int) + 1) * ((v as int) + 1) > a
        }),
        r.max_margin_usage_bp == max_margin_usage_bp,
{
    let n = equity.len();
    let last = n - 1;
    let e0 = equity[0];
    let ef = equity[last];
    let return_ppm: i128 = if e0 >= 1 {
        proof {
            lemma_mul_abs_bound(
                ef as int - e0 as int,
                RATIO_SCALE as int,
                2 * EQUITY_ABS_LIMIT as int,
                RATIO_SCALE as int,
            );
        }
        div_trunc_i128((ef - e0) * RATIO_SCALE, e0)
    } else {
        0
    };
    let c0 = data.close[0];
    let cl = data.close[last];
    let buy_hold_ppm: i128 = {
        proof {
            lemma_mul_abs_bound(
                cl as int - c0 as int,
                RATIO_SCALE as int,
                2 * EQUITY_ABS_LIMIT as int,
                RATIO_SCALE as int,
            );
        }
        div_trunc_i128((cl as i128 - c0 as i128) * RATIO_SCALE, c0 as i128)
    };
    let dd = max_drawdown(equity);
    let figs = trade_figures(trades);
    let num = trades.len();
    proof {
        crate::engine::lemma_mul_le(trades@.len() as int, LEDGER_CAP as int, PNL_ABS_LIMIT as int);
        lemma_win_loss_signs(trades@);
    }
    let win_rate_ppm: i128 = if num > 0 {
        div_trunc_i128((figs.0 as i128) * RATIO_SCALE, num as i128)
    } else {
        0
    };
    let avg_win: i128 = if figs.0 > 0 {
        div_trunc_i128(figs.2, figs.0 as i128)
    } else {
        0
    };
    let avg_loss: i128 = if figs.1 > 0 {
        div_trunc_i128(figs.3, figs.1 as i128)
    } else {
        0
    };
    let profit_factor_ppm: Option<i128> = if figs.3 != 0 {
        proof {
            lemma_mul_abs_bound(
                sum_win_pnl(trades@),
                RATIO_SCALE as int,
                LEDGER_CAP as int * PNL_ABS_LIMIT as int,
                RATIO_SCALE as int,
            );
        }
        Some(div_trunc_i128(figs.2 * RATIO_SCALE, -figs.3))
    } else {
        None
    };
    let occ = exposure_ticks(trades, n);
    let exposure_time_ppm = div_trunc_i128((occ as i128) * RATIO_SCALE, n as i128);
    let duration_days: Option<i64> = {
        let a = timestamp_seconds(&data.date[0]);
        let b = timestamp_seconds(&data.date[last]);
        match (a, b) {
            (Some(x), Some(y)) => {
                proof {
                    crate::fixed::lemma_div_trunc_bound(
                        y as int - x as int,
                        86400,
                        300_000_000_000_000,
                    );
                }
                Some(div_trunc_i128(y as i128 - x as i128, 86400) as i64)
            },
            _ => None,
        }
    };
    let scan = date_scan(data);
    let mut beta_milli: i128 = 0;
    let mut volatility_ann_ppm: Option<i128> = None;
    if n >= 2 {
        let sum_e = sum_equity_returns(equity);
        let sum_m = sum_close_returns(data);
        let nr: i128 = (n - 1) as i128;
        proof {
            crate::fixed::lemma_div_trunc_bound(sum_e as int, nr as int, RETURN_CLAMP_PPM as int);
            crate::fixed::lemma_div_trunc_bound(sum_m as int, nr as int, RETURN_CLAMP_PPM as int);
        }
        let mean_e = div_trunc_i128(sum_e, nr);
        let mean_m = div_trunc_i128(sum_m, nr);
        let devs = dev_sums(equity, data, mean_e, mean_m);
        if devs.1 != 0 {
            proof {
                lemma_mul_abs_bound(
                    devs.0 as int,
                    1000,
                    1_000_000_000int * 4_000_000_000_000_000_000,
                    1000,
                );
            }
            beta_milli = div_trunc_i128(devs.0 * 1000, devs.1);
        }
        if scan.0 {
            if n < 3 {
                volatility_ann_ppm = Some(isqrt_i128(0));
            } else if scan.1 >= 1 {
                let avg = div_trunc_i128(scan.1, nr);
                if avg >= 1 {
                    proof {
                        crate::fixed::lemma_div_trunc_bound(
                            devs.2 as int,
                            nr as int - 1,
                            1_000_000_000int * 4_000_000_000_000_000_000,
                        );
                        assert(div_trunc(devs.2 as int, nr as int - 1) >= 0) by {
                            assert((devs.2 as int) / (nr as int - 1) >= 0) by (nonlinear_arith)
                                requires
                                    devs.2 as int >= 0,
                                    nr as int - 1 >= 1,
                            ;
                        }
                    }
                    let vare = div_trunc_i128(devs.2, nr - 1);
                    proof {
                        lemma_mul_abs_bound(
                            vare as int,
                            31_536_000,
                            1_000_000_000int * 4_000_000_000_000_000_000,
                            31_536_000,
                        );
                        crate::fixed::lemma_div_trunc_bound(
                            vare as int * 31_536_000,
                            avg as int,
                            1_000_000_000int * 4_000_000_000_000_000_000 * 31_536_000,
                        );
                        assert((vare as int * 31_536_000) / (avg as int) >= 0) by (nonlinear_arith)
                            requires
                                vare as int >= 0,
                                avg as int >= 1,
                        ;
                    }
                    let radicand = div_trunc_i128(vare * 31_536_000, avg);
                    volatility_ann_ppm = Some(isqrt_i128(radicand));
                }
            }
        }
    } else {
        if scan.0 {
            volatility_ann_ppm = Some(isqrt_i128(0));
        }
    }
    Stats {
        start: 0,
        end: last,
        duration: last,
        start_date: data.date[0].clone(),
        end_date: data.date[last].clone(),
        duration_days,
        exposure_time_ppm,
        equity_final: ef,
        return_ppm,
        buy_hold_return_ppm: buy_hold_ppm,
        max_drawdown_ppm: dd,
        volatility_ann_ppm,
        num_trades: num,
        win_rate_ppm,
        best_trade: figs.4,
        worst_trade: figs.5,
        profit_factor_ppm,
        avg_win,
        avg_loss,
        alpha_ppm: return_ppm - buy_hold_ppm,
        beta_milli,
        max_margin_usage_bp,
    }
}

} // verus!
