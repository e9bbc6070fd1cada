//! Fixed-point conventions and the small arithmetic helpers the engine uses.
//!
//! Prices are plain integers in an arbitrary price unit chosen by the caller
//! (for example thousandths of a currency unit).  Position sizes are integers
//! in units of `1 / SIZE_UNIT` of a share, so a whole share is `SIZE_UNIT`
//! size units.  Cash, equity and profit amounts are products of a size and a
//! price and therefore carry the combined scale; keeping them as exact
//! integer products lets the ledger conserve cash to the last unit.

use vstd::prelude::*;

verus! {

/// Size units per whole share; a size not divisible by this is fractional.
pub const SIZE_UNIT: i64 = 10_000;

/// Denominator of the commission ratio (a ratio of 1 is `COMMISSION_DEN`).
pub const COMMISSION_DEN: i64 = 1_000_000;

/// Margin usage is reported in basis points: a usage of 1.0 is `USAGE_SCALE`.
pub const USAGE_SCALE: i64 = 10_000;

/// Fractions such as returns and drawdowns are reported in parts per million.
pub const RATIO_SCALE: i128 = 1_000_000;

/// Largest admissible raw price (price units).
pub const PRICE_LIMIT: i64 = 1_000_000_000;

/// Largest magnitude of a commission- and spread-adjusted price.  An adjusted
/// price is at most `2 * PRICE_LIMIT + spread` and a spread is itself at most
/// `PRICE_LIMIT`.
pub const ADJ_PRICE_LIMIT: i64 = 3_000_000_000;

/// Largest admissible order or trade size magnitude (size units).
pub const SIZE_LIMIT: i64 = 10_000_000_000;

/// Largest admissible initial cash magnitude.
pub const CASH_LIMIT: i128 = 1_000_000_000_000_000_000;

/// Largest admissible margin-ratio denominator (and numerator).
pub const MARGIN_DEN_LIMIT: i64 = 1_000_000;

/// Cap on the weighted number of ledger entries (pending orders count twice
/// when they carry a stop loss, because executing one can create both a trade
/// and a contingent order).  Together with the per-value limits this keeps
/// every sum the engine forms inside `i128`.
pub const LEDGER_CAP: usize = 1_000_000;

/// `LEDGER_CAP` as an `i128` for arithmetic in bounds.
pub const LEDGER_CAP_UNITS: i128 = 1_000_000;

/// Largest magnitude of a single trade's profit or loss:
/// `SIZE_LIMIT * 2 * ADJ_PRICE_LIMIT`.
pub const PNL_ABS_LIMIT: i128 = 60_000_000_000_000_000_000;

/// Largest cash magnitude the ledger can reach:
/// `CASH_LIMIT + LEDGER_CAP_UNITS * PNL_ABS_LIMIT`.
pub const CASH_ABS_LIMIT: i128 = 60_000_001_000_000_000_000_000_000;

/// Largest equity magnitude: `CASH_ABS_LIMIT + LEDGER_CAP_UNITS * PNL_ABS_LIMIT`.
pub const EQUITY_ABS_LIMIT: i128 = 120_000_001_000_000_000_000_000_000;

/// Mathematical absolute value.
pub open spec fn iabs(a: int) -> int {
    if a >= 0 {
        a
    } else {
        -a
    }
}

/// Division rounding toward zero, as Rust's `/` does on signed integers.
/// Meaningful for positive divisors.
pub open spec fn div_trunc(a: int, b: int) -> int
    recommends
        b >= 1,
{
    if a >= 0 {
        a / b
    } else {
        -((-a) / b)
    }
}

/// Truncating division on `i128`, matching `div_trunc`.
pub fn div_trunc_i128(a: i128, b: i128) -> (r: i128)
    requires
        1 <= b,
        -(i128::MAX as int) <= a,
    ensures
        r == div_trunc(a as int, b as int),
        iabs(r as int) <= iabs(a as int),
{
    if a >= 0 {
        let q: u128 = (a as u128) / (b as u128);
        assert(q <= a as u128);
        q as i128
    } else {
        let m: i128 = -a;
        let q: u128 = (m as u128) / (b as u128);
        assert(q <= m as u128);
        -(q as i128)
    }
}

/// `|x * y| <= bx * by` whenever `|x| <= bx` and `|y| <= by`.
pub proof fn lemma_mul_abs_bound(x: int, y: int, bx: int, by: int)
    requires
        iabs(x) <= bx,
        iabs(y) <= by,
    ensures
        iabs(x * y) <= bx * by,
    {
    assert(iabs(x * y) <= bx * by) by (nonlinear_arith)
        requires
            iabs(x) <= bx,
            iabs(y) <= by,
    ;
}

/// A bound through truncating division: `|a| <= b * c` gives `|a / b| <= c`.
pub proof fn lemma_div_trunc_bound(a: int, b: int, c: int)
    requires
        b >= 1,
        c >= 0,
        iabs(a) <= b * c,
    ensures
        iabs(div_trunc(a, b)) <= c,
{
    if a >= 0 {
        assert(a / b <= c) by (nonlinear_arith)
            requires
                a >= 0,
                b >= 1,
                a <= b * c,
        ;
        assert(a / b >= 0) by (nonlinear_arith)
            requires
                a >= 0,
                b >= 1,
        ;
    } else {
        assert((-a) / b <= c) by (nonlinear_arith)
            requires
                -a >= 0,
                b >= 1,
                -a <= b * c,
        ;
        assert((-a) / b >= 0) by (nonlinear_arith)
            requires
                -a >= 0,
                b >= 1,
        ;
    }
}

/// Dividing by a positive divisor cannot grow the magnitude.
pub proof fn lemma_div_trunc_abs(a: int, b: int)
    requires
        b >= 1,
    ensures
        iabs(div_trunc(a, b)) <= iabs(a),
{
    if a >= 0 {
        assert(a / b <= a) by (nonlinear_arith)
            requires
                a >= 0,
                b >= 1,
        ;
        assert(a / b >= 0) by (nonlinear_arith)
            requires
                a >= 0,
                b >= 1,
        ;
    } else {
        assert((-a) / b <= -a) by (nonlinear_arith)
            requires
                -a >= 0,
                b >= 1,
        ;
        assert((-a) / b >= 0) by (nonlinear_arith)
            requires
                -a >= 0,
                b >= 1,
        ;
    }
}

} // verus!
