//! Sine and cosine, by their power series.
use crate::fixed::{
    fx_add, fx_div, fx_mul, fx_neg, fx_whole, negated, prod, quot, sum, whole, PrcFmt, HALF, ONE,
};
use vstd::prelude::*;

verus! {

/// The circumference of the unit circle.
pub const TWO_PI: PrcFmt = 0x6487ed5110b4611a62633;

/// Number of terms taken of a power series.
pub const TERMS: usize = 32;

/// Term `k` of the series that starts with `first` and whose every term is the one before
/// it, times `-square`, over the next two whole numbers after `offset + 2 * (k - 1)`.
pub open spec fn series_term(first: PrcFmt, square: PrcFmt, offset: int, k: nat) -> PrcFmt
    decreases k,
{
    if k == 0 {
        first
    } else {
        negated(
            quot(
                prod(series_term(first, square, offset, (k - 1) as nat), square),
                whole((2 * k - 1 + offset) * (2 * k + offset)),
            ),
        )
    }
}

/// The sum of the first `n` terms.
pub open spec fn series_sum(first: PrcFmt, square: PrcFmt, offset: int, n: nat) -> PrcFmt
    decreases n,
{
    if n == 0 {
        0
    } else {
        sum(
            series_sum(first, square, offset, (n - 1) as nat),
            series_term(first, square, offset, (n - 1) as nat),
        )
    }
}

/// The angle of a number of turns, in radians, between half a turn back and half a turn on.
pub open spec fn angle_of(turns: PrcFmt) -> PrcFmt {
    let part = turns as int % ONE as int;
    if part >= HALF {
        prod((part - ONE) as PrcFmt, TWO_PI)
    } else {
        prod(part as PrcFmt, TWO_PI)
    }
}

/// The sine of a number of turns: x - x^3/3! + x^5/5! - ...
#[verifier::opaque]
pub open spec fn sin_of(turns: PrcFmt) -> PrcFmt {
    let x = angle_of(turns);
    series_sum(x, prod(x, x), 1, TERMS as nat)
}

/// The cosine of a number of turns: 1 - x^2/2! + x^4/4! - ...
#[verifier::opaque]
pub open spec fn cos_of(turns: PrcFmt) -> PrcFmt {
    let x = angle_of(turns);
    series_sum(ONE, prod(x, x), 0, TERMS as nat)
}

/// The tangent of a number of turns.
pub open spec fn tan_of(turns: PrcFmt) -> PrcFmt {
    quot(sin_of(turns), cos_of(turns))
}

fn angle(turns: PrcFmt) -> (r: PrcFmt)
    ensures
        r == angle_of(turns),
{
    let rest: PrcFmt = turns % ONE;
    let part: PrcFmt = if rest < 0 {
        rest + ONE
    } else {
        rest
    };
    proof {
        assert(part == turns as int % ONE as int);
    }
    if part >= HALF {
        fx_mul(part - ONE, TWO_PI)
    } else {
        fx_mul(part, TWO_PI)
    }
}

fn series(first: PrcFmt, square: PrcFmt, offset: usize) -> (r: PrcFmt)
    requires
        offset <= 1,
    ensures
        r == series_sum(first, square, offset as int, TERMS as nat),
{
    let mut term: PrcFmt = first;
    let mut total: PrcFmt = 0;
    let mut k: usize = 0;
    while k < TERMS
        invariant
            k <= TERMS,
            offset <= 1,
            term == series_term(first, square, offset as int, k as nat),
            total == series_sum(first, square, offset as int, k as nat),
        decreases TERMS - k,
    {
        total = fx_add(total, term);
        k = k + 1;
        proof {
            assert((2 * k - 1 + offset) * (2 * k + offset) <= 100 * 100) by (nonlinear_arith)
                requires
                    0 < k <= 32,
                    offset <= 1,
            ;
        }
        term = fx_neg(
            fx_div(fx_mul(term, square), fx_whole((2 * k - 1 + offset) * (2 * k + offset))),
        );
    }
    total
}

pub fn fx_sin(turns: PrcFmt) -> (r: PrcFmt)
    ensures
        r == sin_of(turns),
{
    reveal(sin_of);
    let x: PrcFmt = angle(turns);
    series(x, fx_mul(x, x), 1)
}

pub fn fx_cos(turns: PrcFmt) -> (r: PrcFmt)
    ensures
        r == cos_of(turns),
{
    reveal(cos_of);
    let x: PrcFmt = angle(turns);
    series(ONE, fx_mul(x, x), 0)
}

pub fn fx_tan(turns: PrcFmt) -> (r: PrcFmt)
    ensures
        r == tan_of(turns),
{
    fx_div(fx_sin(turns), fx_cos(turns))
}

} // verus!
