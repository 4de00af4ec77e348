//! What the sine, the cosine and the tangent of small angles are close to.
use crate::filters::{turns_of, warped};
use crate::fixed::{prod, quot, whole, PrcFmt, ONE};
use crate::laws::constants::lemma_cut_scaled;
use crate::laws::designs::tunable;
use crate::laws::hearing::lemma_mean;
use crate::laws::polarity::{law_small_turns_have_a_tangent, lemma_terms_alternate};
use crate::trig::{angle_of, cos_of, series_sum, series_term, sin_of, tan_of, TERMS, TWO_PI};
use vstd::prelude::*;

verus! {

/// What an alternating series adds after its first `m` terms lies between nothing and term `m`.
proof fn lemma_series_tail(first: PrcFmt, square: PrcFmt, offset: int, m: nat, n: nat)
    requires
        0 <= first <= 6 * ONE,
        0 <= offset <= 1,
        0 <= square <= (1 + offset) * (2 + offset) * ONE,
        m <= n <= TERMS,
        -0x1000 * ONE <= series_sum(first, square, offset, m) <= 0x1000 * ONE,
    ensures
        ({
            let added = series_sum(first, square, offset, n) - series_sum(
                first,
                square,
                offset,
                m,
            );
            let (here, next) = (
                series_term(first, square, offset, m),
                series_term(first, square, offset, n),
            );
            &&& m % 2 == 0 ==> 0 <= added <= here && 0 <= added + next <= here
            &&& m % 2 == 1 ==> here <= added <= 0 && here <= added + next <= 0
        }),
    decreases n,
{
    lemma_terms_alternate(first, square, offset, n);
    lemma_terms_alternate(first, square, offset, m);
    if n > m {
        lemma_series_tail(first, square, offset, m, (n - 1) as nat);
        lemma_terms_alternate(first, square, offset, (n - 1) as nat);
    }
}

/// One term of a series, from the one before it.
proof fn lemma_term(t: PrcFmt, square: PrcFmt, d: int)
    requires
        0 <= t <= 6 * ONE,
        0 <= square <= 6 * ONE,
        0 < d <= 0x10000,
    ensures
        ({
            let next = quot(prod(t, square), whole(d));
            &&& 0 <= next
            &&& next * (d * ONE) <= t * square
            &&& t * square < (next + 1) * (d * ONE) + ONE
        }),
{
    reveal(quot);
    let p = prod(t, square) as int;
    assert(0 <= t * square <= 36 * ONE * ONE) by (nonlinear_arith)
        requires
            0 <= t <= 6 * ONE,
            0 <= square <= 6 * ONE,
    ;
    assert(p * ONE <= t * square < (p + 1) * ONE);
    lemma_cut_scaled(p, d);
    let q = p / d;
    vstd::arithmetic::div_mod::lemma_fundamental_div_mod(p, d);
    vstd::arithmetic::div_mod::lemma_mod_bound(p, d);
    vstd::arithmetic::div_mod::lemma_div_pos_is_pos(p, d);
    assert(q <= p) by (nonlinear_arith)
        requires
            d * q <= p,
            d >= 1,
            q >= 0,
    ;
    assert(q * (d * ONE) == (d * q) * ONE && (q + 1) * (d * ONE) == (d * q + d) * ONE)
        by (nonlinear_arith);
}

/// The angle of a small number of turns is 2 pi times as much.
proof fn lemma_angle(turns: PrcFmt)
    requires
        0 <= 5 * turns <= ONE,
    ensures
        angle_of(turns) * ONE <= turns * TWO_PI < (angle_of(turns) + 1) * ONE,
        0 <= angle_of(turns),
        5 * angle_of(turns) <= TWO_PI,
        0 <= prod(angle_of(turns), angle_of(turns)) <= 2 * ONE,
        prod(angle_of(turns), angle_of(turns)) * ONE <= angle_of(turns) * angle_of(turns),
        angle_of(turns) * angle_of(turns) < (prod(angle_of(turns), angle_of(turns)) + 1) * ONE,
{
    let x = angle_of(turns);
    vstd::arithmetic::div_mod::lemma_small_mod(turns as nat, ONE as nat);
    assert(0 <= turns * TWO_PI && 5 * (turns * TWO_PI) <= ONE * TWO_PI) by (nonlinear_arith)
        requires
            0 <= 5 * turns <= ONE,
            TWO_PI >= 0,
    ;
    assert(0 <= x && 5 * x <= TWO_PI);
    assert(0 <= x * x && 25 * (x * x) <= TWO_PI * TWO_PI) by (nonlinear_arith)
        requires
            0 <= x,
            5 * x <= TWO_PI,
    ;
}

/// Up to a fifth of a turn the sine of an angle x lies between x - x^3/6 and x, and the cosine
/// between 1 - x^2/2 and 1 - x^2/2 + x^4/24, up to a few steps of rounding. The angle is 2 pi
/// times the turns.
pub proof fn law_sine_and_cosine_of_small_angles(turns: PrcFmt, x: int)
    requires
        0 <= 5 * turns <= ONE,
        x * ONE <= turns * TWO_PI < (x + 1) * ONE,
    ensures
        sin_of(turns) <= x,
        6 * ((x - sin_of(turns)) * (ONE * ONE)) <= x * (x * x),
        cos_of(turns) <= ONE,
        2 * ((ONE - cos_of(turns)) * ONE) <= x * x,
        24 * ((ONE - cos_of(turns)) * (ONE * (ONE * ONE))) + (x * x) * (x * x) + 36 * (ONE * (ONE
            * ONE)) >= 12 * ((x * x) * (ONE * ONE)),
{
    let a = angle_of(turns);
    lemma_angle(turns);
    assert(a == x);
    let square = prod(a, a);
    reveal(sin_of);
    reveal(cos_of);
    reveal_with_fuel(series_term, 4);
    reveal_with_fuel(series_sum, 4);
    let one = ONE as int;
    // The sine.
    lemma_series_tail(a, square, 1, 1, TERMS as nat);
    assert(series_sum(a, square, 1, 1) == x);
    lemma_term(a, square, 6);
    let t = quot(prod(a, square), whole(6)) as int;
    assert(series_term(a, square, 1, 1) == -t);
    assert(0 <= x - sin_of(turns) <= t);
    let (gap, sq) = (x - sin_of(turns), square as int);
    assert(6 * (gap * (one * one)) <= x * (x * x)) by (nonlinear_arith)
        requires
            0 <= gap <= t,
            t * (6 * one) <= x * sq,
            sq * one <= x * x,
            x >= 0,
            one > 0,
    {
        assert(gap * (6 * one) <= t * (6 * one));
        assert((gap * (6 * one)) * one <= (x * sq) * one);
        assert(x * (sq * one) <= x * (x * x));
    }
    // The cosine.
    lemma_series_tail(ONE, square, 0, 1, TERMS as nat);
    assert(series_sum(ONE, square, 0, 1) == ONE);
    lemma_term(ONE, square, 2);
    let u = quot(prod(ONE, square), whole(2)) as int;
    assert(series_term(ONE, square, 0, 1) == -u);
    let fall = ONE - cos_of(turns);
    assert(0 <= fall <= u);
    assert(2 * (fall * one) <= x * x) by (nonlinear_arith)
        requires
            0 <= fall <= u,
            u * (2 * one) <= one * sq,
            sq * one <= x * x,
            one > 0,
    {
        assert((u * 2) * one <= sq * one);
        assert(fall * (2 * one) <= u * (2 * one));
    }
    lemma_terms_alternate(ONE, square, 0, 0);
    assert(series_sum(ONE, square, 0, 2) == ONE - u);
    lemma_series_tail(ONE, square, 0, 2, TERMS as nat);
    lemma_term(u as PrcFmt, square, 12);
    let v = quot(prod(u as PrcFmt, square), whole(12)) as int;
    assert(u <= one) by (nonlinear_arith)
        requires
            u * (2 * one) <= one * sq,
            sq <= 2 * one,
            one > 0,
    {
        if u > one {
            assert(u * (2 * one) > one * (2 * one));
        }
    }
    let y = (-u) as PrcFmt;
    let m = prod(y, square);
    assert(y * square == -(u * square)) by (nonlinear_arith)
        requires
            y == -u,
    ;
    assert(0 <= u * square <= 2 * ONE * ONE) by (nonlinear_arith)
        requires
            0 <= u <= ONE,
            0 <= square <= 2 * ONE,
    ;
    assert(m == -prod(u as PrcFmt, square));
    assert(quot(m, whole(12)) == -v) by {
        reveal(quot);
    }
    assert(series_term(ONE, square, 0, 2) == v);
    assert(fall >= u - v);
    lemma_cosine_fall(x, sq, u, v, fall);
}

/// The arithmetic of the fall of a cosine.
proof fn lemma_cosine_fall(x: int, sq: int, u: int, v: int, fall: int)
    requires
        x >= 0,
        sq >= 0,
        fall >= u - v,
        ONE * sq < (u + 1) * (2 * ONE) + ONE,
        v * (12 * ONE) <= u * sq,
        2 * u <= sq,
        sq * ONE <= x * x < (sq + 1) * ONE,
    ensures
        24 * (fall * (ONE * (ONE * ONE))) + (x * x) * (x * x) + 36 * (ONE * (ONE * ONE)) >= 12 * ((x
            * x) * (ONE * ONE)),
{
    let (one, xx) = (ONE as int, x * x);
    assert(2 * u >= sq - 2) by (nonlinear_arith)
        requires
            one * sq < (u + 1) * (2 * one) + one,
            one > 0,
    {
        assert(one * sq < one * (2 * u + 3));
    }
    assert(24 * (v * one) <= sq * sq) by (nonlinear_arith)
        requires
            v * (12 * one) <= u * sq,
            2 * u <= sq,
            sq >= 0,
    {
        assert((2 * u) * sq <= sq * sq);
    }
    assert(24 * (fall * one) >= 12 * (sq * one) - 24 * one - sq * sq) by (nonlinear_arith)
        requires
            fall >= u - v,
            2 * u >= sq - 2,
            24 * (v * one) <= sq * sq,
            one > 0,
    {
        assert(fall * one >= (u - v) * one);
        assert((2 * u) * one >= (sq - 2) * one);
    }
    let w = one * one;
    assert(24 * (fall * (one * w)) >= 12 * (sq * (one * w)) - 24 * (one * w) - (sq * sq) * w)
        by (nonlinear_arith)
        requires
            24 * (fall * one) >= 12 * (sq * one) - 24 * one - sq * sq,
            w > 0,
    {
        assert((24 * (fall * one)) * w >= (12 * (sq * one) - 24 * one - sq * sq) * w);
    }
    assert((sq * sq) * w <= xx * xx) by (nonlinear_arith)
        requires
            0 <= sq * one <= xx,
            w == one * one,
    {
        assert((sq * one) * (sq * one) <= xx * xx);
    }
    assert(12 * (xx * w) <= 12 * (sq * (one * w)) + 12 * (one * w)) by (nonlinear_arith)
        requires
            xx < (sq + 1) * one,
            w > 0,
    {
        assert(xx * w <= ((sq + 1) * one) * w);
    }
}

/// The tangent is the sine over the cosine.
pub proof fn law_tangent_of_small_angles(turns: PrcFmt)
    requires
        0 <= 5 * turns <= ONE,
    ensures
        cos_of(turns) > 0,
        tan_of(turns) * cos_of(turns) <= sin_of(turns) * ONE < (tan_of(turns) + 1) * cos_of(turns),
{
    let x = angle_of(turns) as int;
    lemma_angle(turns);
    law_sine_and_cosine_of_small_angles(turns, x);
    law_small_turns_have_a_tangent(turns);
    let (c, s, one) = (cos_of(turns) as int, sin_of(turns) as int, ONE as int);
    assert(25 * (x * x) <= TWO_PI * TWO_PI) by (nonlinear_arith)
        requires
            0 <= x,
            5 * x <= TWO_PI,
    ;
    assert(10 * c >= one);
    reveal(quot);
    let n = s * ONE;
    vstd::arithmetic::div_mod::lemma_fundamental_div_mod(n, c);
    vstd::arithmetic::div_mod::lemma_mod_bound(n, c);
    vstd::arithmetic::div_mod::lemma_div_pos_is_pos(n, c);
    let q = n / c;
    assert(q <= 0x1000 * one) by (nonlinear_arith)
        requires
            c * q <= n,
            n <= 2 * one * one,
            10 * c >= one,
            one > 0,
            q >= 0,
    {
        if q > 0x1000 * one {
            assert((10 * c) * q >= one * q);
        }
    }
    if n == 0 {
        vstd::arithmetic::div_mod::lemma_div_of0(c);
    }
    assert(q * c == c * q && (q + 1) * c == c * q + c) by (nonlinear_arith);
}

/// A frequency turns by its part of the sampling rate with every sample.
pub proof fn law_frequency_is_a_part_of_the_rate(freq: PrcFmt, samplerate: usize)
    requires
        0 <= freq,
        0 < samplerate,
        samplerate * ONE <= i128::MAX,
    ensures
        turns_of(freq, samplerate) * samplerate <= freq < (turns_of(freq, samplerate) + 1)
            * samplerate,
{
    reveal(quot);
    let (f, n) = (freq as int, samplerate as int);
    let t = f / n;
    assert(f * ONE / (n * ONE) == t && 0 <= t <= f && t * n <= f < (t + 1) * n)
        by (nonlinear_arith)
        requires
            t == f / n,
            f >= 0,
            n > 0,
    {
        let r = f % n;
        assert(f == t * n + r && 0 <= r < n);
        assert(f * ONE == t * (n * ONE) + r * ONE);
        assert(0 <= r * ONE < n * ONE);
        vstd::arithmetic::div_mod::lemma_fundamental_div_mod_converse(
            f * ONE,
            n * ONE,
            t,
            r * ONE,
        );
    }
}

/// Every frequency up to a fifth of the sampling rate can be tuned to.
pub proof fn law_low_frequencies_are_tunable(freq: PrcFmt, q: PrcFmt, samplerate: usize)
    requires
        0 <= freq,
        5 * freq <= samplerate * ONE,
        0 < samplerate,
        samplerate * ONE <= i128::MAX,
        ONE <= 8 * q,
        q <= 0x1_0000_0000 * ONE,
    ensures
        tunable(freq, q, samplerate),
        0 <= sin_of(turns_of(freq, samplerate)),
        ONE <= 8 * cos_of(turns_of(freq, samplerate)),
{
    law_frequency_is_a_part_of_the_rate(freq, samplerate);
    let t = turns_of(freq, samplerate);
    assert(0 <= 5 * t <= ONE) by (nonlinear_arith)
        requires
            t * samplerate <= freq < (t + 1) * samplerate,
            0 <= freq,
            5 * freq <= samplerate * ONE,
            0 < samplerate,
    {
        assert((5 * t) * samplerate <= ONE * samplerate);
    }
    lemma_angle(t);
    let x = angle_of(t) as int;
    law_sine_and_cosine_of_small_angles(t, x);
    let (s, c, w) = (sin_of(t) as int, cos_of(t) as int, ONE * ONE);
    assert(4 * (x * x) <= 7 * w) by (nonlinear_arith)
        requires
            0 <= x,
            5 * x <= TWO_PI,
            w == ONE * ONE,
            100 * TWO_PI <= 629 * ONE,
    {
        assert(500 * x <= 629 * ONE);
        assert((500 * x) * (500 * x) <= (629 * ONE) * (629 * ONE));
    }
    assert(8 * ((ONE - c) * ONE) <= 7 * w);
    assert(8 * (ONE - c) <= 7 * ONE);
    assert(x * (4 * (x * x)) <= x * (7 * w)) by (nonlinear_arith)
        requires
            0 <= x,
            4 * (x * x) <= 7 * w,
    ;
    assert(0 <= s) by (nonlinear_arith)
        requires
            6 * ((x - s) * w) <= x * (x * x),
            x * (4 * (x * x)) <= x * (7 * w),
            0 <= x,
            w > 0,
    {
        assert(24 * ((x - s) * w) <= 7 * (x * w));
        assert((24 * (x - s)) * w <= (7 * x) * w);
    }
}

/// A first order corner is warped to the tangent of half the angle that its frequency turns with
/// every sample.
pub proof fn law_corner_is_the_tangent_of_half_the_angle(freq: PrcFmt, samplerate: usize)
    requires
        0 <= freq,
        5 * freq <= 2 * (samplerate * ONE),
        0 < samplerate,
        samplerate * ONE <= i128::MAX,
    ensures
        ({
            let half = (turns_of(freq, samplerate) as int / 2) as PrcFmt;
            let k = warped(freq, samplerate);
            &&& cos_of(half) > 0
            &&& k * cos_of(half) <= sin_of(half) * ONE < (k + 1) * cos_of(half)
        }),
{
    law_frequency_is_a_part_of_the_rate(freq, samplerate);
    let t = turns_of(freq, samplerate);
    assert(0 <= 5 * t <= 2 * ONE) by (nonlinear_arith)
        requires
            t * samplerate <= freq < (t + 1) * samplerate,
            0 <= freq,
            5 * freq <= 2 * (samplerate * ONE),
            0 < samplerate,
    {
        assert((5 * t) * samplerate <= (2 * ONE) * samplerate);
    }
    lemma_mean(t, 2);
    law_tangent_of_small_angles((t as int / 2) as PrcFmt);
}

} // verus!
