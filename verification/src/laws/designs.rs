//! What the filters let through, told from their coefficients.
//!
//! A filter with coefficients a1, a2, b0, b1, b2 lets constant sound through by
//! (b0 + b1 + b2) / (1 + a1 + a2), and sound at half of the sampling rate by
//! (b0 - b1 + b2) / (1 - a1 + a2). A second order one is tuned to the frequency whose cosine is
//! -a1 / (1 + a2), and is as wide as (1 - a2) / (1 + a2).
use crate::filters::{bandwidth, turns_of, warped, BiquadCoefficients, BiquadParameters};
use crate::fixed::{diff, lemma_quot_share, negated, prod, quot, sum, whole, PrcFmt, HALF, ONE};
use crate::laws::reference::apart;
use crate::trig::{cos_of, sin_of};
use vstd::prelude::*;

verus! {

/// Whether a frequency lies where its sine and its cosine can be told, and a Q is not tiny.
pub open spec fn tunable(freq: PrcFmt, q: PrcFmt, samplerate: usize) -> bool {
    let turns = turns_of(freq, samplerate);
    &&& 0 <= sin_of(turns) <= 2 * ONE
    &&& -2 * ONE <= cos_of(turns) <= 2 * ONE
    &&& ONE <= 8 * q
    &&& q <= 0x1_0000_0000 * ONE
}

/// A quotient by a positive number, in whole numbers.
proof fn lemma_quot_cuts(a: PrcFmt, b: PrcFmt)
    requires
        b >= ONE,
        -0x100 * ONE <= a <= 0x100 * ONE,
    ensures
        -b < quot(a, b) * b - a * ONE < b,
        quot((-a) as PrcFmt, b) == -quot(a, b),
        a >= 0 ==> 0 <= quot(a, b) <= a,
{
    reveal(quot);
    let (n, d) = (
        if a >= 0 {
            a * ONE
        } else {
            -a * ONE
        },
        b as int,
    );
    let q = n / d;
    vstd::arithmetic::div_mod::lemma_fundamental_div_mod(n, d);
    vstd::arithmetic::div_mod::lemma_mod_bound(n, d);
    vstd::arithmetic::div_mod::lemma_div_pos_is_pos(n, d);
    let m = if a >= 0 {
        a as int
    } else {
        -a
    };
    assert(q <= m) by (nonlinear_arith)
        requires
            d * q <= m * ONE,
            d >= ONE,
            m >= 0,
            q >= 0,
    {
        if q > m {
            assert(d * q >= ONE * q);
        }
    }
    if n == 0 {
        vstd::arithmetic::div_mod::lemma_div_of0(d);
    }
    assert(q * d == d * q && (-q) * d == -(d * q)) by (nonlinear_arith);
}

/// Twice a number.
proof fn lemma_doubled(a: PrcFmt)
    requires
        -0x1_0000_0000 * ONE <= a <= 0x1_0000_0000 * ONE,
    ensures
        prod(whole(2), a) == 2 * a,
        prod(whole(-2), a) == -2 * a,
{
    let (two, less) = (whole(2), whole(-2));
    assert(two == 2 * ONE && less == -2 * ONE);
    assert(two * a == (2 * a) * ONE && less * a == (-2 * a) * ONE) by (nonlinear_arith)
        requires
            two == 2 * ONE,
            less == -2 * ONE,
    ;
}

/// The width term of a second order section.
proof fn lemma_width(sine: PrcFmt, q: PrcFmt, alpha: PrcFmt)
    requires
        0 <= sine <= 2 * ONE,
        ONE <= 8 * q,
        q <= 0x1_0000_0000 * ONE,
        alpha == quot(sine, prod(whole(2), q)),
    ensures
        0 <= alpha <= 8 * ONE,
        2 * (alpha * q) <= sine * ONE < 2 * ((alpha + 1) * q),
{
    reveal(quot);
    let d = prod(whole(2), q) as int;
    lemma_doubled(q);
    let n = sine * ONE;
    let a = n / d;
    vstd::arithmetic::div_mod::lemma_fundamental_div_mod(n, d);
    vstd::arithmetic::div_mod::lemma_mod_bound(n, d);
    vstd::arithmetic::div_mod::lemma_div_pos_is_pos(n, d);
    if n == 0 {
        vstd::arithmetic::div_mod::lemma_div_of0(d);
    }
    assert(a <= 8 * ONE) by (nonlinear_arith)
        requires
            d * a <= n,
            n <= 2 * ONE * ONE,
            4 * d >= ONE,
            a >= 0,
    {
        if a > 8 * ONE {
            assert(4 * (d * a) >= ONE * a);
        }
    }
    assert(d * a == 2 * (alpha * q) && d * a + d == 2 * ((alpha + 1) * q)) by (nonlinear_arith)
        requires
            d == 2 * q,
            a == alpha,
    ;
}

/// Whether a section is tuned to a cosine, and as wide as a sine over twice its Q.
pub open spec fn tuned_to(
    c: BiquadCoefficients,
    cosine: PrcFmt,
    sine: PrcFmt,
    q: PrcFmt,
) -> bool {
    &&& apart(c.a1 * ONE, -(cosine * (ONE + c.a2))) <= 3 * ONE
    &&& apart(2 * (q * (ONE - c.a2)), sine * (ONE + c.a2)) <= 6 * q + sine
}

/// The poles of a second order section.
proof fn lemma_poles(cosine: PrcFmt, sine: PrcFmt, q: PrcFmt, alpha: PrcFmt, c: BiquadCoefficients)
    requires
        0 <= sine <= 2 * ONE,
        -2 * ONE <= cosine <= 2 * ONE,
        ONE <= 8 * q,
        q <= 0x1_0000_0000 * ONE,
        alpha == quot(sine, prod(whole(2), q)),
        c.a1 == quot(prod(whole(-2), cosine), sum(ONE, alpha)),
        c.a2 == quot(diff(ONE, alpha), sum(ONE, alpha)),
    ensures
        tuned_to(c, cosine, sine, q),
        0 <= alpha <= 8 * ONE,
        -ONE <= c.a2 <= ONE,
        ({
            let d = ONE + alpha;
            &&& -d < c.a1 * d + 2 * (cosine * ONE) < d
            &&& -d < c.a2 * d - (ONE - alpha) * ONE < d
        }),
{
    let (one, d) = (ONE as int, ONE + alpha);
    lemma_width(sine, q, alpha);
    lemma_doubled(cosine);
    lemma_quot_cuts((-2 * cosine) as PrcFmt, d as PrcFmt);
    lemma_quot_cuts((ONE - alpha) as PrcFmt, d as PrcFmt);
    let (a1, a2, co, si, qq, al) = (
        c.a1 as int,
        c.a2 as int,
        cosine as int,
        sine as int,
        q as int,
        alpha as int,
    );
    assert(-ONE <= a2 <= ONE) by (nonlinear_arith)
        requires
            -d < a2 * d - (one - al) * one < d,
            d == one + al,
            one == ONE,
            al >= 0,
    {
        if a2 > one {
            assert(a2 * d >= (one + 1) * d);
        }
        if a2 < -one {
            assert(a2 * d <= (-one - 1) * d);
            assert((one - al) * one >= -(d * one));
        }
    }
    let p = one + a2;
    assert(-d < p * d - 2 * (one * one) < d) by (nonlinear_arith)
        requires
            -d < a2 * d - (one - al) * one < d,
            d == one + al,
            p == one + a2,
    ;
    assert(-d * (3 * one) <= d * (a1 * one + co * p) <= d * (3 * one)) by (nonlinear_arith)
        requires
            -d < a1 * d + 2 * (co * one) < d,
            -d < p * d - 2 * (one * one) < d,
            -2 * one <= co <= 2 * one,
            d > 0,
            one > 0,
    {
        let u = a1 * d + 2 * (co * one);
        let w = p * d - 2 * (one * one);
        assert(d * (a1 * one + co * p) == one * u + co * w);
        assert(-(d * one) <= one * u <= d * one);
        assert(-(2 * one * d) <= co * w <= 2 * one * d) by {
            assert(co * w <= 2 * one * d);
            assert(co * w >= -(2 * one * d));
        }
    }
    assert(-(3 * one) <= a1 * one + co * p <= 3 * one) by (nonlinear_arith)
        requires
            -d * (3 * one) <= d * (a1 * one + co * p) <= d * (3 * one),
            d > 0,
    ;
    let m = one - a2;
    assert(-d < m * d - 2 * (al * one) < d) by (nonlinear_arith)
        requires
            -d < a2 * d - (one - al) * one < d,
            d == one + al,
            m == one - a2,
    ;
    let gap = 2 * (qq * m) - si * p;
    let most = 6 * qq + si;
    assert(-(d * most) <= d * gap <= d * most) by (nonlinear_arith)
        requires
            gap == 2 * (qq * m) - si * p,
            most == 6 * qq + si,
            -d < m * d - 2 * (al * one) < d,
            -d < p * d - 2 * (one * one) < d,
            2 * (al * qq) <= si * one < 2 * ((al + 1) * qq),
            d >= one,
            one > 0,
            si >= 0,
            qq > 0,
    {
        let u = m * d - 2 * (al * one);
        let w = p * d - 2 * (one * one);
        let v = si * one - 2 * (al * qq);
        assert(0 <= v < 2 * qq);
        assert(d * gap == 2 * (qq * u) - si * w - 2 * (one * v));
        assert(-(2 * (qq * d)) <= 2 * (qq * u) <= 2 * (qq * d));
        assert(-(si * d) <= si * w <= si * d);
        assert(0 <= 2 * (one * v) <= 4 * (one * qq));
        assert(one * qq <= d * qq);
    }
    assert(-most <= gap <= most) by (nonlinear_arith)
        requires
            -(d * most) <= d * gap <= d * most,
            d > 0,
    ;
}

/// A second order lowpass is tuned to its frequency and its Q. It lets constant sound through
/// as it is, and nothing at half of the sampling rate.
pub proof fn law_lowpass_is_what_it_is_called(samplerate: usize, freq: PrcFmt, q: PrcFmt)
    requires
        tunable(freq, q, samplerate),
    ensures
        ({
            let c = BiquadCoefficients::design(
                samplerate,
                BiquadParameters::Lowpass { freq, q },
            );
            let turns = turns_of(freq, samplerate);
            &&& tuned_to(c, cos_of(turns), sin_of(turns), q)
            &&& apart(c.b0 + c.b1 + c.b2, ONE + c.a1 + c.a2) <= 10
            &&& apart(c.b0 + c.b2, c.b1 as int) <= 10
        }),
{
    reveal(BiquadCoefficients::design);
    let turns = turns_of(freq, samplerate);
    let (co, si) = (cos_of(turns), sin_of(turns));
    let alpha = bandwidth(freq, q, samplerate);
    let c = BiquadCoefficients::design(samplerate, BiquadParameters::Lowpass { freq, q });
    lemma_poles(co, si, q, alpha, c);
    let d = ONE + alpha;
    let k = (ONE - co) as PrcFmt;
    let half = prod(k, HALF);
    assert(-1 <= 2 * half - k <= 1);
    lemma_quot_cuts(k, d as PrcFmt);
    lemma_quot_cuts(half, d as PrcFmt);
    let (b0, b1, a1, a2) = (c.b0 as int, c.b1 as int, c.a1 as int, c.a2 as int);
    let (x, y, z, w) = (b0 * d, b1 * d, a1 * d, a2 * d);
    let one = ONE as int;
    assert((2 * b0 - b1) * d == 2 * x - y) by (nonlinear_arith)
        requires
            x == b0 * d,
            y == b1 * d,
    ;
    assert((2 * b0 + b1 - one - a1 - a2) * d == 2 * x + y - one * d - z - w) by (nonlinear_arith)
        requires
            x == b0 * d,
            y == b1 * d,
            z == a1 * d,
            w == a2 * d,
    ;
    lemma_near_multiple(2 * b0 - b1, d, 4);
    lemma_near_multiple(2 * b0 + b1 - one - a1 - a2, d, 9);
}

/// A second order highpass is tuned to its frequency and its Q. It lets nothing constant
/// through, and sound at half of the sampling rate as it is.
pub proof fn law_highpass_is_what_it_is_called(samplerate: usize, freq: PrcFmt, q: PrcFmt)
    requires
        tunable(freq, q, samplerate),
    ensures
        ({
            let c = BiquadCoefficients::design(
                samplerate,
                BiquadParameters::Highpass { freq, q },
            );
            let turns = turns_of(freq, samplerate);
            &&& tuned_to(c, cos_of(turns), sin_of(turns), q)
            &&& apart(c.b0 - c.b1 + c.b2, ONE - c.a1 + c.a2) <= 10
            &&& apart(c.b0 + c.b2, -c.b1) <= 10
        }),
{
    reveal(BiquadCoefficients::design);
    let turns = turns_of(freq, samplerate);
    let (co, si) = (cos_of(turns), sin_of(turns));
    let alpha = bandwidth(freq, q, samplerate);
    let c = BiquadCoefficients::design(samplerate, BiquadParameters::Highpass { freq, q });
    lemma_poles(co, si, q, alpha, c);
    let d = ONE + alpha;
    let k = (ONE + co) as PrcFmt;
    let half = prod(k, HALF);
    assert(-1 <= 2 * half - k <= 1);
    lemma_quot_cuts(k, d as PrcFmt);
    lemma_quot_cuts(half, d as PrcFmt);
    let (b0, b1, a1, a2) = (c.b0 as int, -c.b1, c.a1 as int, c.a2 as int);
    let (x, y, z, w) = (b0 * d, b1 * d, a1 * d, a2 * d);
    let one = ONE as int;
    assert((2 * b0 - b1) * d == 2 * x - y) by (nonlinear_arith)
        requires
            x == b0 * d,
            y == b1 * d,
    ;
    assert((2 * b0 + b1 - one + a1 - a2) * d == 2 * x + y - one * d + z - w) by (nonlinear_arith)
        requires
            x == b0 * d,
            y == b1 * d,
            z == a1 * d,
            w == a2 * d,
    ;
    lemma_near_multiple(2 * b0 - b1, d, 4);
    lemma_near_multiple(2 * b0 + b1 - one + a1 - a2, d, 9);
}

/// A bandpass is tuned to its frequency and its Q. It lets nothing constant through, nothing at
/// half of the sampling rate, and sound at its frequency as it is: twice b0 is one less a2.
pub proof fn law_bandpass_is_what_it_is_called(samplerate: usize, freq: PrcFmt, q: PrcFmt)
    requires
        tunable(freq, q, samplerate),
    ensures
        ({
            let c = BiquadCoefficients::design(
                samplerate,
                BiquadParameters::Bandpass { freq, q },
            );
            let turns = turns_of(freq, samplerate);
            &&& tuned_to(c, cos_of(turns), sin_of(turns), q)
            &&& c.b1 == 0
            &&& c.b2 == -c.b0
            &&& 0 <= c.b0 <= ONE
            &&& apart(2 * c.b0, ONE - c.a2) <= 3
            &&& -ONE <= c.a2 <= ONE
        }),
{
    reveal(BiquadCoefficients::design);
    let turns = turns_of(freq, samplerate);
    let (co, si) = (cos_of(turns), sin_of(turns));
    let alpha = bandwidth(freq, q, samplerate);
    let c = BiquadCoefficients::design(samplerate, BiquadParameters::Bandpass { freq, q });
    lemma_poles(co, si, q, alpha, c);
    let d = ONE + alpha;
    lemma_quot_cuts(alpha, d as PrcFmt);
    lemma_quot_cuts(0, d as PrcFmt);
    lemma_quot_share(alpha, d as PrcFmt);
    let (b0, a2, one) = (c.b0 as int, c.a2 as int, ONE as int);
    let (x, w) = (b0 * d, a2 * d);
    assert((2 * b0 - one + a2) * d == 2 * x - one * d + w) by (nonlinear_arith)
        requires
            x == b0 * d,
            w == a2 * d,
    ;
    lemma_near_multiple(2 * b0 - one + a2, d, 3);
}

/// A larger Q makes a narrower bandpass, which lets no more through off its centre: of two
/// bandpasses of the same frequency, the one with the larger Q has no larger b0.
pub proof fn law_larger_q_is_narrower(samplerate: usize, freq: PrcFmt, q: PrcFmt, p: PrcFmt)
    requires
        tunable(freq, q, samplerate),
        tunable(freq, p, samplerate),
        q <= p,
    ensures
        BiquadCoefficients::design(samplerate, BiquadParameters::Bandpass { freq, q: p }).b0
            <= BiquadCoefficients::design(samplerate, BiquadParameters::Bandpass { freq, q }).b0,
{
    reveal(BiquadCoefficients::design);
    let (wide, narrow) = (bandwidth(freq, q, samplerate), bandwidth(freq, p, samplerate));
    let si = sin_of(turns_of(freq, samplerate));
    lemma_width(si, q, wide);
    lemma_width(si, p, narrow);
    let (a, b) = (wide as int, narrow as int);
    assert(b <= a) by (nonlinear_arith)
        requires
            2 * (b * p) <= si * ONE,
            si * ONE < 2 * ((a + 1) * q),
            0 < q <= p,
            b >= 0,
    {
        assert(b * q <= b * p);
        assert(b * q < (a + 1) * q);
    }
    reveal(quot);
    let (m, n) = (b * ONE, a * ONE);
    let (d, e) = (ONE + b, ONE + a);
    let (x, y) = (m / d, n / e);
    vstd::arithmetic::div_mod::lemma_fundamental_div_mod(m, d);
    vstd::arithmetic::div_mod::lemma_mod_bound(m, d);
    vstd::arithmetic::div_mod::lemma_fundamental_div_mod(n, e);
    vstd::arithmetic::div_mod::lemma_mod_bound(n, e);
    assert(x <= y) by (nonlinear_arith)
        requires
            d * x <= m,
            n < e * y + e,
            m == b * ONE,
            n == a * ONE,
            d == ONE + b,
            e == ONE + a,
            0 <= b <= a,
    {
        if x >= y + 1 {
            assert(m * e <= n * d);
            assert((d * x) * e <= m * e);
            assert(n * d < (e * (y + 1)) * d);
            assert((e * d) * x < (e * d) * (y + 1));
        }
    }
    lemma_quot_cuts(narrow, d as PrcFmt);
    lemma_quot_cuts(wide, e as PrcFmt);
    if m == 0 {
        vstd::arithmetic::div_mod::lemma_div_of0(d);
    }
    if n == 0 {
        vstd::arithmetic::div_mod::lemma_div_of0(e);
    }
}

/// A number whose product with a large one is small is small.
proof fn lemma_near_multiple(v: int, d: int, most: int)
    requires
        d > 0,
        -(most * d) <= v * d <= most * d,
    ensures
        -most <= v <= most,
{
    assert(-most <= v <= most) by (nonlinear_arith)
        requires
            d > 0,
            -(most * d) <= v * d <= most * d,
    ;
}

/// Powers that a bandpass is given and lets through, at the frequency with cosine `x / n` and
/// sine `y / n`, both on one scale.
pub open spec fn given(c: BiquadCoefficients, x: int, y: int, n: int) -> int {
    let (e, w) = ((ONE + c.a2) * x + c.a1 * n, (ONE - c.a2) * y);
    e * e + w * w
}

/// See [`given`].
pub open spec fn let_through(c: BiquadCoefficients, y: int) -> int {
    (2 * (c.b0 * y)) * (2 * (c.b0 * y))
}

/// The half-power band of a bandpass is the centre over Q wide. In terms of angles: at least
/// half of the power comes through where the cosine is off that of the centre by no more than
/// the product of the sines over 2Q, and at most half where it is off by more. Both hold up to
/// one part in a hundred.
pub proof fn law_half_power_band_is_the_centre_over_q(
    samplerate: usize,
    freq: PrcFmt,
    q: PrcFmt,
    x: int,
    y: int,
    n: int,
)
    requires
        tunable(freq, q, samplerate),
        0 <= y <= n,
        ({
            let c = BiquadCoefficients::design(
                samplerate,
                BiquadParameters::Bandpass { freq, q },
            );
            (ONE - c.a2) * y >= 0x10_0000 * n
        }),
        n > 0,
    ensures
        ({
            let c = BiquadCoefficients::design(
                samplerate,
                BiquadParameters::Bandpass { freq, q },
            );
            let turns = turns_of(freq, samplerate);
            let off = 2 * (q * apart(x * ONE, cos_of(turns) * n));
            let reach = sin_of(turns) * (y * ONE);
            &&& 101 * off <= 100 * reach ==> 2 * let_through(c, y) >= given(c, x, y, n)
            &&& 100 * off >= 101 * reach ==> 2 * let_through(c, y) <= given(c, x, y, n)
        }),
{
    law_bandpass_is_what_it_is_called(samplerate, freq, q);
    let c = BiquadCoefficients::design(samplerate, BiquadParameters::Bandpass { freq, q });
    let turns = turns_of(freq, samplerate);
    let (co, si, one) = (cos_of(turns) as int, sin_of(turns) as int, ONE as int);
    let (p, m, b, a1) = (one + c.a2, one - c.a2, 2 * c.b0, c.a1 as int);
    let gap = apart(x * one, co * n);
    let e = p * x + a1 * n;
    // How far the poles are, against the cosine that they are tuned to.
    let dev = if x * one >= co * n {
        x * one - co * n
    } else {
        co * n - x * one
    };
    assert(gap == dev);
    let size = if e >= 0 {
        e
    } else {
        -e
    };
    let slip = a1 * one + co * p;
    assert(e * one == p * (x * one - co * n) + slip * n) by (nonlinear_arith)
        requires
            e == p * x + a1 * n,
            slip == a1 * one + co * p,
    ;
    assert(apart(size * one, p * gap) <= 3 * (one * n)) by {
        assert(-(3 * (one * n)) <= slip * n <= 3 * (one * n)) by (nonlinear_arith)
            requires
                -(3 * one) <= slip <= 3 * one,
                n > 0,
        ;
        assert(p * (x * one - co * n) == p * gap || p * (x * one - co * n) == -(p * gap))
            by (nonlinear_arith)
            requires
                gap == x * one - co * n || gap == co * n - x * one,
        ;
        assert(p * gap >= 0) by (nonlinear_arith)
            requires
                p >= 0,
                gap >= 0,
        ;
        assert(size * one == e * one || size * one == -(e * one)) by (nonlinear_arith)
            requires
                size == e || size == -e,
        ;
        assert(size * one >= 0) by (nonlinear_arith)
            requires
                size >= 0,
                one >= 0,
        ;
    }
    // How wide they are, against the sine over 2Q.
    let (qq, w) = (q as int, m * y);
    let off = 2 * (qq * gap);
    let reach = si * (y * one);
    assert(m >= 0x10_0000) by (nonlinear_arith)
        requires
            m * y >= 0x10_0000 * n,
            0 <= y <= n,
            n > 0,
    {
        if m < 0x10_0000 {
            if m >= 0 {
                assert(m * y <= m * n);
            } else {
                assert(m * y <= 0);
            }
        }
    }
    assert(w >= 0x10_0000 * n);
    let v = b * y;
    assert((1000 * v) >= 999 * w && 1000 * v <= 1001 * w) by (nonlinear_arith)
        requires
            v == b * y,
            w == m * y,
            -3 <= b - m <= 3,
            m >= 0x10_0000,
            y >= 0,
    {
        assert(-3 * y <= (b - m) * y <= 3 * y);
        assert(0x10_0000 * y <= m * y);
    }
    assert(2 * (c.b0 * y) == v) by (nonlinear_arith)
        requires
            v == b * y,
            b == 2 * c.b0,
    ;
    if 101 * off <= 100 * reach {
        lemma_inside(size, w, n, y, gap, p, m, qq, si, one);
        assert(size * size == e * e) by (nonlinear_arith)
            requires
                size == e || size == -e,
        ;
        assert(2 * (v * v) >= size * size + w * w) by (nonlinear_arith)
            requires
                1000 * v >= 999 * w,
                1000 * size <= 995 * w,
                w >= 0,
                size >= 0,
        {
            assert((1000 * v) * (1000 * v) >= (999 * w) * (999 * w));
            assert((1000 * size) * (1000 * size) <= (995 * w) * (995 * w));
        }
    }
    if 100 * off >= 101 * reach {
        lemma_outside(size, w, n, y, gap, p, m, qq, si, one);
        assert(size * size == e * e) by (nonlinear_arith)
            requires
                size == e || size == -e,
        ;
        assert(2 * (v * v) <= size * size + w * w) by (nonlinear_arith)
            requires
                1000 * v <= 1001 * w,
                1000 * size >= 1005 * w,
                w >= 0,
                v >= 0,
                size >= 0,
        {
            assert((1000 * v) * (1000 * v) <= (1001 * w) * (1001 * w));
            assert((1000 * size) * (1000 * size) >= (1005 * w) * (1005 * w));
        }
    }
}

/// What a width makes of a distance, on both scales.
proof fn lemma_reach(y: int, p: int, m: int, q: int, si: int, one: int)
    requires
        y >= 0,
        8 * q >= one,
        0 <= si <= 2 * one,
        apart(2 * (q * m), si * p) <= 6 * q + si,
        one > 0,
    ensures
        2 * (q * ((m - 11) * y)) <= (si * p) * y <= 2 * (q * ((m + 11) * y)),
{
    assert(2 * (q * (m - 11)) <= si * p <= 2 * (q * (m + 11))) by (nonlinear_arith)
        requires
            -(6 * q + si) <= 2 * (q * m) - si * p <= 6 * q + si,
            8 * q >= one,
            0 <= si <= 2 * one,
    {
        assert(2 * (q * (m - 11)) == 2 * (q * m) - 22 * q);
        assert(2 * (q * (m + 11)) == 2 * (q * m) + 22 * q);
    }
    assert(2 * (q * ((m - 11) * y)) == (2 * (q * (m - 11))) * y) by (nonlinear_arith);
    assert(2 * (q * ((m + 11) * y)) == (2 * (q * (m + 11))) * y) by (nonlinear_arith);
    let (low, mid, high) = (2 * (q * (m - 11)), si * p, 2 * (q * (m + 11)));
    assert(low * y <= mid * y <= high * y) by (nonlinear_arith)
        requires
            low <= mid <= high,
            y >= 0,
    ;
}

proof fn lemma_inside(
    size: int,
    w: int,
    n: int,
    y: int,
    gap: int,
    p: int,
    m: int,
    q: int,
    si: int,
    one: int,
)
    requires
        w == m * y,
        w >= 0x10_0000 * n,
        0 <= y <= n,
        n > 0,
        gap >= 0,
        p >= 0,
        8 * q >= one,
        0 <= si <= 2 * one,
        one > 0,
        apart(size * one, p * gap) <= 3 * (one * n),
        apart(2 * (q * m), si * p) <= 6 * q + si,
        101 * (2 * (q * gap)) <= 100 * (si * (y * one)),
    ensures
        1000 * size <= 995 * w,
{
    lemma_reach(y, p, m, q, si, one);
    let (z, far) = ((m + 11) * y, p * gap);
    assert(q > 0);
    assert(101 * far <= 100 * (z * one)) by (nonlinear_arith)
        requires
            101 * (2 * (q * gap)) <= 100 * (si * (y * one)),
            (si * p) * y <= 2 * (q * z),
            far == p * gap,
            p >= 0,
            q > 0,
            one > 0,
    {
        assert(p * (101 * (2 * (q * gap))) <= p * (100 * (si * (y * one))));
        assert(p * (101 * (2 * (q * gap))) == (2 * q) * (101 * far));
        assert(p * (100 * (si * (y * one))) == (100 * one) * ((si * p) * y));
        assert((100 * one) * ((si * p) * y) <= (100 * one) * (2 * (q * z)));
        assert((100 * one) * (2 * (q * z)) == (2 * q) * (100 * (z * one)));
    }
    assert(z == w + 11 * y) by (nonlinear_arith)
        requires
            z == (m + 11) * y,
            w == m * y,
    ;
    assert(101 * (size * one) <= (100 * z + 303 * n) * one) by (nonlinear_arith)
        requires
            101 * far <= 100 * (z * one),
            size * one - far <= 3 * (one * n),
    ;
    assert(101 * size <= 100 * z + 303 * n) by (nonlinear_arith)
        requires
            101 * (size * one) <= (100 * z + 303 * n) * one,
            one > 0,
    ;
}

proof fn lemma_outside(
    size: int,
    w: int,
    n: int,
    y: int,
    gap: int,
    p: int,
    m: int,
    q: int,
    si: int,
    one: int,
)
    requires
        w == m * y,
        w >= 0x10_0000 * n,
        0 <= y <= n,
        n > 0,
        gap >= 0,
        p >= 0,
        8 * q >= one,
        0 <= si <= 2 * one,
        one > 0,
        apart(size * one, p * gap) <= 3 * (one * n),
        apart(2 * (q * m), si * p) <= 6 * q + si,
        100 * (2 * (q * gap)) >= 101 * (si * (y * one)),
    ensures
        1000 * size >= 1005 * w,
{
    lemma_reach(y, p, m, q, si, one);
    let (z, far) = ((m - 11) * y, p * gap);
    assert(q > 0);
    assert(100 * far >= 101 * (z * one)) by (nonlinear_arith)
        requires
            100 * (2 * (q * gap)) >= 101 * (si * (y * one)),
            (si * p) * y >= 2 * (q * z),
            far == p * gap,
            p >= 0,
            q > 0,
            one > 0,
    {
        assert(p * (100 * (2 * (q * gap))) >= p * (101 * (si * (y * one))));
        assert(p * (100 * (2 * (q * gap))) == (2 * q) * (100 * far));
        assert(p * (101 * (si * (y * one))) == (101 * one) * ((si * p) * y));
        assert((101 * one) * ((si * p) * y) >= (101 * one) * (2 * (q * z)));
        assert((101 * one) * (2 * (q * z)) == (2 * q) * (101 * (z * one)));
    }
    assert(z == w - 11 * y) by (nonlinear_arith)
        requires
            z == (m - 11) * y,
            w == m * y,
    ;
    assert(100 * (size * one) >= (101 * z - 300 * n) * one) by (nonlinear_arith)
        requires
            100 * far >= 101 * (z * one),
            far - size * one <= 3 * (one * n),
    ;
    assert(100 * size >= 101 * z - 300 * n) by (nonlinear_arith)
        requires
            100 * (size * one) >= (101 * z - 300 * n) * one,
            one > 0,
    ;
}

/// A first order highpass lets nothing constant through, and sound at half of the sampling
/// rate as it is. Its corner is where it says: of one, b0 leaves as much as the tangent of half
/// the angle is of b0.
pub proof fn law_first_order_highpass_is_what_it_is_called(samplerate: usize, freq: PrcFmt)
    requires
        0 <= warped(freq, samplerate) <= 0x40 * ONE,
    ensures
        ({
            let c = BiquadCoefficients::design(samplerate, BiquadParameters::HighpassFO { freq });
            let k = warped(freq, samplerate);
            &&& c.a2 == 0
            &&& c.b2 == 0
            &&& c.b1 == -c.b0
            &&& apart(2 * c.b0, ONE - c.a1) <= 3
            &&& apart(k * c.b0, (ONE - c.b0) * ONE) <= ONE + k
        }),
{
    reveal(BiquadCoefficients::design);
    let k = warped(freq, samplerate);
    let d = ONE + k;
    lemma_first_order(k, ONE);
    let c = BiquadCoefficients::design(samplerate, BiquadParameters::HighpassFO { freq });
    let (b0, one) = (c.b0 as int, ONE as int);
    assert((one + k) * b0 == one * b0 + k * b0) by (nonlinear_arith);
    assert(b0 * d == (one + k) * b0) by (nonlinear_arith)
        requires
            d == one + k,
    ;
    let (x, w) = (b0 * d, c.a1 * d);
    assert((2 * b0 - one + c.a1) * d == 2 * x - one * d + w) by (nonlinear_arith)
        requires
            x == b0 * d,
            w == c.a1 * d,
    ;
    let pole = quot((ONE - k) as PrcFmt, d as PrcFmt) as int;
    assert(c.a1 * d == -(pole * d)) by (nonlinear_arith)
        requires
            c.a1 == -pole,
    ;
    lemma_near_multiple(2 * b0 - one + c.a1, d, 3);
}

/// A first order lowpass lets constant sound through as it is, and nothing at half of the
/// sampling rate. Its corner is where it says: b0 is to the rest of one as the tangent of half
/// the angle.
pub proof fn law_first_order_lowpass_is_what_it_is_called(samplerate: usize, freq: PrcFmt)
    requires
        0 <= warped(freq, samplerate) <= 0x40 * ONE,
    ensures
        ({
            let c = BiquadCoefficients::design(samplerate, BiquadParameters::LowpassFO { freq });
            let k = warped(freq, samplerate);
            &&& c.a2 == 0
            &&& c.b2 == 0
            &&& c.b1 == c.b0
            &&& apart(2 * c.b0, ONE + c.a1) <= 3
            &&& apart(k * (ONE - c.b0), c.b0 * ONE) <= ONE + k
        }),
{
    reveal(BiquadCoefficients::design);
    let k = warped(freq, samplerate);
    let d = ONE + k;
    lemma_first_order(k, k);
    let c = BiquadCoefficients::design(samplerate, BiquadParameters::LowpassFO { freq });
    let (b0, one) = (c.b0 as int, ONE as int);
    assert(b0 * d == one * b0 + k * b0 && k * (one - b0) == k * one - k * b0) by (nonlinear_arith)
        requires
            d == one + k,
    ;
    let (x, w) = (b0 * d, c.a1 * d);
    assert((2 * b0 - one - c.a1) * d == 2 * x - one * d - w) by (nonlinear_arith)
        requires
            x == b0 * d,
            w == c.a1 * d,
    ;
    let pole = quot((ONE - k) as PrcFmt, d as PrcFmt) as int;
    assert(c.a1 * d == -(pole * d)) by (nonlinear_arith)
        requires
            c.a1 == -pole,
    ;
    lemma_near_multiple(2 * b0 - one - c.a1, d, 3);
}

/// The quotients of a first order section, each over one once more.
proof fn lemma_first_order(k: PrcFmt, top: PrcFmt)
    requires
        0 <= k <= 0x40 * ONE,
        0 <= top <= 0x40 * ONE,
    ensures
        ({
            let d = (ONE + k) as PrcFmt;
            let (pole, zero) = (quot((ONE - k) as PrcFmt, d), quot(top, d));
            &&& -d < pole * d - (ONE - k) * ONE < d
            &&& -d < zero * d - top * ONE < d
            &&& quot(negated(pole), ONE) == -pole
            &&& quot(zero, ONE) == zero
            &&& quot((-top) as PrcFmt, d) == -zero
            &&& quot((-zero) as PrcFmt, ONE) == -zero
            &&& quot(0, ONE) == 0
        }),
{
    let d = (ONE + k) as PrcFmt;
    lemma_quot_cuts((ONE - k) as PrcFmt, d);
    lemma_quot_cuts((k - ONE) as PrcFmt, d);
    lemma_quot_cuts(top, d);
    let (pole, zero) = (quot((ONE - k) as PrcFmt, d), quot(top, d));
    reveal(quot);
    vstd::arithmetic::div_mod::lemma_div_by_multiple(zero as int, ONE as int);
    if pole >= 0 {
        vstd::arithmetic::div_mod::lemma_div_by_multiple(pole as int, ONE as int);
    } else {
        vstd::arithmetic::div_mod::lemma_div_by_multiple(-pole, ONE as int);
    }
}

} // verus!
