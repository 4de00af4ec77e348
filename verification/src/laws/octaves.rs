//! Octaves and decibels: sums on one side are products on the other.
use crate::decibels::{
    exp2_fraction, exp2_of, exponent, lemma_exp2_fraction, lemma_exp2_in_range,
    lemma_mantissa_bounds, level_db_of, linear_of, log2_of, mantissa, OCTAVES_PER_DB,
    POWER_DB_PER_OCTAVE, POWER_FLOOR,
};
use crate::fixed::{prod, sum, PrcFmt, ONE};
use crate::laws::accuracy::{fraction_digits, law_exp2_is_accurate, law_log2_is_accurate, SCALE};
use crate::laws::reference::apart;
use crate::laws::timing::{lemma_pow_next, lemma_pow_strict};
use vstd::arithmetic::power::{
    lemma_pow0, lemma_pow_distributes, lemma_pow_multiplies, lemma_pow_positive, pow,
};
use vstd::arithmetic::power2::{
    lemma2_to64, lemma2_to64_rest, lemma_pow2, lemma_pow2_adds, lemma_pow2_pos, lemma_pow2_unfold,
    pow2,
};
use vstd::prelude::*;

verus! {

/// A number is its octave and what is left of it.
proof fn lemma_octave(t: PrcFmt)
    ensures
        ({
            let (o, r) = (t as int / ONE as int, t as int % ONE as int);
            &&& t == o * ONE + r
            &&& 0 <= r < ONE
        }),
{
    vstd::arithmetic::div_mod::lemma_fundamental_div_mod(t as int, ONE as int);
    vstd::arithmetic::div_mod::lemma_mod_bound(t as int, ONE as int);
}

/// One octave more doubles an exponential, wherever no digit of it is cut off.
pub proof fn law_octave_doubles(t: PrcFmt)
    requires
        -18 * ONE <= t < 46 * ONE,
    ensures
        exp2_of((t + ONE) as PrcFmt) == 2 * exp2_of(t),
{
    reveal(exp2_of);
    let s = (t + ONE) as PrcFmt;
    let octave = t as int / ONE as int;
    lemma_octave(t);
    vstd::arithmetic::div_mod::lemma_fundamental_div_mod_converse(
        s as int,
        ONE as int,
        octave + 1,
        t as int % ONE as int,
    );
    assert(-18 <= octave < 46);
    lemma_exp2_in_range(t);
    lemma_exp2_in_range(s);
    let f = exp2_fraction(t);
    assert(exp2_fraction(s) == f);
    lemma_pow2_unfold((octave + 19) as nat);
    let p = pow2((octave + 18) as nat) as int;
    assert(f * (2 * p) == 2 * (f * p)) by (nonlinear_arith);
}

/// So it does below, up to a step, and above the range an exponential is held at its end.
pub proof fn law_octave_doubles_small_numbers(t: PrcFmt)
    requires
        -0x1_0000 * ONE <= t,
    ensures
        t < -18 * ONE ==> 2 * exp2_of(t) <= exp2_of((t + ONE) as PrcFmt) <= 2 * exp2_of(t) + 1,
        t >= 47 * ONE ==> exp2_of(t) == i128::MAX,
{
    reveal(exp2_of);
    lemma_octave(t);
    let octave = t as int / ONE as int;
    if t < -18 * ONE {
        let s = (t + ONE) as PrcFmt;
        vstd::arithmetic::div_mod::lemma_fundamental_div_mod_converse(
            s as int,
            ONE as int,
            octave + 1,
            t as int % ONE as int,
        );
        assert(octave < -18);
        lemma_exp2_in_range(t);
        lemma_exp2_in_range(s);
        lemma_exp2_fraction(t);
        let f = exp2_fraction(t);
        assert(exp2_fraction(s) == f);
        let p = pow2((-19 - octave) as nat) as int;
        lemma_pow2_unfold((-18 - octave) as nat);
        lemma_pow2_pos((-19 - octave) as nat);
        assert(f / p >= 2 * (f / (2 * p)) && f / p <= 2 * (f / (2 * p)) + 1) by (nonlinear_arith)
            requires
                f >= 0,
                p > 0,
        {
            let (q, r) = (f / (2 * p), f % (2 * p));
            assert(f == q * (2 * p) + r && 0 <= r < 2 * p);
            let (a, b) = (f / p, f % p);
            assert(f == a * p + b && 0 <= b < p);
            assert(a * p > (2 * q - 1) * p);
            assert(a * p < (2 * q + 2) * p);
        }
        assert(exp2_of(t) == f / (2 * p));
        if octave == -19 {
            lemma2_to64();
            assert(p == 1);
            assert(f * p == f && f / p == f) by (nonlinear_arith)
                requires
                    p == 1,
            ;
        }
        assert(exp2_of(s) == f / p);
    } else if t >= 47 * ONE {
        assert(octave >= 47);
    }
}

/// A number twice as large is one octave higher.
pub proof fn law_doubled_is_an_octave_higher(x: PrcFmt)
    requires
        x > 0,
        2 * x <= i128::MAX,
    ensures
        log2_of((2 * x) as PrcFmt) == log2_of(x) + ONE,
{
    let (n, d) = (x as int, 2 * x);
    law_log2_is_accurate(x);
    law_log2_is_accurate(d as PrcFmt);
    lemma_mantissa_bounds(x);
    lemma_mantissa_bounds(d as PrcFmt);
    let e = exponent(n);
    assert(d / 2 == n);
    assert(exponent(d) == e + 1);
    lemma_pow2_unfold((126 - e) as nat);
    let p = pow2((125 - e) as nat) as int;
    assert(d * p == n * (2 * p)) by (nonlinear_arith)
        requires
            d == 2 * n,
    ;
    assert(mantissa(d) == mantissa(n));
}

/// Twice the power is three decibels more: ten times the decimal logarithm of two.
pub proof fn law_doubled_power_is_three_decibels_more(power: PrcFmt)
    requires
        0 <= power,
        2 * (power + POWER_FLOOR) <= i128::MAX,
    ensures
        ({
            let twice = (2 * power + POWER_FLOOR) as PrcFmt;
            apart(
                10000 * (level_db_of(twice) - level_db_of(power)),
                30103 * ONE,
            ) <= ONE
        }),
{
    let s = sum(power, POWER_FLOOR);
    law_doubled_is_an_octave_higher(s);
    law_log2_is_accurate(s);
    lemma_mantissa_bounds(s);
    let (l, k) = (log2_of(s) as int, POWER_DB_PER_OCTAVE as int);
    assert((l + ONE) * k == l * k + ONE * k) by (nonlinear_arith);
    assert(-81 * ONE <= l <= 81 * ONE);
    assert(-81 * (ONE * k) <= l * k <= 81 * (ONE * k)) by (nonlinear_arith)
        requires
            -81 * ONE <= l <= 81 * ONE,
            k > 0,
    ;
}

/// A little more, raised to a high power, is twice as much.
proof fn lemma_doubling(g: int, x: int, n: nat)
    requires
        g > 0,
        x >= 0,
        n * x >= g,
        n > 0,
    ensures
        2 * pow(g, n) <= pow(g + x, n),
{
    lemma_bernoulli(g, x, n);
    let p = pow(g, n);
    lemma_pow_positive(g, n);
    assert(g * pow(g + x, n) >= g * (2 * p)) by (nonlinear_arith)
        requires
            g * pow(g + x, n) >= p * (g + n * x),
            n * x >= g,
            p > 0,
    ;
    assert(pow(g + x, n) >= 2 * p) by (nonlinear_arith)
        requires
            g * pow(g + x, n) >= g * (2 * p),
            g > 0,
    ;
}

proof fn lemma_bernoulli(g: int, x: int, n: nat)
    requires
        g > 0,
        x >= 0,
    ensures
        g * pow(g + x, n) >= pow(g, n) * (g + n * x),
    decreases n,
{
    lemma_pow_positive(g, n);
    if n == 0 {
        lemma_pow0(g);
        lemma_pow0(g + x);
    } else {
        let k = (n - 1) as nat;
        lemma_bernoulli(g, x, k);
        lemma_pow_next(g, k);
        lemma_pow_next(g + x, k);
        lemma_pow_positive(g, k);
        let (p, q) = (pow(g, k), pow(g + x, k));
        assert(g * ((g + x) * q) >= (g * p) * (g + n * x)) by (nonlinear_arith)
            requires
                g * q >= p * (g + k * x),
                n == k + 1,
                g > 0,
                x >= 0,
                p > 0,
                k >= 0,
        {
            assert((g + x) * (g * q) >= (g + x) * (p * (g + k * x)));
            assert((g + x) * (g + k * x) >= g * (g + n * x)) by {
                assert((g + x) * (g + k * x) == g * (g + n * x) + k * (x * x));
                assert(k * (x * x) >= 0);
            }
            assert((g + x) * (p * (g + k * x)) == p * ((g + x) * (g + k * x)));
            assert(p * ((g + x) * (g + k * x)) >= p * (g * (g + n * x)));
        }
    }
}

/// The fractions of exponentials whose exponents add up.
proof fn lemma_fractions(f: int, g: int, h: int, d: nat, e: nat, c: nat, k: nat)
    requires
        SCALE <= f < 2 * SCALE,
        SCALE <= g < 2 * SCALE,
        SCALE <= h < 2 * SCALE,
        ({
            let (n, s) = (pow2(48), SCALE as int);
            &&& pow(f, n) <= pow2(d) * pow(s, n) <= pow(f + 384, n)
            &&& pow(g, n) <= pow2(e) * pow(s, n) <= pow(g + 384, n)
            &&& pow(h, n) <= pow2(c) * pow(s, n) <= pow(h + 384, n)
            &&& d + e + n - 1 <= c + k * n <= d + e + n + 1
        }),
    ensures
        2 * (f * g) <= pow2(k) * SCALE * (h + 0x2_0000),
        pow2(k) * SCALE * h <= 2 * ((f + 384) * (g + 0x2_0000)),
{
    let (n, s) = (pow2(48), SCALE as int);
    lemma2_to64();
    lemma2_to64_rest();
    assert(n == 0x1_0000_0000_0000);
    let q = pow2(k) as int;
    lemma_pow2_pos(k);
    let z = pow(s, n);
    lemma_pow_positive(s, n);
    lemma_pow2_pos(d);
    lemma_pow2_pos(e);
    lemma_pow2_pos(c);
    // Two, and two to the power k, raised.
    lemma_pow2(n);
    lemma_pow2(k);
    lemma_pow_multiplies(2, k, n);
    lemma_pow2(k * n);
    assert(pow(q, n) == pow2(k * n));
    assert(pow(2, n) == pow2(n));
    let (pd, pe, pc, pn, pk) = (
        pow2(d) as int,
        pow2(e) as int,
        pow2(c) as int,
        pow2(n) as int,
        pow2(k * n) as int,
    );
    lemma_pow2_adds(d, e);
    lemma_pow2_adds(d + e, n);
    lemma_pow2_adds(c, k * n);
    lemma_pow2_pos(n);
    lemma_pow2_pos(k * n);
    lemma_sums_of_exponents(d + e + n, c + k * n);
    let (u, v) = (pow2(d + e + n) as int, pow2(c + k * n) as int);
    assert(u == (pd * pe) * pn && v == pc * pk);
    assert(u <= 2 * v && v <= 2 * u);
    let (x, y, w) = (pow(f, n), pow(g, n), pow(h, n));
    lemma_pow_positive(f, n);
    lemma_pow_positive(g, n);
    lemma_pow_positive(h, n);
    // One side.
    let hh = pow(h + 384, n);
    let top = pow(h + 0x2_0000, n);
    lemma_doubling(h + 384, 0x2_0000 - 384, n);
    assert(2 * hh <= top);
    assert(pow(2 * (f * g), n) <= pow(q * s * (h + 0x2_0000), n)) by {
        lemma_pow_distributes(f, g, n);
        lemma_pow_distributes(2, f * g, n);
        lemma_pow_distributes(q, s, n);
        lemma_pow_distributes(q * s, h + 0x2_0000, n);
        assert(pn * (x * y) <= u * (z * z)) by (nonlinear_arith)
            requires
                0 <= x <= pd * z,
                0 <= y <= pe * z,
                u == (pd * pe) * pn,
                pn > 0,
                z > 0,
        {
            assert(x * y <= (pd * z) * (pe * z));
            assert(pn * (x * y) <= pn * ((pd * z) * (pe * z)));
            assert(pn * ((pd * z) * (pe * z)) == ((pd * pe) * pn) * (z * z));
        }
        assert(u * (z * z) <= (pk * z) * top) by (nonlinear_arith)
            requires
                u <= 2 * v,
                v == pc * pk,
                pc * z <= hh,
                2 * hh <= top,
                pk > 0,
                z > 0,
        {
            assert(u * (z * z) <= (2 * (pc * pk)) * (z * z));
            assert((2 * (pc * pk)) * (z * z) == (pk * z) * (2 * (pc * z)));
            assert((pk * z) * (2 * (pc * z)) <= (pk * z) * top);
        }
    }
    let (a, b) = (2 * (f * g), q * s * (h + 0x2_0000));
    assert(a <= b) by {
        if b < a {
            assert(b >= 0) by (nonlinear_arith)
                requires
                    b == q * s * (h + 0x2_0000),
                    q > 0,
                    s > 0,
                    h > 0,
            ;
            lemma_pow_strict(b, a, n);
        }
    }
    // The other.
    let (ff, gg) = (pow(f + 384, n), pow(g + 384, n));
    let rim = pow(g + 0x2_0000, n);
    lemma_doubling(g + 384, 0x2_0000 - 384, n);
    lemma_pow_positive(f + 384, n);
    assert(2 * gg <= rim);
    assert(pow(q * s * h, n) <= pow(2 * ((f + 384) * (g + 0x2_0000)), n)) by {
        lemma_pow_distributes(q, s, n);
        lemma_pow_distributes(q * s, h, n);
        lemma_pow_distributes(f + 384, g + 0x2_0000, n);
        lemma_pow_distributes(2, (f + 384) * (g + 0x2_0000), n);
        assert((pk * z) * w <= (2 * u) * (z * z)) by (nonlinear_arith)
            requires
                v <= 2 * u,
                v == pc * pk,
                w <= pc * z,
                pk > 0,
                z > 0,
        {
            assert((pk * z) * w <= (pk * z) * (pc * z));
            assert((pk * z) * (pc * z) == (pc * pk) * (z * z));
            assert((pc * pk) * (z * z) <= (2 * u) * (z * z));
        }
        assert((2 * u) * (z * z) <= pn * (ff * rim)) by (nonlinear_arith)
            requires
                u == (pd * pe) * pn,
                0 <= pd * z <= ff,
                0 <= pe * z <= gg,
                2 * gg <= rim,
                pn > 0,
                ff > 0,
        {
            assert((2 * ((pd * pe) * pn)) * (z * z) == pn * ((pd * z) * (2 * (pe * z))));
            assert((pd * z) * (2 * (pe * z)) <= ff * rim);
        }
    }
    let (i, j) = (q * s * h, 2 * ((f + 384) * (g + 0x2_0000)));
    assert(i <= j) by {
        if j < i {
            assert(j >= 0) by (nonlinear_arith)
                requires
                    j == 2 * ((f + 384) * (g + 0x2_0000)),
                    f > 0,
                    g > 0,
            ;
            lemma_pow_strict(j, i, n);
        }
    }
}

proof fn lemma_sums_of_exponents(a: nat, b: nat)
    requires
        a - 1 <= b <= a + 1,
    ensures
        pow2(a) <= 2 * pow2(b),
        pow2(b) <= 2 * pow2(a),
{
    lemma_pow2_unfold(a + 1);
    lemma_pow2_unfold(b + 1);
}

/// The digits of exponents that add up, up to a step, add up with their octaves.
proof fn lemma_digits_add_up(t: PrcFmt, u: PrcFmt, v: PrcFmt, k: int)
    requires
        -1 <= v - t - u <= 1,
        k == v as int / ONE as int - t as int / ONE as int - u as int / ONE as int + 1,
    ensures
        ({
            let n = 0x1_0000_0000_0000int;
            let (d, e, c) = (fraction_digits(t), fraction_digits(u), fraction_digits(v));
            &&& 0 <= d < n && 0 <= e < n && 0 <= c < n
            &&& d + e + n - 1 <= c + k * n <= d + e + n + 1
        }),
        0 <= k <= 2,
{
    lemma_octave(t);
    lemma_octave(u);
    lemma_octave(v);
    let (a, b, c) = (
        t as int % ONE as int,
        u as int % ONE as int,
        v as int % ONE as int,
    );
    let (o, p, q) = (
        t as int / ONE as int,
        u as int / ONE as int,
        v as int / ONE as int,
    );
    assert(k * ONE == q * ONE - o * ONE - p * ONE + ONE) by (nonlinear_arith)
        requires
            k == q - o - p + 1,
    ;
    let w = 0x1_0000_0000int;
    assert(w * (a / w) <= a < w * (a / w) + w);
    assert(w * (b / w) <= b < w * (b / w) + w);
    assert(w * (c / w) <= c < w * (c / w) + w);
}

/// The exponentials of exponents that add up, up to a step, multiply: to one part in 2^44.
proof fn lemma_exponentials_multiply(t: PrcFmt, u: PrcFmt, v: PrcFmt)
    requires
        -1 <= v - t - u <= 1,
        -18 * ONE <= t < 22 * ONE,
        -18 * ONE <= u < 22 * ONE,
        -18 * ONE <= v < 22 * ONE,
    ensures
        0x1000_0000_0000 * apart(exp2_of(t) * exp2_of(u), exp2_of(v) * ONE) <= exp2_of(t) * exp2_of(
            u,
        ) + exp2_of(v) * ONE,
{
    reveal(exp2_of);
    let (o, p, r) = (
        t as int / ONE as int,
        u as int / ONE as int,
        v as int / ONE as int,
    );
    lemma_octave(t);
    lemma_octave(u);
    lemma_octave(v);
    let k = r - o - p + 1;
    lemma_digits_add_up(t, u, v, k);
    lemma_exp2_in_range(t);
    lemma_exp2_in_range(u);
    lemma_exp2_in_range(v);
    lemma_exp2_fraction(t);
    lemma_exp2_fraction(u);
    lemma_exp2_fraction(v);
    law_exp2_is_accurate(t);
    law_exp2_is_accurate(u);
    law_exp2_is_accurate(v);
    let (f, g, h) = (exp2_fraction(t), exp2_fraction(u), exp2_fraction(v));
    lemma2_to64();
    lemma2_to64_rest();
    lemma_fractions(
        f,
        g,
        h,
        fraction_digits(t) as nat,
        fraction_digits(u) as nat,
        fraction_digits(v) as nat,
        k as nat,
    );
    let (x, y, z) = (
        pow2((o + 18) as nat) as int,
        pow2((p + 18) as nat) as int,
        pow2((r + 18) as nat) as int,
    );
    let q = pow2(k as nat) as int;
    // Two to the powers of the octaves.
    assert(2 * (z * ONE) == q * (SCALE * (x * y))) by {
        lemma_pow2_adds((o + 18) as nat, (p + 18) as nat);
        lemma_pow2_adds(k as nat, (o + p + 36) as nat);
        lemma_pow2_adds((k + o + p + 36) as nat, 62);
        lemma_pow2_adds((r + 18) as nat, 81);
        lemma_pow2_adds(17, 64);
        assert(pow2(81) == 2 * ONE);
        assert(pow2(62) == SCALE);
        assert((q * (x * y)) * SCALE == q * (SCALE * (x * y))) by (nonlinear_arith);
        assert(z * (2 * ONE) == 2 * (z * ONE)) by (nonlinear_arith);
    }
    lemma_pow2_pos((o + 18) as nat);
    lemma_pow2_pos((p + 18) as nat);
    let (a, b) = ((f * x) * (g * y), (h * z) * ONE);
    let c = q * SCALE;
    let w = x * y;
    assert(w > 0) by (nonlinear_arith)
        requires
            x > 0,
            y > 0,
            w == x * y,
    ;
    assert(a == (f * g) * w && 2 * b == (c * h) * w) by (nonlinear_arith)
        requires
            a == (f * x) * (g * y),
            b == (h * z) * ONE,
            w == x * y,
            c == q * SCALE,
            2 * (z * ONE) == q * (SCALE * (x * y)),
    {
        assert(2 * ((h * z) * ONE) == h * (2 * (z * ONE)));
        assert(h * (q * (SCALE * (x * y))) == ((q * SCALE) * h) * (x * y));
    }
    lemma_close(f, g, h, c);
    let (i, j) = (2 * (f * g), c * h);
    let m = 0x1000_0000_0000int;
    assert(2 * a == i * w) by (nonlinear_arith)
        requires
            a == (f * g) * w,
            i == 2 * (f * g),
    ;
    assert(m * (2 * a) <= (m + 1) * (2 * b)) by (nonlinear_arith)
        requires
            m * i <= (m + 1) * j,
            2 * a == i * w,
            2 * b == j * w,
            w > 0,
    {
        assert((m * i) * w <= ((m + 1) * j) * w);
    }
    assert(m * (2 * b) <= (m + 1) * (2 * a)) by (nonlinear_arith)
        requires
            m * j <= (m + 1) * i,
            2 * a == i * w,
            2 * b == j * w,
            w > 0,
    {
        assert((m * j) * w <= ((m + 1) * i) * w);
    }
    assert(a >= 0) by (nonlinear_arith)
        requires
            a == (f * g) * w,
            f > 0,
            g > 0,
            w > 0,
    ;
}

/// Numbers that differ by little, told in parts of 2^44.
proof fn lemma_close(f: int, g: int, h: int, c: int)
    requires
        SCALE <= f,
        SCALE <= g,
        SCALE <= h,
        c > 0,
        2 * (f * g) <= c * (h + 0x2_0000),
        c * h <= 2 * ((f + 384) * (g + 0x2_0000)),
    ensures
        0x1000_0000_0000 * (2 * (f * g)) <= 0x1000_0000_0001 * (c * h),
        0x1000_0000_0000 * (c * h) <= 0x1000_0000_0001 * (2 * (f * g)),
{
    assert(c * (h + 0x2_0000) == c * h + 0x2_0000 * c) by (nonlinear_arith);
    assert(SCALE * c <= c * h) by (nonlinear_arith)
        requires
            SCALE <= h,
            c > 0,
    ;
    assert((f + 384) * (g + 0x2_0000) == f * g + 384 * g + 0x2_0000 * f + 384 * 0x2_0000)
        by (nonlinear_arith);
    assert(SCALE * f <= f * g && SCALE * g <= f * g && SCALE * SCALE <= f * g) by (nonlinear_arith)
        requires
            SCALE <= f,
            SCALE <= g,
    ;
}

/// Gains that are applied one after the other multiply, and in decibels they add up: to one part
/// in 2^44.
pub proof fn law_gains_multiply(a: PrcFmt, b: PrcFmt)
    requires
        -100 * ONE <= a <= 100 * ONE,
        -100 * ONE <= b <= 100 * ONE,
        -100 * ONE <= a + b <= 100 * ONE,
    ensures
        0x1000_0000_0000 * apart(linear_of(a) * linear_of(b), linear_of(sum(a, b)) * ONE)
            <= linear_of(a) * linear_of(b) + linear_of(sum(a, b)) * ONE,
{
    let c = sum(a, b);
    let k = OCTAVES_PER_DB as int;
    let (x, y, z) = (a * k, b * k, c * k);
    assert(z == x + y) by (nonlinear_arith)
        requires
            x == a * k,
            y == b * k,
            z == c * k,
            c == a + b,
    ;
    lemma_octaves_of(a);
    lemma_octaves_of(b);
    lemma_octaves_of(c);
    lemma_exponentials_multiply(
        prod(a, OCTAVES_PER_DB),
        prod(b, OCTAVES_PER_DB),
        prod(c, OCTAVES_PER_DB),
    );
}

proof fn lemma_octaves_of(a: PrcFmt)
    requires
        -100 * ONE <= a <= 100 * ONE,
    ensures
        ({
            let t = prod(a, OCTAVES_PER_DB);
            &&& -18 * ONE <= t < 18 * ONE
            &&& a >= 0 ==> a * OCTAVES_PER_DB >= 0 && t * ONE <= a * OCTAVES_PER_DB < (t + 1) * ONE
            &&& a <= 0 ==> a * OCTAVES_PER_DB <= 0 && (t - 1) * ONE < a * OCTAVES_PER_DB <= t * ONE
        }),
{
    let k = OCTAVES_PER_DB as int;
    assert(-100 * (ONE * k) <= a * k <= 100 * (ONE * k)) by (nonlinear_arith)
        requires
            -100 * ONE <= a <= 100 * ONE,
            k > 0,
    ;
    assert(a >= 0 ==> a * k >= 0) by (nonlinear_arith)
        requires
            k > 0,
    ;
    assert(a <= 0 ==> a * k <= 0) by (nonlinear_arith)
        requires
            k > 0,
    ;
}

} // verus!
