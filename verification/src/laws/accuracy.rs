//! How close the logarithms and exponentials come.
//!
//! Both work with fractions of 2^-48. Raised to the power 2^48, what they claim becomes a
//! claim about integers.
use crate::decibels::{
    exp2_digits, exp2_fraction, exponent, is_floor_root, lemma_exp2_digits, lemma_exp2_step,
    lemma_floor_root_exists, lemma_log2_digits_bounds, lemma_mantissa_bounds, lemma_root_chain,
    lemma_square_bounds, log2_digits, log2_of, mantissa, two_root,
};
use crate::fixed::{PrcFmt, ONE};
use vstd::arithmetic::power::{
    lemma_pow0, lemma_pow1, lemma_pow_adds, lemma_pow_distributes, lemma_pow_positive, pow,
};
use vstd::arithmetic::power2::{
    lemma2_to64, lemma2_to64_rest, lemma_pow2, lemma_pow2_adds, lemma_pow2_pos,
    lemma_pow2_strictly_increases, lemma_pow2_unfold, pow2,
};
use vstd::prelude::*;

verus! {

/// The scale of mantissas: 2^62.
pub const SCALE: u64 = 0x4000_0000_0000_0000;

proof fn lemma_pow_grows(a: int, b: int, n: nat)
    requires
        0 <= a <= b,
    ensures
        0 <= pow(a, n) <= pow(b, n),
    decreases n,
{
    lemma_pow0(a);
    lemma_pow0(b);
    if n > 0 {
        let k = (n - 1) as nat;
        lemma_pow_grows(a, b, k);
        lemma_pow_adds(a, 1, k);
        lemma_pow_adds(b, 1, k);
        lemma_pow1(a);
        lemma_pow1(b);
        let (p, q) = (pow(a, k), pow(b, k));
        assert(0 <= a * p <= b * q) by (nonlinear_arith)
            requires
                0 <= a <= b,
                0 <= p <= q,
        ;
    }
}

proof fn lemma_pow_doubles(a: int, n: nat)
    ensures
        pow(a, 2 * n) == pow(a, n) * pow(a, n),
        pow(a, 2 * n) == pow(a * a, n),
{
    lemma_pow_adds(a, n, n);
    lemma_pow_distributes(a, a, n);
    assert(n + n == 2 * n);
}

/// Each repeated root of two is short of the true one by less than two.
pub proof fn law_roots_of_two_are_accurate(i: nat)
    ensures
        pow(two_root(i), pow2(i)) <= 2 * pow(SCALE as int, pow2(i)) <= pow(
            two_root(i) + 2,
            pow2(i),
        ),
    decreases i,
{
    let s = SCALE as int;
    lemma2_to64();
    if i == 0 {
        lemma_pow1(two_root(0));
        lemma_pow1(two_root(0) + 2);
        lemma_pow1(s);
    } else {
        let k = (i - 1) as nat;
        law_roots_of_two_are_accurate(k);
        lemma_root_chain(i);
        lemma_root_chain(k);
        lemma_pow2_unfold(i);
        let n = pow2(k);
        let (q, r) = (two_root(k), two_root(i));
        lemma_floor_root_exists(q * s);
        assert(is_floor_root(r, q * s));
        assert((q + 2) * s <= (r + 2) * (r + 2)) by (nonlinear_arith)
            requires
                q * s < (r + 1) * (r + 1),
                r >= s,
        ;
        lemma_pow_doubles(r, n);
        lemma_pow_doubles(r + 2, n);
        lemma_pow_doubles(s, n);
        lemma_pow_grows(r * r, q * s, n);
        lemma_pow_grows((q + 2) * s, (r + 2) * (r + 2), n);
        lemma_pow_distributes(q, s, n);
        lemma_pow_distributes(q + 2, s, n);
        lemma_pow_positive(s, n);
        let (a, b, p) = (pow(q, n), pow(q + 2, n), pow(s, n));
        assert(a * p <= 2 * (p * p) <= b * p) by (nonlinear_arith)
            requires
                a <= 2 * p <= b,
                p > 0,
        ;
    }
}

/// The repeated roots of two approach one.
proof fn lemma_root_close(i: nat)
    ensures
        0 <= (two_root(i) - SCALE) * pow2(i) <= SCALE,
    decreases i,
{
    let s = SCALE as int;
    lemma2_to64();
    lemma_root_chain(i);
    lemma_pow2_pos(i);
    if i > 0 {
        let k = (i - 1) as nat;
        lemma_root_close(k);
        lemma_pow2_unfold(i);
        let n = pow2(k) as int;
        let a = two_root(i) - s;
        let b = two_root(k) - s;
        assert(2 * a <= b) by (nonlinear_arith)
            requires
                (a + s) * (a + s) <= (b + s) * s,
                s == 0x4000_0000_0000_0000,
        ;
        assert(0 <= a * (2 * n) <= s) by (nonlinear_arith)
            requires
                0 <= a,
                2 * a <= b,
                b * n <= s,
                n >= 0,
        ;
    } else {
        assert(two_root(0) == 2 * s);
    }
}

proof fn lemma_index_below_power(i: nat)
    ensures
        4 * i <= pow2(i + 1),
    decreases i,
{
    lemma2_to64();
    if i > 0 {
        lemma_index_below_power((i - 1) as nat);
        lemma_pow2_unfold(i + 1);
        lemma_pow2_unfold(i);
        lemma_pow2_pos((i - 1) as nat);
        if i > 1 {
            lemma_pow2_unfold((i - 1) as nat);
            lemma_pow2_pos((i - 2) as nat);
        }
    }
}

/// What one factor adds to the shortfall of a partial product.
proof fn lemma_shortfall(y: int, i: nat)
    requires
        SCALE <= y < 2 * SCALE,
        i < 48,
    ensures
        ({
            let z = y * two_root(i + 1) / (SCALE as int);
            (y + 8 * i) * (two_root(i + 1) + 2) <= (z + 8 * (i + 1)) * SCALE
        }),
{
    let s = SCALE as int;
    let r = two_root(i + 1);
    let z = y * r / s;
    let a = r - s;
    lemma_root_close(i + 1);
    lemma_root_chain(i + 1);
    lemma_index_below_power(i);
    let n = pow2(i + 1) as int;
    assert(4 * i * a <= s) by (nonlinear_arith)
        requires
            0 <= a,
            a * n <= s,
            4 * i <= n,
    ;
    assert(y * r < (z + 1) * s);
    assert((y + 8 * i) * (r + 2) == y * r + 2 * y + 8 * (i * s) + 2 * (4 * i * a) + 16 * i)
        by (nonlinear_arith)
        requires
            r == a + s,
    ;
    assert((z + 8 * (i + 1)) * s == (z + 1) * s + 8 * (i * s) + 7 * s) by (nonlinear_arith);
}

/// One digit of an exponential: a partial product and its exponent, each before and after.
proof fn lemma_exp2_digit(y: int, e: int, z: int, f: int, r: int, n: nat, d: nat)
    requires
        0 <= y,
        0 <= e,
        0 <= z,
        0 <= f,
        0 <= r,
        pow(y, n) <= pow2(d) * pow(SCALE as int, n) <= pow(y + e, n),
        pow(r, 2 * n) <= 2 * pow(SCALE as int, 2 * n) <= pow(r + 2, 2 * n),
        z * SCALE <= y * r,
        (y + e) * (r + 2) <= (z + f) * SCALE,
    ensures
        pow(z, 2 * n) <= pow2(2 * d + 1) * pow(SCALE as int, 2 * n) <= pow(z + f, 2 * n),
{
    let s = SCALE as int;
    let m = 2 * n;
    lemma_pow_positive(s, n);
    lemma_pow_positive(s, m);
    lemma_pow_doubles(s, n);
    lemma_pow_doubles(y, n);
    lemma_pow_doubles(y + e, n);
    lemma_pow2_unfold(2 * d + 1);
    lemma_pow2_adds(d, d);
    lemma_pow2_pos(d);
    assert(d + d == 2 * d);
    let p = pow(s, m);
    let t = pow2(2 * d) as int;
    let (low, high) = (pow(y, m), pow(y + e, m));
    assert(0 <= low <= t * p <= high) by {
        let (a, b, c, w) = (pow(y, n), pow(y + e, n), pow2(d) as int, pow(s, n));
        lemma_pow_grows(0, y, n);
        lemma_pow_grows(0, 0, n);
        lemma_pow_grows(0, y, m);
        assert(a * a <= (c * c) * (w * w) <= b * b) by (nonlinear_arith)
            requires
                0 <= a <= c * w <= b,
        ;
    }
    lemma_pow_grows(z * s, y * r, m);
    lemma_pow_grows((y + e) * (r + 2), (z + f) * s, m);
    lemma_pow_distributes(z, s, m);
    lemma_pow_distributes(y, r, m);
    lemma_pow_distributes(y + e, r + 2, m);
    lemma_pow_distributes(z + f, s, m);
    lemma_pow_grows(0, r, m);
    let (x, v) = (pow(z, m), pow(z + f, m));
    let (g, h) = (pow(r, m), pow(r + 2, m));
    assert(x <= 2 * t * p) by (nonlinear_arith)
        requires
            x * p <= low * g,
            0 <= low <= t * p,
            0 <= g <= 2 * p,
            p > 0,
    {
        assert(low * g <= (t * p) * (2 * p));
        assert(x * p <= (2 * t * p) * p);
    }
    assert(2 * t * p <= v) by (nonlinear_arith)
        requires
            high * h <= v * p,
            0 <= t * p <= high,
            2 * p <= h,
            p > 0,
    {
        assert((t * p) * (2 * p) <= high * h);
        assert((2 * t * p) * p <= v * p);
    }
}

proof fn lemma_exp2_digits_accurate(y: int, rest: int, i: nat, d: nat, digits: nat)
    requires
        i <= 48,
        0 <= rest < 0x1_0000_0000_0000,
        SCALE <= y < 2 * SCALE,
        y * two_root(i) <= 0x2000_0000_0000_0000_0000_0000_0000_0000,
        digits * pow2(i) == d * 0x1_0000_0000_0000 + rest,
        pow(y, pow2(i)) <= pow2(d) * pow(SCALE as int, pow2(i)) <= pow(y + 8 * i, pow2(i)),
    ensures
        pow(exp2_digits(y, rest, i as int), pow2(48)) <= pow2(digits) * pow(
            SCALE as int,
            pow2(48),
        ) <= pow(exp2_digits(y, rest, i as int) + 384, pow2(48)),
    decreases 48 - i,
{
    lemma2_to64();
    if i == 48 {
        lemma2_to64_rest();
        let n = pow2(48) as int;
        assert(digits == d) by (nonlinear_arith)
            requires
                digits * n == d * 0x1_0000_0000_0000 + rest,
                n == 0x1_0000_0000_0000,
                0 <= rest < 0x1_0000_0000_0000,
        ;
    } else {
        let s = SCALE as int;
        let n = pow2(i);
        let r = two_root(i + 1);
        let z = y * r / s;
        lemma_pow2_unfold(i + 1);
        lemma_exp2_step(y, i);
        lemma_root_chain(i + 1);
        lemma_shortfall(y, i);
        law_roots_of_two_are_accurate(i + 1);
        assert(digits * (2 * n) == 2 * (digits * n)) by (nonlinear_arith);
        if rest >= 0x8000_0000_0000 {
            lemma_exp2_digits(z, (rest - 0x8000_0000_0000) * 2, i + 1);
            lemma_exp2_digit(y, 8 * (i as int), z, 8 * (i + 1) as int, r, n, d);
            lemma_exp2_digits_accurate(
                z,
                (rest - 0x8000_0000_0000) * 2,
                i + 1,
                2 * d + 1,
                digits,
            );
        } else {
            lemma_pow_doubles(y, n);
            lemma_pow_doubles(y + 8 * i, n);
            lemma_pow_doubles(s, n);
            lemma_pow_grows(0, y, n);
            lemma_pow_positive(s, n);
            lemma_pow2_adds(d, d);
            lemma_pow2_pos(d);
            assert(d + d == 2 * d);
            let (a, b, c, w) = (pow(y, n), pow(y + 8 * i, n), pow2(d) as int, pow(s, n));
            assert(a * a <= (c * c) * (w * w) <= b * b) by (nonlinear_arith)
                requires
                    0 <= a <= c * w <= b,
            ;
            lemma_pow_grows(y + 8 * i, y + 8 * (i + 1), 2 * n);
            lemma_exp2_digits_accurate(y, rest * 2, i + 1, 2 * d, digits);
        }
    }
}

/// The binary digits of the fraction of a number, cut off after 48.
pub open spec fn fraction_digits(t: PrcFmt) -> int {
    (t as int % ONE as int) / 0x1_0000_0000
}

/// The exponential of a fraction of `d` parts in 2^48 is the true one, short of it by less
/// than 384 parts in 2^62: between it and its neighbour there lies the root of degree 2^48 of
/// two to the power `d`.
pub proof fn law_exp2_is_accurate(t: PrcFmt)
    ensures
        pow(exp2_fraction(t), pow2(48)) <= pow2(fraction_digits(t) as nat) * pow(
            SCALE as int,
            pow2(48),
        ) <= pow(exp2_fraction(t) + 384, pow2(48)),
{
    lemma2_to64();
    lemma_pow1(SCALE as int);
    assert(two_root(0) == 0x8000_0000_0000_0000);
    lemma_exp2_digits_accurate(
        SCALE as int,
        fraction_digits(t),
        0,
        0,
        fraction_digits(t) as nat,
    );
}

/// The digits of a logarithm do not claim too much.
proof fn lemma_log2_digits_below(m: int, n: nat)
    requires
        SCALE <= m < 2 * SCALE,
    ensures
        pow2(log2_digits(m, n) as nat) * pow(SCALE as int, pow2(n)) <= pow(m, pow2(n)),
    decreases n,
{
    let s = SCALE as int;
    lemma2_to64();
    if n == 0 {
        lemma_pow1(s);
        lemma_pow1(m);
    } else {
        let k = (n - 1) as nat;
        let h = pow2(k);
        let square = m * m / s;
        lemma_square_bounds(m);
        lemma_pow2_unfold(n);
        lemma_pow_doubles(m, h);
        lemma_pow_doubles(s, h);
        lemma_pow_positive(s, h);
        let p = pow(s, h);
        if square >= 2 * s {
            let half = square / 2;
            lemma_log2_digits_below(half, k);
            lemma_log2_digits_bounds(half, k);
            let d = log2_digits(half, k) as nat;
            assert(half * (2 * s) <= m * m);
            lemma_pow_grows(half * (2 * s), m * m, h);
            lemma_pow_distributes(half, 2 * s, h);
            lemma_pow_distributes(2, s, h);
            lemma_pow2(h);
            lemma_pow2_adds(d, h);
            lemma_pow2_pos(h);
            lemma_one_more_digit(pow2(d) as int, pow2(h) as int, p, pow(half, h));
            assert(log2_digits(m, n) == d + h);
        } else {
            lemma_log2_digits_below(square, k);
            lemma_log2_digits_bounds(square, k);
            let d = log2_digits(square, k) as nat;
            assert(square * s <= m * m);
            lemma_pow_grows(square * s, m * m, h);
            lemma_pow_distributes(square, s, h);
            lemma_one_more_digit(pow2(d) as int, 1, p, pow(square, h));
            assert(log2_digits(m, n) == d);
        }
    }
}

proof fn lemma_one_more_digit(d: int, g: int, p: int, x: int)
    requires
        d * p <= x,
        p > 0,
        g > 0,
    ensures
        (d * g) * (p * p) <= x * (g * p),
{
    assert((d * g) * (p * p) == (d * p) * (g * p)) by (nonlinear_arith);
    assert((d * p) * (g * p) <= x * (g * p)) by (nonlinear_arith)
        requires
            d * p <= x,
            p > 0,
            g > 0,
    ;
}

/// How much the cut-off squares of a logarithm may have lost, relative to 2^62, when `n`
/// digits are left.
spec fn loss(n: nat) -> int {
    8 * (49 - n) * pow2((48 - n) as nat)
}

/// One squaring at most doubles the loss, and adds a little.
proof fn lemma_loss(n: nat)
    requires
        0 < n <= 48,
    ensures
        ({
            let (s, c, e) = (SCALE as int, loss(n), loss((n - 1) as nat));
            &&& 0 <= c
            &&& (s + 1) * (s + 1) * ((s + c) * (s + c)) <= (s + e) * (s * s * s)
        }),
{
    let s = SCALE as int;
    let k = (48 - n) as nat;
    let q = pow2(k) as int;
    lemma_pow2_pos(k);
    lemma_pow2_unfold(k + 1);
    lemma_power_is_small(k);
    let j = 49 - n;
    let c = loss(n);
    let e = loss((n - 1) as nat);
    assert(c == 8 * j * q);
    assert(e == 2 * c + 16 * q) by (nonlinear_arith)
        requires
            c == 8 * j * q,
            e == 8 * (j + 1) * (2 * q),
    ;
    assert(0 <= c <= 392 * q) by (nonlinear_arith)
        requires
            c == 8 * j * q,
            1 <= j <= 48,
            q >= 1,
    ;
    let b = c + 2;
    assert((s + 1) * (s + c) <= s * (s + b)) by (nonlinear_arith)
        requires
            b == c + 2,
            0 <= c <= s,
            s >= 0,
    ;
    assert(b * b <= (16 * q - 4) * s) by (nonlinear_arith)
        requires
            0 <= b <= 394 * q,
            1 <= q <= 0x8000_0000_0000,
            s == 0x4000_0000_0000_0000,
    {
        assert(b * b <= (394 * q) * (394 * q));
        assert((394 * q) * (394 * q) == 155236 * (q * q));
        assert(q * q <= 0x8000_0000_0000 * q);
    }
    assert((s + b) * (s + b) <= (s + e) * s) by (nonlinear_arith)
        requires
            b * b <= (16 * q - 4) * s,
            e == 2 * b - 4 + 16 * q,
    ;
    let left = (s + 1) * (s + c);
    let right = s * (s + b);
    assert(left * left <= right * right) by (nonlinear_arith)
        requires
            0 <= left <= right,
    ;
    assert(left * left == (s + 1) * (s + 1) * ((s + c) * (s + c))) by (nonlinear_arith)
        requires
            left == (s + 1) * (s + c),
    ;
    let inner = (s + b) * (s + b);
    assert(right * right == (s * s) * inner) by (nonlinear_arith)
        requires
            right == s * (s + b),
            inner == (s + b) * (s + b),
    ;
    assert((s * s) * inner <= (s + e) * (s * s * s)) by (nonlinear_arith)
        requires
            inner <= (s + e) * s,
            s >= 0,
    {
        assert((s * s) * inner <= (s * s) * ((s + e) * s));
    }
}

proof fn lemma_power_is_small(k: nat)
    requires
        k <= 47,
    ensures
        pow2(k) <= 0x8000_0000_0000,
{
    lemma2_to64();
    lemma2_to64_rest();
    if k < 47 {
        lemma_pow2_strictly_increases(k, 47);
    }
}

/// A square and its cut-off value: what is lost is covered by the growth of the loss.
proof fn lemma_square_covered(m: int, next: int, factor: int, c: int, e: int)
    requires
        SCALE <= m < 2 * SCALE,
        SCALE <= next,
        factor == 1 || factor == 2,
        m * m * SCALE <= factor * next * ((SCALE + 1) * (SCALE + 1)),
        0 <= c,
        (SCALE + 1) * (SCALE + 1) * ((SCALE + c) * (SCALE + c)) <= (SCALE + e) * (SCALE * SCALE
            * SCALE),
    ensures
        (m * (SCALE + c)) * (m * (SCALE + c)) <= factor * (next * (SCALE + e)) * (SCALE * SCALE),
{
    let s = SCALE as int;
    let g = (s + c) * (s + c);
    let v = (s + 1) * (s + 1);
    let x = (m * (s + c)) * (m * (s + c));
    let w = s * s;
    assert(x == m * m * g) by (nonlinear_arith)
        requires
            x == (m * (s + c)) * (m * (s + c)),
            g == (s + c) * (s + c),
    ;
    assert(x * s <= factor * next * (v * g)) by (nonlinear_arith)
        requires
            x == m * m * g,
            m * m * s <= factor * next * v,
            g >= 0,
    {
        assert((m * m * s) * g <= (factor * next * v) * g);
    }
    assert(factor * next * (v * g) <= factor * next * ((s + e) * (w * s))) by (nonlinear_arith)
        requires
            v * g <= (s + e) * (w * s),
            factor * next >= 0,
    ;
    assert(factor * next * ((s + e) * (w * s)) == (factor * (next * (s + e)) * w) * s)
        by (nonlinear_arith);
    let y = factor * (next * (s + e)) * w;
    assert(x <= y) by (nonlinear_arith)
        requires
            x * s <= y * s,
            s > 0,
    ;
}

/// The digits of a logarithm do not claim too little.
proof fn lemma_log2_digits_above(m: int, n: nat)
    requires
        SCALE <= m < 2 * SCALE,
        n <= 48,
    ensures
        pow(m * (SCALE + loss(n)), pow2(n)) < pow2((log2_digits(m, n) + 2) as nat) * pow(
            SCALE * SCALE,
            pow2(n),
        ),
    decreases n,
{
    let s = SCALE as int;
    lemma2_to64();
    lemma2_to64_rest();
    if n == 0 {
        lemma_pow1(m * (s + loss(0)));
        lemma_pow1(s * s);
        let c = loss(0);
        let q = pow2(48) as int;
        assert(0 <= c < s) by (nonlinear_arith)
            requires
                c == 8 * (49 - 0) * q,
                q == 0x1_0000_0000_0000,
                s == 0x4000_0000_0000_0000,
        ;
        assert(m * (s + c) < 4 * (s * s)) by (nonlinear_arith)
            requires
                0 <= m < 2 * s,
                0 <= c < s,
        ;
    } else {
        let k = (n - 1) as nat;
        let h = pow2(k);
        let square = m * m / s;
        let (c, e) = (loss(n), loss(k));
        lemma_square_bounds(m);
        lemma_loss(n);
        lemma_pow2_unfold(n);
        let x = m * (s + c);
        let p = pow(s * s, h);
        lemma_pow_doubles(x, h);
        lemma_pow_doubles(s * s, h);
        assert(s * s > 0);
        lemma_pow_positive(s * s, h);
        assert(m * m < (square + 1) * s);
        assert(x * x >= 0) by (nonlinear_arith);
        if square >= 2 * s {
            let half = square / 2;
            lemma_log2_digits_above(half, k);
            lemma_log2_digits_bounds(half, k);
            let d = (log2_digits(half, k) + 2) as nat;
            assert(m * m * s <= 2 * half * ((s + 1) * (s + 1))) by (nonlinear_arith)
                requires
                    m * m < (2 * half + 2) * s,
                    half >= s,
                    s > 0,
            {
                assert(m * m * s <= (2 * half + 2) * s * s);
                assert((2 * half + 2) * s <= 2 * half * (s + 1));
            }
            lemma_square_covered(m, half, 2, c, e);
            let z = half * (s + e);
            lemma_pow_grows(x * x, 2 * z * (s * s), h);
            lemma_pow_distributes(2 * z, s * s, h);
            lemma_pow_distributes(2, z, h);
            lemma_pow2(h);
            lemma_pow2_adds(d, h);
            lemma_pow2_pos(h);
            lemma_one_digit_less(pow2(d) as int, pow2(h) as int, p, pow(z, h));
            assert(log2_digits(m, n) + 2 == d + h);
        } else {
            lemma_log2_digits_above(square, k);
            lemma_log2_digits_bounds(square, k);
            let d = (log2_digits(square, k) + 2) as nat;
            assert(m * m * s <= square * ((s + 1) * (s + 1))) by (nonlinear_arith)
                requires
                    m * m < (square + 1) * s,
                    square >= s,
                    s > 0,
            {
                assert(m * m * s <= (square + 1) * s * s);
                assert((square + 1) * s <= square * (s + 1));
            }
            lemma_square_covered(m, square, 1, c, e);
            let z = square * (s + e);
            lemma_pow_grows(x * x, z * (s * s), h);
            lemma_pow_distributes(z, s * s, h);
            lemma_one_digit_less(pow2(d) as int, 1, p, pow(z, h));
            assert(log2_digits(m, n) + 2 == d);
        }
    }
}

proof fn lemma_one_digit_less(d: int, g: int, p: int, x: int)
    requires
        x < d * p,
        p > 0,
        g > 0,
    ensures
        (g * x) * p < (d * g) * (p * p),
{
    assert((d * g) * (p * p) == (g * (d * p)) * p) by (nonlinear_arith);
    assert((g * x) * p < (g * (d * p)) * p) by (nonlinear_arith)
        requires
            x < d * p,
            p > 0,
            g > 0,
    ;
}

/// A mantissa and its digits.
proof fn lemma_mantissa_accurate(m: int)
    requires
        SCALE <= m < 2 * SCALE,
    ensures
        ({
            let d = log2_digits(m, 48) as nat;
            let n = pow2(48);
            &&& pow2(d) * pow(SCALE as int, n) <= pow(m, n)
            &&& pow(m + 1, n) < pow2(d + 2) * pow(SCALE as int, n)
        }),
{
    let s = SCALE as int;
    let n = pow2(48);
    lemma2_to64();
    lemma_log2_digits_below(m, 48);
    lemma_log2_digits_above(m, 48);
    lemma_log2_digits_bounds(m, 48);
    let d = log2_digits(m, 48) as nat;
    let c = loss(48);
    assert(c == 8);
    assert((m + 1) * s <= m * (s + c)) by (nonlinear_arith)
        requires
            m >= s,
            c == 8,
            s > 0,
    ;
    lemma_pow_grows((m + 1) * s, m * (s + c), n);
    lemma_pow_distributes(m + 1, s, n);
    lemma_pow_distributes(s, s, n);
    lemma_pow_positive(s, n);
    let (x, p, t) = (pow(m + 1, n), pow(s, n), pow2(d + 2) as int);
    assert(x < t * p) by (nonlinear_arith)
        requires
            x * p < t * (p * p),
            p > 0,
    {
        assert(t * (p * p) == (t * p) * p);
    }
}

/// The logarithm is the true one, or short of it by less than two parts in 2^48: a number of
/// `x` steps with `e` binary digits after the first, and `d` digits of its logarithm, lies
/// between 2^e times the roots of degree 2^48 of 2^d and of 2^(d + 2).
pub proof fn law_log2_is_accurate(x: PrcFmt)
    requires
        x > 0,
    ensures
        ({
            let e = exponent(x as int) as nat;
            let d = log2_digits(mantissa(x as int), 48) as nat;
            let n = pow2(48);
            &&& log2_of(x) == ((e - 80) * 0x1_0000_0000_0000 + d) * 0x1_0000_0000
            &&& d < 0x1_0000_0000_0000
            &&& pow2(d) * pow(pow2(e) as int, n) <= pow(x as int, n) < pow2(d + 2) * pow(
                pow2(e) as int,
                n,
            )
        }),
{
    reveal(log2_of);
    let s = SCALE as int;
    let n = pow2(48);
    let e = exponent(x as int) as nat;
    let m = mantissa(x as int);
    let d = log2_digits(m, 48) as nat;
    lemma2_to64();
    lemma2_to64_rest();
    lemma_mantissa_bounds(x);
    lemma_log2_digits_bounds(m, 48);
    lemma_mantissa_accurate(m);
    // x scaled up to 126 binary digits after the first.
    let k = (126 - e) as nat;
    let up = pow2(k) as int;
    let base = pow2(e) as int;
    let low = 0x1_0000_0000_0000_0000int;
    lemma_pow2_adds(e, k);
    lemma_pow2_adds(62, 64);
    lemma_pow2_pos(k);
    lemma_pow2_pos(e);
    assert(base * up == s * low);
    assert(m * low <= x * up < (m + 1) * low);
    lemma_pow_grows(m * low, x * up, n);
    lemma_pow_grows(x * up, (m + 1) * low, n);
    lemma_pow_distributes(m, low, n);
    lemma_pow_distributes(m + 1, low, n);
    lemma_pow_distributes(x as int, up, n);
    lemma_pow_distributes(base, up, n);
    lemma_pow_distributes(s, low, n);
    lemma_pow_positive(up, n);
    lemma_pow_positive(low, n);
    lemma_pow_positive(base, n);
    let (px, pu, pb, pl, ps) = (pow(x as int, n), pow(up, n), pow(base, n), pow(low, n), pow(s, n));
    let (pm, pm1) = (pow(m, n), pow(m + 1, n));
    let (t, v) = (pow2(d) as int, pow2(d + 2) as int);
    assert(t * pb <= px) by (nonlinear_arith)
        requires
            t * ps <= pm,
            pm * pl <= px * pu,
            pb * pu == ps * pl,
            pl > 0,
            pu > 0,
    {
        assert((t * ps) * pl <= pm * pl);
        assert((t * pb) * pu == (t * ps) * pl);
    }
    assert(px < v * pb) by (nonlinear_arith)
        requires
            pm1 < v * ps,
            px * pu <= pm1 * pl,
            pb * pu == ps * pl,
            pl > 0,
            pu > 0,
    {
        assert(pm1 * pl < (v * ps) * pl);
        assert((v * pb) * pu == (v * ps) * pl);
    }
}

} // verus!
