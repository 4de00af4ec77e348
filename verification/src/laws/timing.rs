//! How long things take: every time constant is the one that it is named after.
//!
//! What moves by a one-pole with a time constant t covers half of its way in t times the
//! natural logarithm of two, which lies between 0.6931 and 0.6932. So does what moves here: no
//! less than half is left before, and no more than half after.
use crate::decibels::{
    coeff_of, exp2_fraction, exp2_of, lemma_coeff_share, lemma_exp2_ordered, lemma_exp2_whole,
    LOG2_E,
};
use crate::fixed::{
    clip, cut, lemma_prod_ordered, lemma_prod_share, lemma_quot_sign, negated, prod, quot, smoothed,
    PrcFmt, HALF, ONE,
};
use crate::laws::accuracy::{fraction_digits, law_exp2_is_accurate, SCALE};
use crate::laws::reference::apart;
use vstd::arithmetic::power::{
    lemma_pow0, lemma_pow1, lemma_pow_adds, lemma_pow_distributes, lemma_pow_multiplies,
    lemma_pow_positive, pow,
};
use vstd::arithmetic::power2::{
    lemma2_to64, lemma2_to64_rest, lemma_pow2, lemma_pow2_adds, lemma_pow2_pos,
    lemma_pow2_strictly_increases, pow2,
};
use vstd::prelude::*;

verus! {

pub proof fn lemma_pow_next(b: int, n: nat)
    ensures
        pow(b, n + 1) == b * pow(b, n),
{
    lemma_pow_adds(b, 1, n);
    lemma_pow1(b);
    assert(1 + n == n + 1);
}

/// Powers of numbers that are not negative keep their order.
pub proof fn lemma_pow_strict(a: int, b: int, n: nat)
    requires
        0 <= a < b,
        n > 0,
    ensures
        0 <= pow(a, n) < pow(b, n),
    decreases n,
{
    let k = (n - 1) as nat;
    lemma_pow_next(a, k);
    lemma_pow_next(b, k);
    lemma_pow_positive(b, k);
    if k == 0 {
        lemma_pow0(a);
        lemma_pow0(b);
    } else {
        lemma_pow_strict(a, b, k);
    }
    let (p, q) = (pow(a, k), pow(b, k));
    assert(0 <= a * p < b * q) by (nonlinear_arith)
        requires
            0 <= a < b,
            0 <= p <= q,
            q > 0,
    ;
}

/// A small relative growth, over and over.
proof fn lemma_grows_little(c: int, e: int, most: int, n: nat)
    requires
        c > 0,
        e >= 0,
        most * e <= c,
        n < most,
    ensures
        pow(c + e, n) * (most - n) <= pow(c, n) * most,
        pow(c, n) > 0,
    decreases n,
{
    lemma_pow_positive(c, n);
    if n == 0 {
        lemma_pow0(c);
        lemma_pow0(c + e);
    } else {
        let k = (n - 1) as nat;
        lemma_grows_little(c, e, most, k);
        lemma_pow_next(c, k);
        lemma_pow_next(c + e, k);
        lemma_pow_positive(c + e, k);
        let (p, q) = (pow(c + e, k), pow(c, k));
        let left = most - n;
        assert((c + e) * left <= c * (left + 1)) by (nonlinear_arith)
            requires
                most * e <= c,
                0 <= left <= most,
                e >= 0,
        {
            assert(e * left <= e * most);
        }
        assert((c + e) * p * left <= c * q * most) by (nonlinear_arith)
            requires
                (c + e) * left <= c * (left + 1),
                p * (left + 1) <= q * most,
                p > 0,
                c > 0,
        {
            assert((c + e) * left * p <= c * (left + 1) * p);
            assert(c * (p * (left + 1)) <= c * (q * most));
        }
    }
}

/// The exponent of a smoothing coefficient, as a number of octaves down.
spec fn octaves_down(seconds: PrcFmt, rate: PrcFmt) -> int {
    -prod(quot(quot(negated(ONE), rate), seconds), LOG2_E)
}

/// Whether a rate and a time make sense together: at least once a second, and at most 2^32
/// times in the time.
pub open spec fn countable(seconds: PrcFmt, rate: PrcFmt) -> bool {
    &&& seconds > 0
    &&& rate >= ONE
    &&& rate * seconds <= 0x1_0000_0000 * (ONE * ONE)
}

/// What three divisions in a row can cut off.
proof fn lemma_cuts(a: int, b: int, e: int, r: int, t: int, s: int, l: int)
    requires
        b * l < (e + 1) * s,
        a * s < t * (b + 1),
        s * s < r * (a + 1),
        r > 0,
        t > 0,
        s > 0,
        l > 0,
    ensures
        (e * (r * t)) * s >= l * (s * (s * s)) - (l * (s * r) + l * (r * t) + s * (r * t)),
{
    let w = r * t;
    assert(w > 0) by (nonlinear_arith)
        requires
            w == r * t,
            r > 0,
            t > 0,
    ;
    assert((e * w) * s + s * w >= (b * l) * w) by (nonlinear_arith)
        requires
            b * l < (e + 1) * s,
            w > 0,
    ;
    let lr = l * r;
    assert(lr > 0) by (nonlinear_arith)
        requires
            lr == l * r,
            r > 0,
            l > 0,
    ;
    assert((b * l) * w + l * w == (t * (b + 1)) * lr) by (nonlinear_arith)
        requires
            w == r * t,
            lr == l * r,
    ;
    assert((t * (b + 1)) * lr >= (a * s) * lr) by (nonlinear_arith)
        requires
            a * s < t * (b + 1),
            lr > 0,
    ;
    let ls = l * s;
    assert(ls > 0) by (nonlinear_arith)
        requires
            ls == l * s,
            s > 0,
            l > 0,
    ;
    assert((a * s) * lr + l * (s * r) == (r * (a + 1)) * ls) by (nonlinear_arith)
        requires
            lr == l * r,
            ls == l * s,
    ;
    assert((r * (a + 1)) * ls >= (s * s) * ls) by (nonlinear_arith)
        requires
            s * s < r * (a + 1),
            ls > 0,
    ;
    assert((s * s) * ls == l * (s * (s * s))) by (nonlinear_arith)
        requires
            ls == l * s,
    ;
}

/// The octaves that a coefficient is below one, from both sides.
proof fn lemma_octaves_down(seconds: PrcFmt, rate: PrcFmt)
    requires
        countable(seconds, rate),
    ensures
        ({
            let e = octaves_down(seconds, rate);
            &&& e >= 0
            &&& e * (rate * seconds) <= LOG2_E * (ONE * ONE)
            &&& e >= ONE || 6932 * (e * (rate * seconds)) >= 10000 * (ONE * (ONE * ONE))
        }),
{
    reveal(quot);
    let (r, t, s, l) = (rate as int, seconds as int, ONE as int, LOG2_E as int);
    let n1 = s * s;
    let a = n1 / r;
    vstd::arithmetic::div_mod::lemma_fundamental_div_mod(n1, r);
    vstd::arithmetic::div_mod::lemma_mod_bound(n1, r);
    vstd::arithmetic::div_mod::lemma_div_pos_is_pos(n1, r);
    assert(a <= s) by (nonlinear_arith)
        requires
            r * a <= s * s,
            r >= s,
            s > 0,
            a >= 0,
    ;
    assert(negated(ONE) * ONE == -n1) by (nonlinear_arith)
        requires
            negated(ONE) == -s,
            ONE == s,
            n1 == s * s,
    ;
    assert(n1 > 0);
    assert(quot(negated(ONE), rate) == -a);
    let n2 = a * s;
    assert(n2 >= 0) by (nonlinear_arith)
        requires
            n2 == a * s,
            a >= 0,
            s >= 0,
    ;
    let b = n2 / t;
    vstd::arithmetic::div_mod::lemma_fundamental_div_mod(n2, t);
    vstd::arithmetic::div_mod::lemma_mod_bound(n2, t);
    vstd::arithmetic::div_mod::lemma_div_pos_is_pos(n2, t);
    let q = quot((-a) as PrcFmt, seconds);
    assert((-a) * s == -n2) by (nonlinear_arith)
        requires
            n2 == a * s,
    ;
    if a == 0 {
        assert(r * 0 == 0);
        assert(false) by {
            assert(n1 < r);
        }
    }
    let top = 0x8000_0000_0000_0000_0000_0000_0000_0000int;
    let b1 = if b > top {
        top
    } else {
        b
    };
    assert(q == -b1);
    let n3 = b1 * l;
    assert(n3 >= 0) by (nonlinear_arith)
        requires
            n3 == b1 * l,
            b1 >= 0,
            l >= 0,
    ;
    assert(q * l == -n3) by (nonlinear_arith)
        requires
            n3 == b1 * l,
            q == -b1,
    ;
    let e0 = n3 / s;
    let e = octaves_down(seconds, rate);
    assert(e == e0 || (e0 > top && e == top) || (n3 == 0 && e == 0));
    assert(e <= e0);
    let w = r * t;
    assert(w > 0) by (nonlinear_arith)
        requires
            w == r * t,
            r > 0,
            t > 0,
    ;
    assert(e * w <= l * (s * s)) by (nonlinear_arith)
        requires
            w == r * t,
            0 <= e <= e0,
            e0 * s <= n3,
            n3 == b1 * l,
            0 <= b1 <= b,
            t * b <= n2,
            n2 == a * s,
            r * a <= s * s,
            r > 0,
            t > 0,
            s > 0,
            l > 0,
    {
        assert(e * s <= b * l) by {
            assert(e * s <= e0 * s);
            assert(b1 * l <= b * l);
        }
        assert((e * s) * (r * t) <= (b * l) * (r * t));
        assert((b * l) * (r * t) == (t * b) * (l * r));
        assert((t * b) * (l * r) <= (a * s) * (l * r));
        assert((a * s) * (l * r) == (r * a) * (l * s));
        assert((r * a) * (l * s) <= (s * s) * (l * s));
        assert((e * w) * s <= (l * (s * s)) * s);
    }
    if e < s {
        assert(b1 == b && e == e0);
        // What each division has cut off.
        let lost = l * (s * r) + l * w + s * w;
        assert(n2 < t * (b + 1)) by (nonlinear_arith)
            requires
                n2 < t * b + t,
        ;
        assert(s * s < r * (a + 1)) by (nonlinear_arith)
            requires
                s * s < r * a + r,
        ;
        lemma_cuts(a, b, e, r, t, s, l);
        assert(lost <= 0x1_0000_0000_0000 * (l * (s * s)) + 0x1_0000_0000 * (l * (s * s))
            + 0x1_0000_0000 * (s * (s * s))) by (nonlinear_arith)
            requires
                lost == l * (s * r) + l * w + s * w,
                w <= 0x1_0000_0000 * (s * s),
                r <= 0x1_0000_0000_0000 * s,
                s > 0,
                l > 0,
        {
            assert(l * (s * r) <= l * (s * (0x1_0000_0000_0000 * s)));
            assert(l * w <= l * (0x1_0000_0000 * (s * s)));
            assert(s * w <= s * (0x1_0000_0000 * (s * s)));
        }
        let x = e * w;
        assert(6932 * x >= 10000 * (s * (s * s))) by (nonlinear_arith)
            requires
                x * s >= l * (s * (s * s)) - lost,
                lost <= 0x1_0000_0000_0000 * (l * (s * s)) + 0x1_0000_0000 * (l * (s * s))
                    + 0x1_0000_0000 * (s * (s * s)),
                s == 0x1_0000_0000_0000_0000_0000,
                l == 0x171547652b82fe1777d10,
        ;
    }
}

/// A coefficient and two to the power of its exponent, both raised to the power 2^48.
proof fn lemma_coefficient_power(seconds: PrcFmt, rate: PrcFmt, down: nat)
    requires
        countable(seconds, rate),
        octaves_down(seconds, rate) <= ONE,
        0 < octaves_down(seconds, rate),
        down == (octaves_down(seconds, rate) + 0xffff_ffff) / 0x1_0000_0000,
    ensures
        ({
            let c = coeff_of(seconds, rate) as int;
            let m = pow2(48);
            &&& HALF <= c <= ONE
            &&& pow(c, m) * pow2(down) <= pow(ONE as int, m)
            &&& pow(ONE as int, m) <= pow(c + 0x300_0000, m) * pow2(down)
        }),
{
    let e = octaves_down(seconds, rate);
    let t = prod(quot(quot(negated(ONE), rate), seconds), LOG2_E);
    let c = coeff_of(seconds, rate) as int;
    let m = pow2(48);
    lemma2_to64();
    lemma2_to64_rest();
    assert(t == -e);
    assert(t as int / ONE as int == -1);
    let y = exp2_fraction(t);
    reveal(exp2_of);
    law_exp2_is_accurate(t);
    lemma_coeff_share(seconds, rate);
    lemma_exp2_whole(-1);
    lemma_exp2_ordered((-1 * ONE) as PrcFmt, t);
    lemma_pow2_adds(64, 15);
    assert(pow2(79) == HALF);
    assert(fraction_digits(t) == 0x1_0000_0000_0000 - down);
    assert(pow2(17) == 0x2_0000);
    assert(0x4000_0000_0000_0000 <= y < 0x8000_0000_0000_0000) by {
        crate::decibels::lemma_exp2_digits(
            0x4000_0000_0000_0000,
            fraction_digits(t),
            0,
        );
    }
    assert(c == y * 0x2_0000);
    let d = fraction_digits(t) as nat;
    let k = 0x2_0000int;
    let two = 2int;
    lemma_pow_distributes(y, k, m);
    lemma_pow_distributes(y + 384, k, m);
    assert((y + 384) * k == c + 0x300_0000);
    lemma_pow_distributes(SCALE as int, two * k, m);
    lemma_pow_distributes(two, k, m);
    assert(SCALE * (two * k) == ONE);
    lemma_pow2(m);
    lemma_pow2_adds(d, down);
    assert(d + down == m);
    lemma_pow_positive(k, m);
    lemma_pow2_pos(down);
    let (py, py2, pk, ps) = (pow(y, m), pow(y + 384, m), pow(k, m), pow(SCALE as int, m));
    let (pd, pn) = (pow2(d) as int, pow2(down) as int);
    assert(py * pk * pn <= ps * (pd * pn * pk) <= py2 * pk * pn) by (nonlinear_arith)
        requires
            py <= pd * ps <= py2,
            pk > 0,
            pn > 0,
    {
        assert(py * (pk * pn) <= (pd * ps) * (pk * pn) <= py2 * (pk * pn));
    }
}

/// Half, in powers: what a number of octaves makes of a power of one.
proof fn lemma_half_left(c: int, down: nat, n: nat)
    requires
        0 <= c,
        pow(c, pow2(48)) * pow2(down) <= pow(ONE as int, pow2(48)),
        n * down >= pow2(48),
    ensures
        2 * pow(c, n) <= pow(ONE as int, n),
{
    let m = pow2(48);
    let s = ONE as int;
    lemma2_to64();
    lemma2_to64_rest();
    let (x, z) = (pow(c, n), pow(s, n));
    lemma_raised(c, s, down, m, n);
    lemma_pow_distributes(2, x, m);
    lemma_pow2(m);
    let all = (n * down) as nat;
    if all > m {
        lemma_pow2_strictly_increases(m, all);
    }
    lemma_pow_not_negative(c, n);
    lemma_pow_not_negative(x, m);
    let (p, q) = (pow2(m) as int, pow2(all) as int);
    assert(p * pow(x, m) <= pow(x, m) * q) by (nonlinear_arith)
        requires
            p <= q,
            pow(x, m) >= 0,
    ;
    if 2 * x > z {
        lemma_pow_positive(s, n);
        lemma_pow_strict(z, 2 * x, m);
    }
}

proof fn lemma_pow_not_negative(a: int, n: nat)
    requires
        a >= 0,
    ensures
        pow(a, n) >= 0,
    decreases n,
{
    if n == 0 {
        lemma_pow0(a);
    } else {
        lemma_pow_not_negative(a, (n - 1) as nat);
        lemma_pow_next(a, (n - 1) as nat);
        let p = pow(a, (n - 1) as nat);
        assert(a * p >= 0) by (nonlinear_arith)
            requires
                a >= 0,
                p >= 0,
        ;
    }
}

/// An inequality of powers, raised to one more power.
proof fn lemma_raised(a: int, b: int, down: nat, m: nat, n: nat)
    requires
        a >= 0,
        b >= 0,
    ensures
        pow(a, m) * pow2(down) <= pow(b, m) ==> pow(pow(a, n), m) * pow2((n * down) as nat) <= pow(
            pow(b, n),
            m,
        ),
        pow(b, m) <= pow(a, m) * pow2(down) ==> pow(pow(b, n), m) <= pow(pow(a, n), m) * pow2(
            (n * down) as nat,
        ),
{
    lemma_pow_multiplies(a, n, m);
    lemma_pow_multiplies(a, m, n);
    lemma_pow_multiplies(b, n, m);
    lemma_pow_multiplies(b, m, n);
    assert(n * m == m * n) by (nonlinear_arith);
    lemma_pow2(down);
    lemma_pow_multiplies(2, down, n);
    assert(down * n == n * down) by (nonlinear_arith);
    lemma_pow2((n * down) as nat);
    let (x, y, d) = (pow(a, m), pow(b, m), pow2(down) as int);
    lemma_pow_distributes(x, d, n);
    lemma_pow_not_negative(a, m);
    lemma_pow_not_negative(b, m);
    lemma_pow2_pos(down);
    assert(x * d >= 0) by (nonlinear_arith)
        requires
            x >= 0,
            d >= 0,
    ;
    if n > 0 {
        if x * d < y {
            lemma_pow_strict(x * d, y, n);
        } else if y < x * d {
            lemma_pow_strict(y, x * d, n);
        }
    } else {
        lemma_pow0(x * d);
        lemma_pow0(y);
    }
}

/// One and a millionth, raised to the power 2^48, is below two to the power 2^33.
proof fn lemma_millionth()
    ensures
        ({
            let (p, m) = (0x10_0000int, pow2(48));
            &&& pow(p + 1, m) <= pow2(0x2000_0000) * pow(p, m)
            &&& pow(p, m) > 0
        }),
{
    let p = 0x10_0000int;
    let h = 0x8_0000nat;
    let m = pow2(48);
    lemma2_to64();
    lemma2_to64_rest();
    lemma_grows_little(p, 1, p, h);
    let (x, y) = (pow(p + 1, h), pow(p, h));
    assert(x <= 2 * y);
    let k = 0x2000_0000nat;
    lemma_pow_multiplies(p + 1, h, k);
    lemma_pow_multiplies(p, h, k);
    assert(h * k == m);
    lemma_pow_distributes(2, y, k);
    lemma_pow2(k);
    lemma_pow_not_negative(p + 1, h);
    if x < 2 * y {
        lemma_pow_strict(x, 2 * y, k);
    }
    lemma_pow_positive(p, m);
}

/// The same from the other side: half is left for as long as the octaves do not make it less.
proof fn lemma_half_kept(c: int, down: nat, n: nat)
    requires
        HALF <= c,
        pow(ONE as int, pow2(48)) <= pow(c + 0x300_0000, pow2(48)) * pow2(down),
        n <= 0x1_0000_0000,
        n * down + 0x2000_0000 <= pow2(48),
    ensures
        pow(ONE as int, n) <= 2 * pow(c, n),
{
    let m = pow2(48);
    let s = ONE as int;
    let e = 0x300_0000int;
    lemma2_to64();
    lemma2_to64_rest();
    let (x, w, z) = (pow(c, n), pow(c + e, n), pow(s, n));
    if 2 * x < z {
        let big = 0x20_0000_0000_0000int;
        lemma_grows_little(c, e, big, n);
        let p = 0x10_0000int;
        assert(w * p <= x * (p + 1)) by (nonlinear_arith)
            requires
                w * (big - n) <= x * big,
                big == 0x20_0000_0000_0000,
                p == 0x10_0000,
                0 <= n <= 0x1_0000_0000,
                x > 0,
        {
            assert(big * p <= (p + 1) * (big - n));
            assert(w * (big - n) * p <= x * (big * p));
            assert(x * (big * p) <= x * ((p + 1) * (big - n)));
            assert((w * p) * (big - n) <= (x * (p + 1)) * (big - n));
        }
        assert(2 * w * p < z * (p + 1)) by (nonlinear_arith)
            requires
                w * p <= x * (p + 1),
                2 * x < z,
                p > 0,
        ;
        lemma_pow_not_negative(c + e, n);
        assert(2 * w * p >= 0) by (nonlinear_arith)
            requires
                w >= 0,
                p > 0,
        ;
        lemma_pow_strict(2 * w * p, z * (p + 1), m);
        lemma_pow_distributes(2 * w, p, m);
        lemma_pow_distributes(2, w, m);
        lemma_pow_distributes(z, p + 1, m);
        lemma_pow2(m);
        lemma_raised(c + e, s, down, m, n);
        lemma_millionth();
        let all = (n * down) as nat;
        let rest = (m - all) as nat;
        lemma_pow2_adds(all, rest);
        lemma_pow2_pos(all);
        lemma_pow2_pos(rest);
        if rest > 0x2000_0000 {
            lemma_pow2_strictly_increases(0x2000_0000, rest);
        }
        lemma_pow_positive(s, n);
        lemma_pow_positive(z, m);
        lemma_products(
            pow(w, m),
            pow(z, m),
            pow(p, m),
            pow(p + 1, m),
            pow2(all) as int,
            pow2(rest) as int,
            pow2(0x2000_0000) as int,
        );
    }
}

proof fn lemma_products(w: int, z: int, p: int, p1: int, a: int, r: int, g: int)
    requires
        z <= w * a,
        p1 <= g * p,
        g <= r,
        p > 0,
        z > 0,
        r > 0,
    ensures
        z * p1 <= ((a * r) * w) * p,
{
    assert(z * p1 <= ((a * r) * w) * p) by (nonlinear_arith)
        requires
            z <= w * a,
            p1 <= g * p,
            g <= r,
            p > 0,
            z > 0,
            r > 0,
    {
        assert(z * p1 <= z * (g * p));
        assert(z * (g * p) <= z * (r * p));
        assert((w * a) * (r * p) >= z * (r * p));
        assert((w * a) * (r * p) == ((a * r) * w) * p);
    }
}

/// Whether some steps at a rate last for the half-life of a time constant.
pub open spec fn lasts(n: nat, seconds: PrcFmt, rate: PrcFmt) -> bool {
    10000 * (n * (ONE * ONE)) >= 6932 * (rate * seconds)
}

/// Whether some steps at a rate do not last for the half-life of a time constant.
pub open spec fn brief(n: nat, seconds: PrcFmt, rate: PrcFmt) -> bool {
    10000 * (n * (ONE * ONE)) <= 6931 * (rate * seconds)
}

/// A smoothing coefficient is that of its time constant: applied as often as its half-life
/// lasts it leaves no more than half, and applied less often no less.
pub proof fn law_coefficient_has_its_half_life(seconds: PrcFmt, rate: PrcFmt, n: nat)
    requires
        countable(seconds, rate),
    ensures
        0 <= coeff_of(seconds, rate) <= ONE,
        lasts(n, seconds, rate) ==> 2 * pow(coeff_of(seconds, rate) as int, n) <= pow(
            ONE as int,
            n,
        ),
        brief(n, seconds, rate) ==> pow(ONE as int, n) <= 2 * pow(
            coeff_of(seconds, rate) as int,
            n,
        ),
{
    let e = octaves_down(seconds, rate);
    let c = coeff_of(seconds, rate) as int;
    let (s, w) = (ONE as int, rate * seconds);
    assert(w > 0) by (nonlinear_arith)
        requires
            w == rate * seconds,
            rate > 0,
            seconds > 0,
    ;
    lemma2_to64();
    lemma2_to64_rest();
    lemma_octaves_down(seconds, rate);
    lemma_coeff_share(seconds, rate);
    if e >= s {
        let t = prod(quot(quot(negated(ONE), rate), seconds), LOG2_E);
        lemma_exp2_whole(-1);
        lemma_exp2_ordered(t, (-1 * ONE) as PrcFmt);
        lemma_pow2_adds(64, 15);
        assert(c <= HALF);
        if n == 0 {
            lemma_pow0(c);
            lemma_pow0(s);
        } else {
            assert(n * (s * s) >= s * s) by (nonlinear_arith)
                requires
                    n >= 1,
                    s > 0,
            ;
            assert(w <= 2 * (s * s)) by (nonlinear_arith)
                requires
                    e * w <= LOG2_E * (s * s),
                    e >= s,
                    LOG2_E <= 2 * s,
                    w > 0,
                    s > 0,
            {
                assert(s * w <= e * w);
                assert(s * w <= (2 * s) * (s * s));
            }
            lemma_pow_halves(c, n);
            if brief(n, seconds, rate) {
                assert(e * w <= LOG2_E * (s * s));
                assert(false) by (nonlinear_arith)
                    requires
                        10000 * (n * (s * s)) <= 6931 * w,
                        n >= 1,
                        e * w <= LOG2_E * (s * s),
                        e >= s,
                        s == 0x1_0000_0000_0000_0000_0000,
                        w > 0,
                {
                    assert(s * w <= e * w);
                    assert(10000 * (s * s) <= 6931 * w);
                    assert(10000 * (s * (s * s)) <= 6931 * (s * w));
                }
            }
        }
    } else {
        let down = ((e + 0xffff_ffff) / 0x1_0000_0000) as nat;
        if e == 0 {
            assert(0 * w == 0);
            assert(false);
        }
        lemma_coefficient_power(seconds, rate, down);
        assert(down * 0x1_0000_0000 >= e);
        if lasts(n, seconds, rate) {
            assert(n * e >= s) by (nonlinear_arith)
                requires
                    10000 * (n * (s * s)) >= 6932 * w,
                    6932 * (e * w) >= 10000 * (s * (s * s)),
                    e >= 0,
                    s > 0,
            {
                assert(10000 * (n * (s * s)) * e >= 6932 * w * e);
                assert((n * e) * (s * s) >= s * (s * s));
            }
            assert(n * down >= 0x1_0000_0000_0000) by (nonlinear_arith)
                requires
                    n * e >= s,
                    down * 0x1_0000_0000 >= e,
                    s == 0x1_0000_0000_0000_0000_0000,
                    n >= 0,
            {
                assert(n * (down * 0x1_0000_0000) >= n * e);
            }
            lemma_half_left(c, down, n);
        }
        if brief(n, seconds, rate) {
            assert(10000 * (n * e) <= 6931 * LOG2_E) by (nonlinear_arith)
                requires
                    10000 * (n * (s * s)) <= 6931 * w,
                    e * w <= LOG2_E * (s * s),
                    e >= 0,
                    s > 0,
            {
                assert(10000 * (n * (s * s)) * e <= 6931 * w * e);
                assert((10000 * (n * e)) * (s * s) <= (6931 * LOG2_E) * (s * s));
            }
            assert(10000 * n <= 6931 * 0x1_0000_0000) by (nonlinear_arith)
                requires
                    10000 * (n * (s * s)) <= 6931 * w,
                    w <= 0x1_0000_0000 * (s * s),
                    s > 0,
            {
                assert((10000 * n) * (s * s) <= (6931 * 0x1_0000_0000) * (s * s));
            }
            assert(down * 0x1_0000_0000 < e + 0x1_0000_0000);
            let part = n * down;
            assert(part * 0x1_0000_0000 <= n * e + n * 0x1_0000_0000) by (nonlinear_arith)
                requires
                    part == n * down,
                    down * 0x1_0000_0000 <= e + 0x1_0000_0000,
                    n >= 0,
            {
                assert(n * (down * 0x1_0000_0000) <= n * (e + 0x1_0000_0000));
            }
            lemma_half_kept(c, down, n);
        }
    }
}

/// Half or less, over and over.
proof fn lemma_pow_halves(c: int, n: nat)
    requires
        0 <= c,
        2 * c <= ONE,
        n >= 1,
    ensures
        2 * pow(c, n) <= pow(ONE as int, n),
    decreases n,
{
    let s = ONE as int;
    let k = (n - 1) as nat;
    lemma_pow_next(c, k);
    lemma_pow_next(s, k);
    lemma_pow_not_negative(c, k);
    if k == 0 {
        lemma_pow0(c);
        lemma_pow0(s);
    } else {
        lemma_pow_halves(c, k);
    }
    let (p, q) = (pow(c, k), pow(s, k));
    assert(2 * (c * p) <= s * q) by (nonlinear_arith)
        requires
            2 * c <= s,
            0 <= p <= q,
            0 <= c,
    ;
}

/// A longer time constant never makes a smaller coefficient.
pub proof fn law_longer_time_keeps_more(short: PrcFmt, long: PrcFmt, rate: PrcFmt)
    requires
        0 < short <= long,
        rate > 0,
    ensures
        coeff_of(short, rate) <= coeff_of(long, rate),
{
    reveal(quot);
    let x = quot(negated(ONE), rate);
    lemma_quot_sign(negated(ONE), rate);
    let n = -(x * ONE);
    assert(n >= 0);
    vstd::arithmetic::div_mod::lemma_div_is_ordered_by_denominator(n, short as int, long as int);
    vstd::arithmetic::div_mod::lemma_div_pos_is_pos(n, long as int);
    if n == 0 {
        vstd::arithmetic::div_mod::lemma_div_of0(short as int);
        vstd::arithmetic::div_mod::lemma_div_of0(long as int);
    }
    let (a, b) = (quot(x, short), quot(x, long));
    assert(a <= b);
    lemma_prod_ordered(a, b, LOG2_E);
    lemma_exp2_ordered(prod(a, LOG2_E), prod(b, LOG2_E));
}

/// Whether what has moved from one value to another, on its way to a goal, has done so with a
/// time constant: after its half-life no more than half of the way is left, and before it no
/// less, up to four steps of rounding for each time that it moved.
pub open spec fn paced(
    from: PrcFmt,
    to: PrcFmt,
    goal: PrcFmt,
    n: nat,
    seconds: PrcFmt,
    rate: PrcFmt,
) -> bool {
    let (way, rest) = (apart(from as int, goal as int), apart(to as int, goal as int));
    &&& lasts(n, seconds, rate) ==> 2 * rest <= way + 4 * n
    &&& brief(n, seconds, rate) ==> 2 * rest + 4 * n >= way
}

/// Smoothing, up to two steps of rounding.
proof fn lemma_smoothed_rounding(c: PrcFmt, x: PrcFmt, y: PrcFmt)
    requires
        0 <= c <= ONE,
    ensures
        -2 * ONE <= ONE * (smoothed(c, x, y) - y) - c * (x - y) <= 2 * ONE,
{
    let (s, d) = (ONE as int, ONE - c);
    let exact = c * x + d * y;
    assert(exact == s * y + c * (x - y)) by (nonlinear_arith)
        requires
            exact == c * x + d * y,
            d == s - c,
    ;
    assert(s * i128::MIN <= exact <= s * i128::MAX) by (nonlinear_arith)
        requires
            exact == c * x + d * y,
            d == s - c,
            0 <= c <= s,
            i128::MIN <= x <= i128::MAX,
            i128::MIN <= y <= i128::MAX,
    {
        assert(c * i128::MIN <= c * x <= c * i128::MAX);
        assert(d * i128::MIN <= d * y <= d * i128::MAX);
    }
    let (p, q) = (cut(c * x, s), cut(d * y, s));
    assert(-s <= s * p - c * x <= s);
    assert(-s <= s * q - d * y <= s);
    lemma_prod_share(x, c);
    lemma_prod_share(y, d as PrcFmt);
    assert(prod(c, x) == p && prod(d as PrcFmt, y) == q);
    let v = smoothed(c, x, y) as int;
    assert(v == clip(p + q));
    assert(-2 * s <= s * (p + q) - exact <= 2 * s);
    assert(-2 * s <= s * v - exact <= 2 * s);
    assert(s * (v - y) == s * v - s * y) by (nonlinear_arith);
}

/// Smoothing toward one goal, over and over.
proof fn lemma_one_pole(c: PrcFmt, y: PrcFmt, xs: Seq<PrcFmt>, n: nat)
    requires
        0 <= c <= ONE,
        n < xs.len(),
        forall|k: int| 0 <= k < n ==> #[trigger] xs[k + 1] == smoothed(c, xs[k], y),
    ensures
        apart(pow(ONE as int, n) * (xs[n as int] - y), pow(c as int, n) * (xs[0] - y)) <= 2 * (n
            * pow(ONE as int, n)),
    decreases n,
{
    let s = ONE as int;
    lemma_pow0(s);
    lemma_pow0(c as int);
    if n > 0 {
        let k = (n - 1) as nat;
        lemma_one_pole(c, y, xs, k);
        lemma_pow_next(s, k);
        lemma_pow_next(c as int, k);
        lemma_pow_positive(s, k);
        assert(xs[(k as int) + 1] == smoothed(c, xs[k as int], y));
        lemma_smoothed_rounding(c, xs[k as int], y);
        lemma_one_more(
            c as int,
            s,
            pow(c as int, k),
            pow(s, k),
            xs[0] - y,
            xs[k as int] - y,
            xs[n as int] - y,
            k as int,
        );
    }
}

proof fn lemma_one_more(c: int, s: int, pc: int, ps: int, first: int, d: int, e: int, k: int)
    requires
        0 <= c <= s,
        ps > 0,
        k >= 0,
        -2 * s <= s * e - c * d <= 2 * s,
        apart(ps * d, pc * first) <= 2 * (k * ps),
    ensures
        apart((s * ps) * e, (c * pc) * first) <= 2 * ((k + 1) * (s * ps)),
{
    let gap = ps * d - pc * first;
    let slip = s * e - c * d;
    assert(ps * slip == ps * (s * e) - ps * (c * d)) by (nonlinear_arith)
        requires
            slip == s * e - c * d,
    ;
    assert(c * gap == c * (ps * d) - c * (pc * first)) by (nonlinear_arith)
        requires
            gap == ps * d - pc * first,
    ;
    assert(ps * (c * d) == c * (ps * d)) by (nonlinear_arith);
    assert((s * ps) * e == ps * (s * e)) by (nonlinear_arith);
    assert((c * pc) * first == c * (pc * first)) by (nonlinear_arith);
    assert(-2 * (s * ps) <= ps * slip <= 2 * (s * ps)) by (nonlinear_arith)
        requires
            -2 * s <= slip <= 2 * s,
            ps > 0,
    ;
    assert(-2 * (k * (s * ps)) <= c * gap <= 2 * (k * (s * ps))) by (nonlinear_arith)
        requires
            -2 * (k * ps) <= gap <= 2 * (k * ps),
            0 <= c <= s,
            k >= 0,
            ps > 0,
    {
        assert(c * gap <= c * (2 * (k * ps)));
        assert(c * gap >= c * (-2 * (k * ps)));
        assert(k * ps >= 0);
        assert(c * (2 * (k * ps)) <= s * (2 * (k * ps)));
    }
    assert(2 * ((k + 1) * (s * ps)) == 2 * (k * (s * ps)) + 2 * (s * ps)) by (nonlinear_arith);
}

/// Whatever is smoothed with the coefficient of a time constant moves with that time constant.
pub proof fn law_smoothing_is_paced(
    seconds: PrcFmt,
    rate: PrcFmt,
    goal: PrcFmt,
    xs: Seq<PrcFmt>,
    n: nat,
)
    requires
        countable(seconds, rate),
        n < xs.len(),
        forall|k: int|
            0 <= k < n ==> #[trigger] xs[k + 1] == smoothed(coeff_of(seconds, rate), xs[k], goal),
    ensures
        paced(xs[0], xs[n as int], goal, n, seconds, rate),
{
    let c = coeff_of(seconds, rate);
    let s = ONE as int;
    law_coefficient_has_its_half_life(seconds, rate, n);
    lemma_one_pole(c, goal, xs, n);
    lemma_pow_positive(s, n);
    lemma_pow_not_negative(c as int, n);
    let (p, q) = (pow(s, n), pow(c as int, n));
    let (d, e) = (xs[0] - goal, xs[n as int] - goal);
    let (way, rest) = (apart(xs[0] as int, goal as int), apart(xs[n as int] as int, goal as int));
    assert(-2 * (n * p) <= p * rest - q * way <= 2 * (n * p)) by (nonlinear_arith)
        requires
            -2 * (n * p) <= p * e - q * d <= 2 * (n * p),
            way == d && d >= 0 || way == -d && d <= 0,
            rest == e && e >= 0 || rest == -e && e <= 0,
            p > 0,
            q >= 0,
            n >= 0,
    ;
    if lasts(n, seconds, rate) {
        assert(2 * rest <= way + 4 * n) by (nonlinear_arith)
            requires
                p * rest - q * way <= 2 * (n * p),
                2 * q <= p,
                way >= 0,
                p > 0,
        {
            assert(2 * (q * way) <= p * way);
            assert(p * (2 * rest) <= p * (way + 4 * n));
        }
    }
    if brief(n, seconds, rate) {
        assert(2 * rest + 4 * n >= way) by (nonlinear_arith)
            requires
                -2 * (n * p) <= p * rest - q * way,
                p <= 2 * q,
                way >= 0,
                p > 0,
        {
            assert(2 * (q * way) >= p * way);
            assert(p * (2 * rest + 4 * n) >= p * way);
        }
    }
}

} // verus!
