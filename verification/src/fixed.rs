//! Saturating fixed-point arithmetic.
//!
//! Every quantity of the processor (samples, powers, decibels, coefficients, times) is a
//! [`PrcFmt`]: a signed 128 bit count of steps of 2^-80. Sums are exact, products and
//! quotients are cut off toward zero, and whatever leaves the range sticks to its nearer
//! end. All operations are therefore total, and the order of the numbers is the order of
//! the integers.
use vstd::arithmetic::power2::{
    lemma2_to64, lemma_pow2_adds, lemma_pow2_pos, lemma_pow2_unfold, pow2,
};
use vstd::prelude::*;

verus! {

/// A real number, as a multiple of 2^-80.
pub type PrcFmt = i128;

/// The number one: 2^80 steps.
pub const ONE: PrcFmt = 0x1_0000_0000_0000_0000_0000;

/// The number one half.
pub const HALF: PrcFmt = 0x8000_0000_0000_0000_0000;

/// The representable value nearest to `v` steps.
pub open spec fn clip(v: int) -> PrcFmt {
    if v > i128::MAX {
        i128::MAX
    } else if v < i128::MIN {
        i128::MIN
    } else {
        v as i128
    }
}

/// `n / d` cut off toward zero, for a positive `d`.
pub open spec fn cut(n: int, d: int) -> int {
    if n >= 0 {
        n / d
    } else {
        -((-n) / d)
    }
}

pub open spec fn sum(a: PrcFmt, b: PrcFmt) -> PrcFmt {
    clip(a + b)
}

pub open spec fn diff(a: PrcFmt, b: PrcFmt) -> PrcFmt {
    clip(a - b)
}

pub open spec fn negated(a: PrcFmt) -> PrcFmt {
    clip(-a)
}

pub open spec fn prod(a: PrcFmt, b: PrcFmt) -> PrcFmt {
    clip(cut(a * b, ONE as int))
}

/// The quotient. Dividing by zero gives the end of the range that has the dividend's sign.
#[verifier::opaque]
pub open spec fn quot(a: PrcFmt, b: PrcFmt) -> PrcFmt {
    if b > 0 {
        clip(cut(a * ONE, b as int))
    } else if b < 0 {
        clip(cut(-(a * ONE), -b))
    } else if a > 0 {
        i128::MAX
    } else if a < 0 {
        i128::MIN
    } else {
        0
    }
}

pub open spec fn magnitude(a: PrcFmt) -> PrcFmt {
    if a < 0 {
        negated(a)
    } else {
        a
    }
}

/// `x` moved into `lo..=hi`.
pub open spec fn clamped(x: PrcFmt, lo: PrcFmt, hi: PrcFmt) -> PrcFmt {
    if x < lo {
        lo
    } else if x > hi {
        hi
    } else {
        x
    }
}

/// A whole number.
pub open spec fn whole(n: int) -> PrcFmt {
    clip(n * ONE)
}

/// `v` is the step nearest to `n / d`, for a positive `d`.
pub open spec fn stands_for(v: PrcFmt, n: int, d: int) -> bool {
    -d <= 2 * (d * v - n * ONE) <= d
}

/// One-pole smoothing: `c` of what was, and the rest of what is new.
pub open spec fn smoothed(c: PrcFmt, before: PrcFmt, new: PrcFmt) -> PrcFmt {
    sum(prod(c, before), prod(diff(ONE, c), new))
}

/// Where `x` stands on the way from `lo` to `lo + span`: from 0 to 1.
pub open spec fn ramp(x: PrcFmt, lo: PrcFmt, span: PrcFmt) -> PrcFmt {
    clamped(quot(diff(x, lo), span), 0, ONE)
}

/// The whole number nearest to `x`, as a count. Nothing below zero, and halves go up.
pub open spec fn rounded(x: PrcFmt) -> usize {
    let n = (x + HALF) / (ONE as int);
    if n < 0 {
        0
    } else if n > usize::MAX {
        usize::MAX
    } else {
        n as usize
    }
}

/// `r` is the largest number whose square does not exceed `x`.
pub open spec fn is_root(r: PrcFmt, x: PrcFmt) -> bool {
    &&& 0 <= r
    &&& r * r / (ONE as int) <= x < (r + 1) * (r + 1) / (ONE as int)
}

/// The square root: zero where `x` is not positive.
pub open spec fn root(x: PrcFmt) -> PrcFmt {
    if x <= 0 {
        0
    } else {
        choose|r: PrcFmt| is_root(r, x)
    }
}

pub fn fx_add(a: PrcFmt, b: PrcFmt) -> (r: PrcFmt)
    ensures
        r == sum(a, b),
{
    match a.checked_add(b) {
        Some(v) => v,
        None => if a > 0 {
            i128::MAX
        } else {
            i128::MIN
        },
    }
}

pub fn fx_sub(a: PrcFmt, b: PrcFmt) -> (r: PrcFmt)
    ensures
        r == diff(a, b),
{
    match a.checked_sub(b) {
        Some(v) => v,
        None => if a >= 0 {
            i128::MAX
        } else {
            i128::MIN
        },
    }
}

pub fn fx_neg(a: PrcFmt) -> (r: PrcFmt)
    ensures
        r == negated(a),
{
    if a == i128::MIN {
        i128::MAX
    } else {
        -a
    }
}

pub fn fx_abs(a: PrcFmt) -> (r: PrcFmt)
    ensures
        r == magnitude(a),
{
    if a < 0 {
        fx_neg(a)
    } else {
        a
    }
}

pub fn fx_clamp(x: PrcFmt, lo: PrcFmt, hi: PrcFmt) -> (r: PrcFmt)
    ensures
        r == clamped(x, lo, hi),
{
    if x < lo {
        lo
    } else if x > hi {
        hi
    } else {
        x
    }
}

pub fn fx_whole(n: usize) -> (r: PrcFmt)
    ensures
        r == whole(n as int),
{
    if (n as u64) < 0x8000_0000_0000 {
        n as i128 * ONE
    } else {
        i128::MAX
    }
}

pub fn fx_smooth(c: PrcFmt, before: PrcFmt, new: PrcFmt) -> (r: PrcFmt)
    ensures
        r == smoothed(c, before, new),
{
    fx_add(fx_mul(c, before), fx_mul(fx_sub(ONE, c), new))
}

pub fn fx_ramp(x: PrcFmt, lo: PrcFmt, span: PrcFmt) -> (r: PrcFmt)
    ensures
        r == ramp(x, lo, span),
{
    fx_clamp(fx_div(fx_sub(x, lo), span), 0, ONE)
}

pub fn fx_round(x: PrcFmt) -> (r: usize)
    ensures
        r == rounded(x),
{
    if x < 0 {
        0
    } else {
        let whole_part: i128 = x / ONE;
        let n: i128 = if x % ONE >= HALF {
            whole_part + 1
        } else {
            whole_part
        };
        if n > usize::MAX as i128 {
            usize::MAX
        } else {
            n as usize
        }
    }
}

/// The distance of `a` from zero, in steps.
fn steps(a: PrcFmt) -> (r: u128)
    ensures
        r == if a < 0 { -a } else { a as int },
        r <= 0x8000_0000_0000_0000_0000_0000_0000_0000,
{
    if a < 0 {
        (-(a + 1)) as u128 + 1
    } else {
        a as u128
    }
}

/// The number `m` steps from zero, on the side that `negative` names.
fn signed(m: u128, negative: bool) -> (r: PrcFmt)
    ensures
        r == clip(if negative { -m } else { m as int }),
{
    if m < 0x8000_0000_0000_0000_0000_0000_0000_0000 {
        if negative {
            -(m as i128)
        } else {
            m as i128
        }
    } else if negative {
        i128::MIN
    } else {
        i128::MAX
    }
}

/// The product of two magnitudes, cut off and held at 2^127 steps.
fn scale_steps(a: u128, b: u128) -> (r: u128)
    requires
        a <= 0x8000_0000_0000_0000_0000_0000_0000_0000,
        b <= 0x8000_0000_0000_0000_0000_0000_0000_0000,
    ensures
        r == if a * b / (ONE as int) < 0x8000_0000_0000_0000_0000_0000_0000_0000 {
            a * b / (ONE as int)
        } else {
            0x8000_0000_0000_0000_0000_0000_0000_0000
        },
{
    let a1: u128 = a >> 64;
    let a0: u128 = a & 0xffff_ffff_ffff_ffff;
    let b1: u128 = b >> 64;
    let b0: u128 = b & 0xffff_ffff_ffff_ffff;
    proof {
        lemma_halves(a);
        lemma_halves(b);
        lemma_limb_bounds(a1 as int, a0 as int, b1 as int, b0 as int);
    }
    let high: u128 = a1 * b1;
    let middle: u128 = a1 * b0 + a0 * b1;
    let low: u128 = a0 * b0;
    proof {
        lemma_halves(low);
    }
    let carried: u128 = middle + (low >> 64);
    let tail: u128 = carried >> 16;
    proof {
        assert(carried >> 16 == carried / 0x1_0000) by (bit_vector);
        lemma_limbs(a1 as int, a0 as int, b1 as int, b0 as int);
    }
    if high >= 0x8000_0000_0000_0000_0000 {
        0x8000_0000_0000_0000_0000_0000_0000_0000
    } else {
        let total: u128 = high * 0x1_0000_0000_0000 + tail;
        if total < 0x8000_0000_0000_0000_0000_0000_0000_0000 {
            total
        } else {
            0x8000_0000_0000_0000_0000_0000_0000_0000
        }
    }
}

proof fn lemma_halves(a: u128)
    ensures
        a >> 64 == a / 0x1_0000_0000_0000_0000,
        a & 0xffff_ffff_ffff_ffff == a % 0x1_0000_0000_0000_0000,
{
    assert(a >> 64 == a / 0x1_0000_0000_0000_0000) by (bit_vector);
    assert(a & 0xffff_ffff_ffff_ffff == a % 0x1_0000_0000_0000_0000) by (bit_vector);
}

proof fn lemma_limb_bounds(a1: int, a0: int, b1: int, b0: int)
    by (nonlinear_arith)
    requires
        0 <= a1 <= 0x8000_0000_0000_0000,
        0 <= b1 <= 0x8000_0000_0000_0000,
        0 <= a0 < 0x1_0000_0000_0000_0000,
        0 <= b0 < 0x1_0000_0000_0000_0000,
    ensures
        0 <= a1 * b1 <= 0x4000_0000_0000_0000_0000_0000_0000_0000,
        0 <= a1 * b0 <= 0x8000_0000_0000_0000 * 0xffff_ffff_ffff_ffff,
        0 <= a0 * b1 <= 0x8000_0000_0000_0000 * 0xffff_ffff_ffff_ffff,
        0 <= a0 * b0 <= 0xffff_ffff_ffff_ffff * 0xffff_ffff_ffff_ffff,
{
}

proof fn lemma_limbs(a1: int, a0: int, b1: int, b0: int)
    requires
        0 <= a1 && 0 <= b1 && 0 <= a0 && 0 <= b0,
        0 <= a1 * b1 && 0 <= a1 * b0 && 0 <= a0 * b1 && 0 <= a0 * b0,
    ensures
        ({
            let t = 0x1_0000_0000_0000_0000int;
            (a1 * t + a0) * (b1 * t + b0) / (ONE as int) == a1 * b1 * 0x1_0000_0000_0000 + (a1 * b0
                + a0 * b1 + a0 * b0 / t) / 0x1_0000
        }),
{
    let t = 0x1_0000_0000_0000_0000int;
    lemma_expand(a1, a0, b1, b0, t);
}

proof fn lemma_expand(a1: int, a0: int, b1: int, b0: int, t: int)
    ensures
        (a1 * t + a0) * (b1 * t + b0) == a1 * b1 * (t * t) + (a1 * b0 + a0 * b1) * t + a0 * b0,
{
    broadcast use vstd::arithmetic::mul::group_mul_properties;

    let x = a1 * t;
    let y = b1 * t;
    assert((x + a0) * (y + b0) == x * y + x * b0 + a0 * y + a0 * b0);
    assert(x * y == a1 * b1 * (t * t)) by (nonlinear_arith)
        requires
            x == a1 * t,
            y == b1 * t,
    ;
    assert(x * b0 + a0 * y == (a1 * b0 + a0 * b1) * t) by (nonlinear_arith)
        requires
            x == a1 * t,
            y == b1 * t,
    ;
}

pub fn fx_mul(a: PrcFmt, b: PrcFmt) -> (r: PrcFmt)
    ensures
        r == prod(a, b),
{
    let negative: bool = (a < 0) != (b < 0);
    let m: u128 = scale_steps(steps(a), steps(b));
    proof {
        let (p, q) = (if a < 0 { -a } else { a as int }, if b < 0 { -b } else { b as int });
        assert(p * q == if negative { -(a * b) } else { a * b }) by (nonlinear_arith)
            requires
                p == if a < 0 { -a } else { a as int },
                q == if b < 0 { -b } else { b as int },
                negative == ((a < 0) != (b < 0)),
        ;
        assert(p * q >= 0) by (nonlinear_arith)
            requires
                p >= 0,
                q >= 0,
        ;
    }
    signed(m, negative)
}

/// The quotient of two magnitudes, cut off and held at 2^127 steps.
fn divide_steps(a: u128, b: u128) -> (r: u128)
    requires
        a <= 0x8000_0000_0000_0000_0000_0000_0000_0000,
        0 < b <= 0x8000_0000_0000_0000_0000_0000_0000_0000,
    ensures
        r == if a * ONE / (b as int) < 0x8000_0000_0000_0000_0000_0000_0000_0000 {
            a * ONE / (b as int)
        } else {
            0x8000_0000_0000_0000_0000_0000_0000_0000
        },
{
    // A whole divisor needs no long division.
    let k: u128 = b >> 80;
    assert(b >> 80 == b / 0x1_0000_0000_0000_0000_0000) by (bit_vector);
    if k * 0x1_0000_0000_0000_0000_0000 == b {
        proof {
            lemma_same_quotient(a as int, k as int, ONE as int);
        }
        return a / k;
    }
    let mut q: u128 = a / b;
    let mut rest: u128 = a % b;
    let mut i: u32 = 0;
    proof {
        lemma2_to64();
        lemma_split(a as int, b as int);
        assert(a as int * pow2(0) == a) by (nonlinear_arith)
            requires
                pow2(0) == 1,
        ;
    }
    while i < 80
        invariant
            i <= 80,
            a <= 0x8000_0000_0000_0000_0000_0000_0000_0000,
            0 < b <= 0x8000_0000_0000_0000_0000_0000_0000_0000,
            q * b + rest == a * pow2(i as nat),
            rest < b,
        decreases 80 - i,
    {
        if q >= 0x4000_0000_0000_0000_0000_0000_0000_0000 {
            proof {
                lemma_quotient_large(a as int, b as int, q as int, rest as int, i as nat);
            }
            return 0x8000_0000_0000_0000_0000_0000_0000_0000;
        }
        proof {
            lemma_pow2_unfold((i + 1) as nat);
            lemma_double(a as int, b as int, q as int, rest as int, pow2(i as nat) as int);
        }
        rest = rest * 2;
        q = q * 2;
        if rest >= b {
            proof {
                lemma_carry(b as int, q as int, rest as int);
            }
            rest = rest - b;
            q = q + 1;
        }
        i = i + 1;
    }
    proof {
        lemma2_to64();
        lemma_pow2_adds(64, 16);
        lemma_quotient(a * ONE, b as int, q as int, rest as int);
    }
    if q < 0x8000_0000_0000_0000_0000_0000_0000_0000 {
        q
    } else {
        0x8000_0000_0000_0000_0000_0000_0000_0000
    }
}

proof fn lemma_same_quotient(a: int, k: int, t: int)
    requires
        a >= 0,
        k > 0,
        t > 0,
    ensures
        a * t / (k * t) == a / k,
{
    vstd::arithmetic::div_mod::lemma_div_multiples_vanish_quotient(t, a, k);
    vstd::arithmetic::mul::lemma_mul_is_commutative(a, t);
    vstd::arithmetic::mul::lemma_mul_is_commutative(k, t);
}

proof fn lemma_split(a: int, b: int)
    requires
        b > 0,
    ensures
        (a / b) * b + a % b == a,
{
    vstd::arithmetic::div_mod::lemma_fundamental_div_mod(a, b);
    vstd::arithmetic::mul::lemma_mul_is_commutative(a / b, b);
}

proof fn lemma_double(a: int, b: int, q: int, rest: int, p: int)
    by (nonlinear_arith)
    requires
        q * b + rest == a * p,
    ensures
        (q * 2) * b + rest * 2 == a * (2 * p),
{
}

proof fn lemma_carry(b: int, q: int, rest: int)
    by (nonlinear_arith)
    ensures
        (q + 1) * b + (rest - b) == q * b + rest,
{
}

proof fn lemma_quotient(n: int, b: int, q: int, rest: int)
    requires
        b > 0,
        n == q * b + rest,
        0 <= rest < b,
    ensures
        n / b == q,
{
    vstd::arithmetic::div_mod::lemma_fundamental_div_mod_converse(n, b, q, rest);
}

proof fn lemma_quotient_large(a: int, b: int, q: int, rest: int, i: nat)
    requires
        b > 0,
        rest >= 0,
        i < 80,
        q >= 0x4000_0000_0000_0000_0000_0000_0000_0000,
        q * b + rest == a * pow2(i),
    ensures
        a * ONE / b >= 0x8000_0000_0000_0000_0000_0000_0000_0000,
{
    let s = pow2((80 - i) as nat) as int;
    lemma2_to64();
    lemma_pow2_adds(64, 16);
    lemma_pow2_adds(i, (80 - i) as nat);
    lemma_pow2_pos((79 - i) as nat);
    lemma_pow2_unfold((80 - i) as nat);
    let p = pow2(i) as int;
    assert(a * (p * s) >= 0x8000_0000_0000_0000_0000_0000_0000_0000 * b) by (nonlinear_arith)
        requires
            q * b + rest == a * p,
            q >= 0x4000_0000_0000_0000_0000_0000_0000_0000,
            b > 0,
            rest >= 0,
            s >= 2,
    ;
    vstd::arithmetic::div_mod::lemma_div_is_ordered(
        0x8000_0000_0000_0000_0000_0000_0000_0000 * b,
        a * ONE,
        b,
    );
    vstd::arithmetic::div_mod::lemma_div_by_multiple(
        0x8000_0000_0000_0000_0000_0000_0000_0000,
        b,
    );
}

pub fn fx_div(a: PrcFmt, b: PrcFmt) -> (r: PrcFmt)
    ensures
        r == quot(a, b),
{
    reveal(quot);
    if b == 0 {
        if a > 0 {
            i128::MAX
        } else if a < 0 {
            i128::MIN
        } else {
            0
        }
    } else {
        let negative: bool = (a < 0) != (b < 0);
        let m: u128 = divide_steps(steps(a), steps(b));
        assert(0int / (if b < 0 { -b } else { b as int }) == 0) by {
            vstd::arithmetic::div_mod::lemma_div_of0(if b < 0 { -b } else { b as int });
        }
        signed(m, negative)
    }
}

/// Zero times anything is zero.
pub proof fn lemma_prod_zero(a: PrcFmt)
    ensures
        prod(0, a) == 0,
        prod(a, 0) == 0,
{
    assert(0 * a == 0 && a * 0 == 0) by (nonlinear_arith);
}

/// Division by a positive number keeps the order.
proof fn lemma_cut_ordered(m: int, n: int, d: int)
    requires
        m <= n,
        d > 0,
    ensures
        cut(m, d) <= cut(n, d),
{
    if m >= 0 {
        vstd::arithmetic::div_mod::lemma_div_is_ordered(m, n, d);
    } else if n < 0 {
        vstd::arithmetic::div_mod::lemma_div_is_ordered(-n, -m, d);
    } else {
        vstd::arithmetic::div_mod::lemma_div_pos_is_pos(n, d);
        vstd::arithmetic::div_mod::lemma_div_pos_is_pos(-m, d);
    }
}

/// Multiplication by a number that is not negative keeps the order, and the sign.
pub proof fn lemma_prod_ordered(a: PrcFmt, c: PrcFmt, b: PrcFmt)
    requires
        a <= c,
        b >= 0,
    ensures
        prod(a, b) <= prod(c, b),
        prod(b, a) <= prod(b, c),
        a >= 0 ==> prod(a, b) >= 0 && prod(b, a) >= 0,
        a <= 0 ==> prod(a, b) <= 0 && prod(b, a) <= 0,
{
    assert(a * b <= c * b) by (nonlinear_arith)
        requires
            a <= c,
            b >= 0,
    ;
    assert(a * b == b * a && c * b == b * c) by (nonlinear_arith);
    lemma_cut_ordered(a * b, c * b, ONE as int);
    if a >= 0 {
        assert(a * b >= 0) by (nonlinear_arith)
            requires
                a >= 0,
                b >= 0,
        ;
    }
    if a <= 0 {
        assert(a * b <= 0) by (nonlinear_arith)
            requires
                a <= 0,
                b >= 0,
        ;
    }
}

/// One times a number is the number.
pub proof fn lemma_prod_one(a: PrcFmt)
    ensures
        prod(a, ONE) == a,
        prod(ONE, a) == a,
{
    assert(a * ONE == ONE * a) by (nonlinear_arith);
}

/// A share of a number lies between zero and the number.
pub proof fn lemma_prod_share(a: PrcFmt, b: PrcFmt)
    requires
        0 <= b <= ONE,
    ensures
        a >= 0 ==> 0 <= prod(a, b) <= a && 0 <= prod(b, a) <= a,
        a <= 0 ==> a <= prod(a, b) <= 0 && a <= prod(b, a) <= 0,
{
    lemma_prod_one(a);
    assert(a * b == b * a) by (nonlinear_arith);
    if a >= 0 {
        lemma_prod_ordered(b, ONE, a);
    } else {
        assert(a * ONE <= a * b <= 0) by (nonlinear_arith)
            requires
                a <= 0,
                0 <= b <= ONE,
        ;
        lemma_cut_ordered(a * ONE, a * b, ONE as int);
        lemma_cut_ordered(a * b, 0, ONE as int);
    }
}

/// Smoothing stays between the bounds of what it smooths, where zero lies between them.
pub proof fn lemma_smoothed_between(c: PrcFmt, x: PrcFmt, y: PrcFmt, lo: PrcFmt, hi: PrcFmt)
    requires
        0 <= c <= ONE,
        lo <= x <= hi,
        lo <= y <= hi,
        lo <= 0 <= hi,
    ensures
        lo <= smoothed(c, x, y) <= hi,
{
    let d = (ONE - c) as PrcFmt;
    lemma_prod_ordered(x, hi, c);
    lemma_prod_ordered(y, hi, d);
    lemma_prod_ordered(lo, x, c);
    lemma_prod_ordered(lo, y, d);
    lemma_shares(c as int, d as int, hi as int);
    lemma_shares(c as int, d as int, -lo);
    lemma_prod_share(hi, c);
    lemma_prod_share(hi, d);
    lemma_prod_share(lo, c);
    lemma_prod_share(lo, d);
    assert(c * lo == -(c * (-lo)) && d * lo == -(d * (-lo))) by (nonlinear_arith);
    assert(c * hi >= 0 && d * hi >= 0 && c * (-lo) >= 0 && d * (-lo) >= 0) by (nonlinear_arith)
        requires
            c >= 0,
            d >= 0,
            hi >= 0,
            lo <= 0,
    ;
}

/// The two shares of a number that is not negative do not add up to more than it.
proof fn lemma_shares(c: int, d: int, v: int)
    requires
        c >= 0,
        d >= 0,
        c + d == ONE,
        v >= 0,
    ensures
        c * v / (ONE as int) + d * v / (ONE as int) <= v,
{
    assert(c * v + d * v == ONE * v) by (nonlinear_arith)
        requires
            c + d == ONE,
    ;
}

/// Division by a positive number keeps the order and the sign. A number that is not
/// negative, over zero or more, is not negative.
pub proof fn lemma_quot_ordered(a: PrcFmt, c: PrcFmt, b: PrcFmt)
    requires
        a <= c,
        b > 0,
    ensures
        quot(a, b) <= quot(c, b),
        a >= 0 ==> quot(a, b) >= 0,
        a <= 0 ==> quot(a, b) <= 0,
{
    reveal(quot);
    lemma_cut_ordered(a * ONE, c * ONE, b as int);
    lemma_cut_zero(b as int);
    if a >= 0 {
        lemma_cut_ordered(0, a * ONE, b as int);
    }
    if a <= 0 {
        lemma_cut_ordered(a * ONE, 0, b as int);
    }
}

proof fn lemma_cut_zero(d: int)
    requires
        d > 0,
    ensures
        cut(0, d) == 0,
{
    vstd::arithmetic::div_mod::lemma_div_of0(d);
}

/// The sign of a quotient whose divisor is not negative.
pub proof fn lemma_quot_sign(a: PrcFmt, b: PrcFmt)
    requires
        b >= 0,
    ensures
        a >= 0 ==> quot(a, b) >= 0,
        a <= 0 ==> quot(a, b) <= 0,
{
    if b > 0 {
        lemma_quot_ordered(a, a, b);
    } else {
        reveal(quot);
    }
}

/// A number over a number at least as large is at most one.
pub proof fn lemma_quot_share(a: PrcFmt, b: PrcFmt)
    requires
        0 <= a <= b,
        b > 0,
    ensures
        0 <= quot(a, b) <= ONE,
        a == b ==> quot(a, b) == ONE,
{
    lemma_quot_ordered(a, b, b);
    reveal(quot);
    vstd::arithmetic::div_mod::lemma_div_multiples_vanish(ONE as int, b as int);
    assert(b * ONE == ONE * b) by (nonlinear_arith);
}

/// Zero over a positive number is zero.
pub proof fn lemma_quot_zero(b: PrcFmt)
    requires
        b > 0,
    ensures
        quot(0, b) == 0,
{
    lemma_quot_ordered(0, 0, b);
}

proof fn lemma_square_below(a: int, b: int)
    requires
        0 <= a <= b,
    ensures
        0 <= a * a <= b * b,
        a * a / (ONE as int) <= b * b / (ONE as int),
{
    assert(0 <= a * a <= b * b) by (nonlinear_arith)
        requires
            0 <= a <= b,
    ;
    vstd::arithmetic::div_mod::lemma_div_is_ordered(a * a, b * b, ONE as int);
}

proof fn lemma_root_unique(r: PrcFmt, s: PrcFmt, x: PrcFmt)
    requires
        is_root(r, x),
        is_root(s, x),
    ensures
        r == s,
{
    if r < s {
        lemma_square_below(r + 1, s as int);
    } else if s < r {
        lemma_square_below(s + 1, r as int);
    }
}

/// Every positive number has a square root.
pub proof fn lemma_root(x: PrcFmt)
    ensures
        root(x) >= 0,
        x > 0 ==> is_root(root(x), x),
{
    if x > 0 {
        lemma_root_search(x, 0, 0xb504f333f9de6484597d89b376);
    }
}

proof fn lemma_root_search(x: PrcFmt, lo: PrcFmt, hi: PrcFmt)
    requires
        x > 0,
        0 <= lo < hi <= 0xb504f333f9de6484597d89b376,
        lo * lo / (ONE as int) <= x < hi * hi / (ONE as int),
    ensures
        is_root(root(x), x),
    decreases hi - lo,
{
    if hi - lo <= 1 {
        assert(is_root(lo, x));
    } else if (lo + 1) * (lo + 1) / (ONE as int) <= x {
        lemma_root_search(x, (lo + 1) as PrcFmt, hi);
    } else {
        assert(is_root(lo, x));
    }
}

/// The square root, and zero where there is none.
pub fn fx_sqrt(x: PrcFmt) -> (r: PrcFmt)
    ensures
        r == root(x),
        x > 0 ==> is_root(r, x),
        0 <= r < 0xb504f333f9de6484597d89b376,
{
    if x <= 0 {
        return 0;
    }
    let mut lo: PrcFmt = 0;
    let mut hi: PrcFmt = 0xb504f333f9de6484597d89b376;
    while hi - lo > 1
        invariant
            x > 0,
            0 <= lo < hi <= 0xb504f333f9de6484597d89b376,
            lo * lo / (ONE as int) <= x < hi * hi / (ONE as int),
        decreases hi - lo,
    {
        let mid: PrcFmt = lo + (hi - lo) / 2;
        proof {
            lemma_square_below(mid as int, 0xb504f333f9de6484597d89b375);
        }
        if fx_mul(mid, mid) <= x {
            lo = mid;
        } else {
            hi = mid;
        }
    }
    proof {
        assert(is_root(lo, x));
        lemma_root_unique(lo, root(x), x);
    }
    lo
}

} // verus!
