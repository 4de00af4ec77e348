//! What makes sound count as dialogue: how alike the sides are, and how much of the centre lies
//! in the speech band.
use crate::decibels::POWER_FLOOR;
use crate::fixed::{
    diff, is_root, lemma_prod_zero, lemma_quot_sign, lemma_root, prod, quot, ramp, root, sum,
    PrcFmt, HALF, ONE,
};
use crate::hops::{Estimate, Frame, Listener, Sums};
use crate::settings::{Settings, Setup};
use crate::sidechain::{left_of, mid_of, right_of};
use crate::tuning::{BAND_FRACTION_MIN, BAND_FRACTION_SPAN, RHO_MIN, RHO_SPAN};
use vstd::prelude::*;

verus! {

/// The sums of a hop with the sides exchanged.
pub open spec fn exchanged(sums: Sums) -> Sums {
    Sums { left: sums.right, right: sums.left, ..sums }
}

/// Frames with the sides exchanged.
pub open spec fn frames_exchanged(frames: Seq<Frame>) -> Seq<Frame> {
    Seq::new(
        frames.len(),
        |j: int| Frame { left: frames[j].right, right: frames[j].left, ..frames[j] },
    )
}

/// Which side is which makes no difference: with the sides of a hop exchanged, every cue and
/// all that is concluded stay the same.
pub proof fn law_sides_can_be_exchanged(e: Estimate, sums: Sums, s: Settings, u: Setup)
    ensures
        exchanged(sums).centred() == sums.centred(),
        exchanged(sums).speechlike() == sums.speechlike(),
        e.after_hop(exchanged(sums), s, u) == e.after_hop(sums, s, u),
{
    assert(sums.left * sums.right == sums.right * sums.left) by (nonlinear_arith);
}

/// So it is for any number of frames.
pub proof fn law_sides_of_frames_can_be_exchanged(
    l: Listener,
    frames: Seq<Frame>,
    n: int,
    s: Settings,
    u: Setup,
)
    requires
        0 <= n <= frames.len(),
    ensures
        (Listener { sums: exchanged(l.sums), ..l }).after_frames(frames_exchanged(frames), n, s, u)
            == (Listener {
            sums: exchanged(l.after_frames(frames, n, s, u).sums),
            ..l.after_frames(frames, n, s, u)
        }),
    decreases n,
{
    if n > 0 {
        law_sides_of_frames_can_be_exchanged(l, frames, n - 1, s, u);
        let before = l.after_frames(frames, n - 1, s, u);
        let f = frames[n - 1];
        assert(f.left * f.right == f.right * f.left) by (nonlinear_arith);
        law_sides_can_be_exchanged(before.estimate, before.sums.with(f), s, u);
    }
}

/// The two channels of a stereo pair are its sides, and exchanging them leaves the centre as it
/// is.
pub proof fn law_stereo_pair_can_be_exchanged(a: Seq<PrcFmt>, b: Seq<PrcFmt>, frames: int)
    ensures
        left_of(None, seq![a, b], frames) == right_of(None, seq![b, a], frames),
        right_of(None, seq![a, b], frames) == left_of(None, seq![b, a], frames),
        mid_of(None, seq![a, b], frames) == mid_of(None, seq![b, a], frames),
{
    assert(mid_of(None, seq![a, b], frames) =~= mid_of(None, seq![b, a], frames));
}

/// The centre of a stereo pair is what both sides have in common: nothing of sides that oppose
/// each other, and all of sides that are equal.
pub proof fn law_centre_is_what_the_sides_share(
    a: Seq<PrcFmt>,
    b: Seq<PrcFmt>,
    frames: int,
    j: int,
)
    requires
        0 <= j < frames,
    ensures
        a[j] + b[j] == 0 ==> mid_of(None, seq![a, b], frames)[j] == 0,
        a[j] == b[j] && -0x4000_0000_0000_0000_0000_0000_0000_0000 < a[j]
            < 0x4000_0000_0000_0000_0000_0000_0000_0000 ==> mid_of(None, seq![a, b], frames)[j]
            == prod(a[j], a[j]),
{
    lemma_prod_zero(HALF);
    lemma_prod_zero(0);
    let waves = seq![a, b];
    assert(waves[0] == a && waves[1] == b);
    if a[j] == b[j] && -0x4000_0000_0000_0000_0000_0000_0000_0000 < a[j]
        < 0x4000_0000_0000_0000_0000_0000_0000_0000 {
        lemma_half_of_twice(a[j]);
    }
}

/// Half of a number that was doubled is that number.
proof fn lemma_half_of_twice(v: PrcFmt)
    requires
        -0x4000_0000_0000_0000_0000_0000_0000_0000 < v
            < 0x4000_0000_0000_0000_0000_0000_0000_0000,
    ensures
        prod(HALF, sum(v, v)) == v,
{
    assert(HALF * (2 * v) == v * ONE) by (nonlinear_arith)
        requires
            2 * HALF == ONE,
    ;
}

/// In the speech band as well: sides that oppose each other add nothing to the centre, and equal
/// sides add their own power.
pub proof fn law_speech_centre_is_what_the_sides_share(sums: Sums, frame: Frame)
    ensures
        frame.left + frame.right == 0 ==> sums.with(frame).mid_speech == sums.mid_speech,
        frame.left == frame.right && -0x4000_0000_0000_0000_0000_0000_0000_0000 < frame.left
            < 0x4000_0000_0000_0000_0000_0000_0000_0000 ==> sums.with(frame).mid_speech == sum(
            sums.mid_speech,
            prod(frame.left, frame.left),
        ),
{
    lemma_prod_zero(HALF);
    lemma_prod_zero(0);
    if frame.left == frame.right && -0x4000_0000_0000_0000_0000_0000_0000_0000 < frame.left
        < 0x4000_0000_0000_0000_0000_0000_0000_0000 {
        lemma_half_of_twice(frame.left);
    }
}

/// The size that the correlation is measured against, from both sides.
proof fn lemma_size(left: int, right: int, under: PrcFmt, r: int)
    requires
        left * right >= 0x100_0000_0000_0000_0000_0000_0000_0000,
        under == left * right / (ONE as int) + POWER_FLOOR,
        r == root(under),
    ensures
        r > 0x8000_0000_0000,
        (r + 1) * (r + 1) > left * right,
        0x400_0000 * (r * r) <= 0x400_0001 * (left * right),
{
    let s = ONE as int;
    let product = left * right;
    lemma_root(under);
    assert(under > 0);
    assert(is_root(root(under), under));
    assert(r * r < product + (POWER_FLOOR + 1) * s);
    assert((r + 1) * (r + 1) >= (under + 1) * s);
    assert((under + 1) * s > product);
    assert(r > 0x8000_0000_0000) by (nonlinear_arith)
        requires
            (r + 1) * (r + 1) > product,
            product >= 0x100_0000_0000_0000_0000_0000_0000_0000,
            r >= 0,
    ;
}

/// The correlation of the sides, against any share.
proof fn lemma_correlation(lr: PrcFmt, product: int, r: PrcFmt, x: int)
    requires
        0 <= x <= ONE,
        lr >= 0,
        r > 0x8000_0000_0000,
        product >= 0,
        (r + 1) * (r + 1) > product,
        0x400_0000 * (r * r) <= 0x400_0001 * product,
    ensures
        (lr * ONE) * (lr * ONE) >= (x * x) * product ==> quot(lr, r) >= x - 0x40_0000_0000_0000,
        (lr * ONE) * (lr * ONE) <= (x * x) * product ==> quot(lr, r) <= x + 0x40_0000_0000_0000,
{
    reveal(quot);
    let n = lr * ONE;
    let d = r as int;
    let rho = n / d;
    vstd::arithmetic::div_mod::lemma_fundamental_div_mod(n, d);
    vstd::arithmetic::div_mod::lemma_mod_bound(n, d);
    vstd::arithmetic::div_mod::lemma_div_pos_is_pos(n, d);
    let slack = 0x40_0000_0000_0000int;
    if n * n >= (x * x) * product && x > slack {
        let y = x - slack;
        let k = 0x400_0000int;
        assert(k * y <= (k - 1) * x);
        assert(k * y >= 0);
        assert((k * y) * (k * y) <= ((k - 1) * x) * ((k - 1) * x)) by (nonlinear_arith)
            requires
                0 <= k * y <= (k - 1) * x,
        ;
        let (yy, xx, rr) = (y * y, x * x, d * d);
        assert((k * y) * (k * y) == (k * k) * yy) by (nonlinear_arith)
            requires
                yy == y * y,
        ;
        assert(((k - 1) * x) * ((k - 1) * x) == ((k - 1) * (k - 1)) * xx) by (nonlinear_arith)
            requires
                xx == x * x,
        ;
        assert(xx >= 0 && yy >= 0 && rr >= 0) by (nonlinear_arith)
            requires
                xx == x * x,
                yy == y * y,
                rr == d * d,
        ;
        assert(yy * rr <= xx * product) by (nonlinear_arith)
            requires
                (k * k) * yy <= ((k - 1) * (k - 1)) * xx,
                k * rr <= (k + 1) * product,
                k == 0x400_0000,
                xx >= 0,
                yy >= 0,
                rr >= 0,
                product >= 0,
        {
            assert(((k * k) * yy) * (k * rr) <= (((k - 1) * (k - 1)) * xx) * ((k + 1) * product));
            assert(((k - 1) * (k - 1)) * (k + 1) <= k * k * k);
            assert((((k - 1) * (k - 1)) * (k + 1)) * (xx * product) <= (k * k * k) * (xx
                * product));
        }
        assert(y * d <= n) by (nonlinear_arith)
            requires
                (y * y) * (d * d) <= n * n,
                y >= 0,
                d >= 0,
                n >= 0,
        {
            assert((y * d) * (y * d) == (y * y) * (d * d));
        }
        vstd::arithmetic::div_mod::lemma_div_is_ordered(y * d, n, d);
        vstd::arithmetic::div_mod::lemma_div_by_multiple(y, d);
    }
    if n * n <= (x * x) * product {
        assert(n <= x * (d + 1)) by (nonlinear_arith)
            requires
                n * n <= (x * x) * product,
                product < (d + 1) * (d + 1),
                x >= 0,
                d >= 0,
                n >= 0,
        {
            assert((x * x) * product <= (x * x) * ((d + 1) * (d + 1)));
            assert((x * (d + 1)) * (x * (d + 1)) == (x * x) * ((d + 1) * (d + 1)));
        }
        assert(n < (x + slack + 1) * d) by (nonlinear_arith)
            requires
                n <= x * (d + 1),
                x <= 0x1_0000_0000_0000_0000_0000,
                d > 0x8000_0000_0000,
                slack == 0x40_0000_0000_0000,
        ;
        assert(rho < x + slack + 1) by (nonlinear_arith)
            requires
                d * rho <= n,
                n < (x + slack + 1) * d,
                d > 0,
        ;
    }
}

/// How centred sound is depends on the correlation of its sides and on nothing else: it is
/// nothing up to a correlation of 0.3, all from 0.9 on, and in proportion between. The
/// correlation is what the sides have in common over the geometric mean of their powers, so it
/// is at least `x` where the square of the one is at least `x` squared times that of the other.
pub proof fn law_centred_is_the_correlation(sums: Sums, x: int)
    requires
        0 <= x <= ONE,
        sums.left >= 0,
        sums.right >= 0,
        0x100_0000_0000_0000_0000_0000_0000_0000 <= sums.left * sums.right
            < 0x4000_0000_0000_0000_0000_0000_0000_0000 * ONE,
    ensures
        sums.lr >= 0 && (sums.lr * ONE) * (sums.lr * ONE) >= (x * x) * (sums.left * sums.right)
            ==> sums.centred() == ONE || 6 * sums.centred() >= 10 * x - 3 * ONE
            - 0x400_0000_0000_0000,
        sums.lr < 0 || (sums.lr * ONE) * (sums.lr * ONE) <= (x * x) * (sums.left * sums.right)
            ==> sums.centred() == 0 || 6 * sums.centred() <= 10 * x - 3 * ONE
            + 0x400_0000_0000_0000,
        0 <= sums.centred() <= ONE,
{
    let product = sums.left * sums.right;
    let under = sum(prod(sums.left, sums.right), POWER_FLOOR);
    let r = root(under);
    assert(under == product / (ONE as int) + POWER_FLOOR);
    lemma_size(sums.left as int, sums.right as int, under, r as int);
    let rho = quot(sums.lr, r);
    if sums.lr < 0 {
        lemma_quot_sign(sums.lr, r);
        lemma_ramp(rho, RHO_MIN, RHO_SPAN);
    } else {
        lemma_correlation(sums.lr, product, r, x);
        lemma_ramp(rho, RHO_MIN, RHO_SPAN);
    }
}

/// A ramp in whole numbers: between its ends it is the part of the way that has been covered.
proof fn lemma_ramp(x: PrcFmt, lo: PrcFmt, span: PrcFmt)
    requires
        0 < span <= ONE,
        0 <= lo <= ONE,
    ensures
        ({
            let v = ramp(x, lo, span);
            &&& 0 <= v <= ONE
            &&& x <= lo ==> v == 0
            &&& x >= lo + span ==> v == ONE
            &&& lo <= x <= lo + span ==> (x - lo) * ONE - span <= v * span <= (x - lo) * ONE
        }),
{
    reveal(quot);
    let p = span as int;
    let d = diff(x, lo);
    let n = d * ONE;
    let top = ONE * p;
    if x >= lo {
        vstd::arithmetic::div_mod::lemma_fundamental_div_mod(n, p);
        vstd::arithmetic::div_mod::lemma_mod_bound(n, p);
        vstd::arithmetic::div_mod::lemma_div_pos_is_pos(n, p);
        vstd::arithmetic::div_mod::lemma_div_by_multiple(ONE as int, p);
        let q = n / p;
        if x >= lo + span {
            vstd::arithmetic::div_mod::lemma_div_is_ordered(top, n, p);
        }
        if x <= lo + span {
            vstd::arithmetic::div_mod::lemma_div_is_ordered(n, top, p);
            assert(q * p == p * q) by (nonlinear_arith);
        }
        if x == lo {
            vstd::arithmetic::div_mod::lemma_div_of0(p);
        }
    } else {
        vstd::arithmetic::div_mod::lemma_div_pos_is_pos(-n, p);
    }
}

/// How much sound is like speech depends on the share of the centre's power that lies in the
/// speech band: nothing up to 0.2, all from 0.6 on, and in proportion between.
pub proof fn law_speechlike_is_the_share_of_the_band(sums: Sums, x: int)
    requires
        0 <= x <= ONE,
        sums.mid_speech >= 0,
        0 <= sums.mid_full <= i128::MAX - POWER_FLOOR,
    ensures
        sums.mid_speech * ONE >= x * (sums.mid_full + POWER_FLOOR) ==> sums.speechlike() == ONE || 4
            * sums.speechlike() >= 10 * x - 2 * ONE - 100,
        sums.mid_speech * ONE <= x * (sums.mid_full + POWER_FLOOR) ==> sums.speechlike() == 0 || 4
            * sums.speechlike() <= 10 * x - 2 * ONE + 100,
        0 <= sums.speechlike() <= ONE,
{
    reveal(quot);
    let d = sums.mid_full + POWER_FLOOR;
    let n = sums.mid_speech * ONE;
    let q = n / d;
    vstd::arithmetic::div_mod::lemma_fundamental_div_mod(n, d);
    vstd::arithmetic::div_mod::lemma_mod_bound(n, d);
    vstd::arithmetic::div_mod::lemma_div_pos_is_pos(n, d);
    if n >= x * d {
        vstd::arithmetic::div_mod::lemma_div_is_ordered(x * d, n, d);
        vstd::arithmetic::div_mod::lemma_div_by_multiple(x, d);
    }
    if n <= x * d {
        vstd::arithmetic::div_mod::lemma_div_is_ordered(n, x * d, d);
        vstd::arithmetic::div_mod::lemma_div_by_multiple(x, d);
    }
    let share = quot(sums.mid_speech, sum(sums.mid_full, POWER_FLOOR));
    lemma_ramp(share, BAND_FRACTION_MIN, BAND_FRACTION_SPAN);
}

/// The sums over the first `n` of some frames.
pub open spec fn summed(frames: Seq<Frame>, n: int) -> Sums
    decreases n,
{
    if n <= 0 {
        Sums::empty()
    } else {
        summed(frames, n - 1).with(frames[n - 1])
    }
}

/// The exact sum of the products of the sides.
spec fn exact(frames: Seq<Frame>, n: int, p: bool, q: bool) -> int
    decreases n,
{
    if n <= 0 {
        0
    } else {
        let f = frames[n - 1];
        let (x, y) = (
            if p {
                f.right
            } else {
                f.left
            },
            if q {
                f.right
            } else {
                f.left
            },
        );
        exact(frames, n - 1, p, q) + x * y
    }
}

/// Whether one side is the other one times a positive factor `b / a`.
pub open spec fn proportional(frames: Seq<Frame>, n: int, a: int, b: int) -> bool {
    &&& a > 0
    &&& b > 0
    &&& 0 <= n <= frames.len()
    &&& forall|j: int| 0 <= j < n ==> (#[trigger] frames[j]).left * b == frames[j].right * a
}

proof fn lemma_proportional_sums(frames: Seq<Frame>, n: int, a: int, b: int)
    requires
        proportional(frames, n, a, b),
        summed(frames, n).lr < i128::MAX,
    ensures
        ({
            let sums = summed(frames, n);
            let (x, y, z) = (
                exact(frames, n, false, false),
                exact(frames, n, true, true),
                exact(frames, n, false, true),
            );
            &&& 0 <= sums.left * ONE <= x
            &&& 0 <= sums.right * ONE <= y
            &&& 0 <= sums.lr
            &&& z <= (sums.lr + n) * ONE
            &&& x * b == z * a
            &&& y * a == z * b
            &&& z >= 0
        }),
    decreases n,
{
    if n > 0 {
        let f = frames[n - 1];
        let (l, r) = (f.left as int, f.right as int);
        assert(f.left * b == f.right * a);
        assert(l * l >= 0 && r * r >= 0) by (nonlinear_arith);
        assert(l * r >= 0) by (nonlinear_arith)
            requires
                l * b == r * a,
                a > 0,
                b > 0,
        {
            assert((l * r) * a == (l * l) * b);
            assert((l * l) * b >= 0);
        }
        let before = summed(frames, n - 1);
        assert(prod(f.left, f.right) >= 0);
        assert(before.lr < i128::MAX);
        lemma_proportional_sums(frames, n - 1, a, b);
        let (x, y, z) = (
            exact(frames, n - 1, false, false),
            exact(frames, n - 1, true, true),
            exact(frames, n - 1, false, true),
        );
        assert((x + l * l) * b == (z + l * r) * a) by (nonlinear_arith)
            requires
                x * b == z * a,
                l * b == r * a,
        {
            assert((l * l) * b == (l * r) * a);
        }
        assert((y + r * r) * a == (z + l * r) * b) by (nonlinear_arith)
            requires
                y * a == z * b,
                l * b == r * a,
        {
            assert((r * r) * a == (l * r) * b);
        }
        assert(prod(f.left, f.right) * ONE > l * r - ONE);
    } else {
        assert(0 * b == 0 * a);
    }
}

/// Sound that is the same on both sides but for its strength is fully centred, whichever side
/// is the stronger and however much, unless it is all but silent: a voice off the middle is
/// still a voice.
pub proof fn law_proportional_sides_are_centred(frames: Seq<Frame>, n: int, a: int, b: int)
    requires
        proportional(frames, n, a, b),
        n <= 0x1_0000_0000,
        summed(frames, n).lr < i128::MAX,
        0x100_0000_0000_0000_0000_0000_0000_0000 <= summed(frames, n).left * summed(
            frames,
            n,
        ).right < 0x4000_0000_0000_0000_0000_0000_0000_0000 * ONE,
    ensures
        summed(frames, n).centred() == ONE,
{
    let sums = summed(frames, n);
    lemma_proportional_sums(frames, n, a, b);
    let (x, y, z) = (
        exact(frames, n, false, false),
        exact(frames, n, true, true),
        exact(frames, n, false, true),
    );
    let s = ONE as int;
    let (p, q, w) = (sums.left as int, sums.right as int, sums.lr as int);
    assert(x * y == z * z) by (nonlinear_arith)
        requires
            x * b == z * a,
            y * a == z * b,
            a > 0,
            b > 0,
    {
        assert((x * b) * (y * a) == (z * a) * (z * b));
        assert((x * y) * (a * b) == (z * z) * (a * b));
        assert(a * b > 0);
    }
    let c = w + n;
    assert(p * q <= c * c) by (nonlinear_arith)
        requires
            0 <= p * s <= x,
            0 <= q * s <= y,
            x * y == z * z,
            0 <= z <= c * s,
            s > 0,
    {
        assert((p * s) * (q * s) <= x * y);
        assert(z * z <= (c * s) * (c * s));
        assert((p * q) * (s * s) <= (c * c) * (s * s));
        assert(s * s > 0);
    }
    // The rounding of the frames is far from a hundredth of the whole.
    assert(100 * n <= c) by (nonlinear_arith)
        requires
            p * q <= c * c,
            p * q >= 0x100_0000_0000_0000_0000_0000_0000_0000,
            0 <= n <= 0x1_0000_0000,
            c >= 0,
    ;
    let g = 0xfd70_a3d7_0a3d_70a3_d70aint;
    assert((w * s) * (w * s) >= (g * g) * (p * q)) by (nonlinear_arith)
        requires
            p * q <= c * c,
            100 * w >= 99 * c,
            g == 0xfd70_a3d7_0a3d_70a3_d70a,
            s == 0x1_0000_0000_0000_0000_0000,
            w >= 0,
            c >= 0,
    {
        assert(100 * g <= 99 * s);
        assert(w * s >= g * c) by {
            assert(100 * (w * s) >= 99 * (c * s));
            assert((100 * g) * c <= (99 * s) * c);
        }
        assert((w * s) * (w * s) >= (g * c) * (g * c));
        assert((g * c) * (g * c) == (g * g) * (c * c));
        assert((g * g) * (p * q) <= (g * g) * (c * c));
    }
    law_centred_is_the_correlation(sums, g);
}

} // verus!
