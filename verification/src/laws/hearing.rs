//! What a hop tells: its level, the cues of the detector, and what becomes of the reference.
use crate::decibels::level_db_of;
use crate::fixed::{
    diff, lemma_prod_share, magnitude, prod, quot, smoothed, sum, whole, PrcFmt, HALF, ONE,
};
use crate::hops::{Estimate, Frame, Listener, Sums};
use crate::laws::detection::summed;
use crate::laws::reference::apart;
use crate::laws::stages::lemma_prod_cuts;
use crate::settings::{Settings, Setup};
use crate::tuning::{MODULATION_FULL_DB, REFERENCE_MAX_DB, REFERENCE_MIN_DB};
use vstd::prelude::*;

verus! {

/// The exact sum of the powers of the first `n` frames.
pub open spec fn heard_power(frames: Seq<Frame>, n: int) -> int
    decreases n,
{
    if n <= 0 {
        0
    } else {
        heard_power(frames, n - 1) + frames[n - 1].power
    }
}

/// The exact sum of the powers of the centre in the first `n` frames.
pub open spec fn heard_centre(frames: Seq<Frame>, n: int) -> int
    decreases n,
{
    if n <= 0 {
        0
    } else {
        heard_centre(frames, n - 1) + frames[n - 1].mid
    }
}

/// A hop is concluded from all its frames and no others: once as many have come as it lasts, it
/// is the sum of them, and the next one starts from nothing.
pub proof fn law_hop_is_the_sum_of_its_frames(
    l: Listener,
    frames: Seq<Frame>,
    s: Settings,
    u: Setup,
)
    requires
        l.sums == Sums::empty(),
        0 < u.hop_frames <= frames.len(),
    ensures
        l.after_frames(frames, u.hop_frames as int, s, u) == (Listener {
            sums: Sums::empty(),
            estimate: l.estimate.after_hop(summed(frames, u.hop_frames as int), s, u),
        }),
        forall|n: int|
            0 <= n < u.hop_frames ==> (#[trigger] l.after_frames(frames, n, s, u)) == (Listener {
                sums: summed(frames, n),
                estimate: l.estimate,
            }),
{
    assert forall|n: int| 0 <= n < u.hop_frames implies (#[trigger] l.after_frames(
        frames,
        n,
        s,
        u,
    )) == (Listener { sums: summed(frames, n), estimate: l.estimate }) by {
        lemma_under_way(l, frames, n, s, u);
    }
    let n = u.hop_frames - 1;
    lemma_under_way(l, frames, n, s, u);
    assert(summed(frames, n + 1).count == u.hop_frames) by {
        lemma_count(frames, n + 1);
    }
}

proof fn lemma_count(frames: Seq<Frame>, n: int)
    requires
        0 <= n <= usize::MAX,
    ensures
        summed(frames, n).count == n,
    decreases n,
{
    if n > 0 {
        lemma_count(frames, n - 1);
    }
}

proof fn lemma_under_way(l: Listener, frames: Seq<Frame>, n: int, s: Settings, u: Setup)
    requires
        l.sums == Sums::empty(),
        0 <= n < u.hop_frames,
    ensures
        l.after_frames(frames, n, s, u) == (Listener {
            sums: summed(frames, n),
            estimate: l.estimate,
        }),
    decreases n,
{
    if n > 0 {
        lemma_under_way(l, frames, n - 1, s, u);
        lemma_count(frames, n);
    }
}

/// What is summed over a hop is the power of its frames and of their centre.
pub proof fn law_powers_are_summed(frames: Seq<Frame>, n: int)
    requires
        0 <= n <= frames.len(),
        forall|j: int| 0 <= j < n ==> (#[trigger] frames[j]).power >= 0 && frames[j].mid >= 0,
        heard_power(frames, n) <= i128::MAX,
        heard_centre(frames, n) <= i128::MAX,
    ensures
        summed(frames, n).broadband == heard_power(frames, n),
        summed(frames, n).mid_full == heard_centre(frames, n),
        heard_power(frames, n) >= 0,
        heard_centre(frames, n) >= 0,
    decreases n,
{
    if n > 0 {
        assert(frames[n - 1].power >= 0 && frames[n - 1].mid >= 0);
        law_powers_are_summed(frames, n - 1);
    }
}

/// The quotient of a sum and a number of frames is the mean.
pub proof fn lemma_mean(v: PrcFmt, n: int)
    requires
        v >= 0,
        0 < n,
        n * ONE <= i128::MAX,
    ensures
        quot(v, whole(n)) == v as int / n,
        v as int / n >= 0,
{
    reveal(quot);
    let w = v as int;
    let q = w / n;
    assert(w * ONE / (n * ONE) == q && 0 <= q <= w) by (nonlinear_arith)
        requires
            q == w / n,
            w >= 0,
            n > 0,
    {
        let r = w % n;
        assert(w == q * n + r && 0 <= r < n);
        assert(w * ONE == q * (n * ONE) + r * ONE);
        assert(0 <= r * ONE < n * ONE);
        vstd::arithmetic::div_mod::lemma_fundamental_div_mod_converse(
            w * ONE,
            n * ONE,
            q,
            r * ONE,
        );
    }
}

/// The level that a hop tells is that of the mean power of its frames.
pub proof fn law_level_is_that_of_the_mean_power(
    l: Listener,
    frames: Seq<Frame>,
    s: Settings,
    u: Setup,
)
    requires
        l.sums == Sums::empty(),
        0 < u.hop_frames <= frames.len(),
        u.hop_frames * ONE <= i128::MAX,
        forall|j: int|
            0 <= j < u.hop_frames ==> (#[trigger] frames[j]).power >= 0 && frames[j].mid >= 0,
        heard_power(frames, u.hop_frames as int) <= i128::MAX,
        heard_centre(frames, u.hop_frames as int) <= i128::MAX,
    ensures
        l.after_frames(frames, u.hop_frames as int, s, u).estimate.level_db == level_db_of(
            (heard_power(frames, u.hop_frames as int) / (u.hop_frames as int)) as PrcFmt,
        ),
{
    let h = u.hop_frames as int;
    law_hop_is_the_sum_of_its_frames(l, frames, s, u);
    law_powers_are_summed(frames, h);
    lemma_mean(summed(frames, h).broadband, h);
}

/// The speech band level that a hop tells is that of the mean power of its centre in the speech
/// band.
pub proof fn law_speech_level_is_that_of_the_centre(sums: Sums, hop_frames: usize)
    requires
        sums.mid_speech >= 0,
        0 < hop_frames,
        hop_frames * ONE <= i128::MAX,
    ensures
        sums.speech_db(hop_frames) == level_db_of(
            (sums.mid_speech as int / hop_frames as int) as PrcFmt,
        ),
{
    lemma_mean(sums.mid_speech, hop_frames as int);
}

/// The power of the centre is that of half the sum of the sides.
pub proof fn law_speech_centre_is_half_the_sum(sums: Sums, frame: Frame)
    requires
        sums.mid_speech >= 0,
        -0x10_0000_0000_0000_0000_0000_0000 <= frame.left <= 0x10_0000_0000_0000_0000_0000_0000,
        -0x10_0000_0000_0000_0000_0000_0000 <= frame.right
            <= 0x10_0000_0000_0000_0000_0000_0000,
        sums.with(frame).mid_speech < i128::MAX,
    ensures
        ({
            let both = frame.left + frame.right;
            apart(
                4 * ((sums.with(frame).mid_speech - sums.mid_speech) * ONE),
                both * both,
            ) <= 4 * ONE + 2 * apart(both, 0)
        }),
{
    let t = frame.left + frame.right;
    let mid = prod(HALF, sum(frame.left, frame.right));
    lemma_half(t, mid);
}

/// Half of a sum, squared.
pub proof fn lemma_half(t: int, mid: PrcFmt)
    requires
        -0x20_0000_0000_0000_0000_0000_0000 <= t <= 0x20_0000_0000_0000_0000_0000_0000,
        mid == prod(HALF, t as PrcFmt),
    ensures
        prod(mid, mid) >= 0,
        apart(4 * (prod(mid, mid) * ONE), t * t) <= 4 * ONE + 2 * apart(t, 0),
{
    let m = mid as int;
    let a = apart(t, 0);
    assert(-1 <= 2 * m - t <= 1);
    assert(apart(2 * m, 0) <= a);
    assert(apart((2 * m) * (2 * m), t * t) <= 2 * a) by {
        let d = 2 * m - t;
        assert((2 * m) * (2 * m) - t * t == d * (2 * m + t)) by (nonlinear_arith)
            requires
                d == 2 * m - t,
        ;
        assert(-(2 * a) <= d * (2 * m + t) <= 2 * a) by (nonlinear_arith)
            requires
                -1 <= d <= 1,
                -(2 * a) <= 2 * m + t <= 2 * a,
        ;
    }
    assert((2 * m) * (2 * m) == 4 * (m * m)) by (nonlinear_arith);
    assert(0 <= m * m) by (nonlinear_arith);
    assert(m * m <= 0x10_0000_0000_0000_0000_0000_0000 * 0x10_0000_0000_0000_0000_0000_0000)
        by (nonlinear_arith)
        requires
            -0x10_0000_0000_0000_0000_0000_0000 <= m <= 0x10_0000_0000_0000_0000_0000_0000,
    ;
}

/// The first hop that is heard starts the slow mean of the speech band level.
pub proof fn law_first_hop_starts_the_speech_mean(e: Estimate, sums: Sums, s: Settings, u: Setup)
    requires
        u.valid(),
        e.speech_db_slow <= level_db_of(0),
        s.dialogue_protection != 0,
        sums.level_db(u.hop_frames) > s.silence_threshold,
        -1000 * ONE <= sums.speech_db(u.hop_frames) <= 1000 * ONE,
    ensures
        apart(
            e.after_hop(sums, s, u).speech_db_slow as int,
            sums.speech_db(u.hop_frames) as int,
        ) <= 2,
{
    lemma_stays(u.modulation_smooth, sums.speech_db(u.hop_frames));
}

/// Smoothing leaves what it is at already, up to rounding.
proof fn lemma_stays(c: PrcFmt, v: PrcFmt)
    requires
        0 <= c <= ONE,
        -1000 * ONE <= v <= 1000 * ONE,
    ensures
        apart(smoothed(c, v, v) as int, v as int) <= 2,
{
    let d = ONE - c;
    assert(c * v + d * v == v * ONE) by (nonlinear_arith)
        requires
            d == ONE - c,
    ;
    assert(-1000 * (ONE * ONE) <= c * v <= 1000 * (ONE * ONE)) by (nonlinear_arith)
        requires
            0 <= c <= ONE,
            -1000 * ONE <= v <= 1000 * ONE,
    {
        assert(c * v <= c * (1000 * ONE));
        assert(c * v >= c * (-1000 * ONE));
        assert(c * ONE <= ONE * ONE);
    }
    assert(-1000 * (ONE * ONE) <= d * v <= 1000 * (ONE * ONE)) by (nonlinear_arith)
        requires
            0 <= d <= ONE,
            -1000 * ONE <= v <= 1000 * ONE,
    {
        assert(d * v <= d * (1000 * ONE));
        assert(d * v >= d * (-1000 * ONE));
        assert(d * ONE <= ONE * ONE);
    }
}

/// Swings count in proportion to their mean size, in full from 2 dB on.
pub proof fn law_modulation_is_in_proportion(e: Estimate)
    requires
        e.modulation_energy >= 0,
    ensures
        e.modulation_energy <= 2 * ONE ==> apart(2 * e.modulation(), e.modulation_energy as int)
            <= 1,
        e.modulation_energy >= 2 * ONE ==> e.modulation() == ONE,
{
    reveal(quot);
    let m = e.modulation_energy as int;
    let full = MODULATION_FULL_DB as int;
    let q = m * ONE / full;
    vstd::arithmetic::div_mod::lemma_fundamental_div_mod(m * ONE, full);
    vstd::arithmetic::div_mod::lemma_mod_bound(m * ONE, full);
    assert(full * q == 2 * (q * ONE)) by (nonlinear_arith)
        requires
            full == 2 * ONE,
    ;
    assert(2 * q <= m <= 2 * q + 1);
}

/// The confidence that a hop suggests is the product of three cues, the last of which counts by
/// its weight: at no weight it is taken for granted, and at full weight it decides alone.
pub proof fn law_cues_are_multiplied(e: Estimate, sums: Sums, weight: PrcFmt)
    requires
        0 <= weight <= ONE,
        0 <= sums.centred() <= ONE,
        0 <= sums.speechlike() <= ONE,
    ensures
        ({
            let third = (ONE - weight) * ONE + weight * e.modulation();
            apart(
                e.raw_confidence(sums, weight) * (ONE * (ONE * ONE)),
                (sums.centred() * sums.speechlike()) * third,
            ) <= 3 * (ONE * (ONE * ONE))
        }),
{
    let (c, l, m) = (sums.centred(), sums.speechlike(), e.modulation());
    let rest = diff(ONE, weight);
    let part = prod(weight, m);
    lemma_prod_share(weight, m);
    let third = sum(rest, part);
    let pair = prod(c, l);
    lemma_prod_share(c, l);
    let x = (c * l) as int;
    let y = (ONE - weight) * ONE + weight * m;
    let (p, t, r) = (pair as int, third as int, e.raw_confidence(sums, weight) as int);
    assert(c * l >= 0 && weight * m >= 0 && weight * m <= weight * ONE) by (nonlinear_arith)
        requires
            c >= 0,
            l >= 0,
            weight >= 0,
            0 <= m <= ONE,
    ;
    assert(p * ONE <= x < (p + 1) * ONE);
    assert(t * ONE <= y < (t + 1) * ONE);
    assert(0 <= p <= ONE && 0 <= t <= ONE);
    assert(0 <= p * t <= ONE * ONE) by (nonlinear_arith)
        requires
            0 <= p <= ONE,
            0 <= t <= ONE,
    ;
    assert(r * ONE <= p * t < (r + 1) * ONE);
    lemma_three(p, t, r, x, y);
}

proof fn lemma_three(p: int, t: int, r: int, x: int, y: int)
    requires
        0 <= p <= ONE,
        0 <= t <= ONE,
        p * ONE <= x < (p + 1) * ONE,
        t * ONE <= y < (t + 1) * ONE,
        r * ONE <= p * t < (r + 1) * ONE,
    ensures
        apart(r * (ONE * (ONE * ONE)), x * y) <= 3 * (ONE * (ONE * ONE)),
{
    let w = ONE * ONE;
    assert((p * t) * w <= x * y) by (nonlinear_arith)
        requires
            p * ONE <= x,
            t * ONE <= y,
            p >= 0,
            t >= 0,
            w == ONE * ONE,
    {
        assert((p * ONE) * (t * ONE) <= x * y);
        assert((p * ONE) * (t * ONE) == (p * t) * w);
    }
    assert(x * y <= (p * t + p + t + 1) * w) by (nonlinear_arith)
        requires
            0 <= x <= (p + 1) * ONE,
            0 <= y <= (t + 1) * ONE,
            w == ONE * ONE,
    {
        assert(x * y <= ((p + 1) * ONE) * ((t + 1) * ONE));
        assert(((p + 1) * ONE) * ((t + 1) * ONE) == (p * t + p + t + 1) * w);
    }
    assert(r * (ONE * w) <= (p * t) * w && (p * t) * w <= (r + 1) * (ONE * w)) by (nonlinear_arith)
        requires
            r * ONE <= p * t <= (r + 1) * ONE,
            w > 0,
    ;
    assert((p * t + p + t + 1) * w == (p * t) * w + (p + t + 1) * w) by (nonlinear_arith);
    assert((r + 1) * (ONE * w) == r * (ONE * w) + ONE * w) by (nonlinear_arith);
    assert(r * ONE <= p * t);
    assert(p * t + p + t + 1 <= (r + 3) * ONE) by {
        assert(p * t <= (r + 1) * ONE - 1);
    }
    assert((p * t + p + t + 1) * w <= ((r + 3) * ONE) * w) by (nonlinear_arith)
        requires
            p * t + p + t + 1 <= (r + 3) * ONE,
            w > 0,
    ;
    assert(((r + 3) * ONE) * w == r * (ONE * w) + 3 * (ONE * w)) by (nonlinear_arith);
}

/// Whether a hop is heard by the detector.
pub open spec fn heeded(sums: Sums, s: Settings, u: Setup) -> bool {
    s.dialogue_protection != 0 && sums.level_db(u.hop_frames) > s.silence_threshold
}

/// Where levels are trusted, the reference goes to the level by a whole step, or all the way
/// where less is left.
pub proof fn law_trusted_level_draws_the_reference(e: Estimate, sums: Sums, s: Settings, u: Setup)
    requires
        heeded(sums, s, u),
        s.reference_pinned is None,
        s.reference_step >= 0,
        REFERENCE_MIN_DB <= e.reference_db <= REFERENCE_MAX_DB,
        REFERENCE_MIN_DB <= sums.level_db(u.hop_frames) <= REFERENCE_MAX_DB,
        e.after_hop(sums, s, u).gate_open,
    ensures
        ({
            let (level, after) = (
                sums.level_db(u.hop_frames) as int,
                e.after_hop(sums, s, u).reference_db as int,
            );
            if apart(level, e.reference_db as int) <= s.reference_step {
                after == level
            } else {
                &&& apart(after, e.reference_db as int) == s.reference_step
                &&& apart(after, level) == apart(level, e.reference_db as int) - s.reference_step
            }
        }),
{
}

/// Levels are trusted once the confidence is above seven tenths, and no longer once it has
/// fallen to a half and the time for which trust lasts in any case is over.
pub proof fn law_trust_follows_the_confidence(e: Estimate, sums: Sums, s: Settings, u: Setup)
    requires
        heeded(sums, s, u),
        s.reference_pinned is None,
    ensures
        ({
            let after = e.after_hop(sums, s, u);
            &&& !e.gate_open ==> (after.gate_open <==> 10 * after.confidence > 7 * ONE)
            &&& e.gate_open ==> (after.gate_open <==> 2 * after.confidence > ONE || e.gate_hold > 1)
            &&& !e.gate_open && after.gate_open ==> after.gate_hold == u.gate_hold_hops
            &&& e.gate_open || !after.gate_open ==> after.gate_hold == if e.gate_hold > 0 {
                e.gate_hold - 1
            } else {
                0
            }
        }),
{
}

/// A swing is measured from the slow mean, which has followed it a little already: through a
/// bandpass at rest, what counts is what the bandpass passes at once of the part that the mean
/// has left of the jump.
pub proof fn law_swing_is_measured_from_the_mean(e: Estimate, speech_db: PrcFmt, u: Setup)
    requires
        u.valid(),
        e.bandpass.s1 == 0,
        0 <= e.bandpass.coeffs.b0 <= ONE,
        e.speech_db_slow > level_db_of(0),
        -1000 * ONE <= e.speech_db_slow <= 1000 * ONE,
        -1000 * ONE <= speech_db <= 1000 * ONE,
        0 <= e.modulation_energy <= 1000 * ONE,
    ensures
        ({
            let c = u.modulation_smooth;
            let left = prod(c, magnitude(diff(speech_db, e.speech_db_slow)));
            apart(
                e.after_swing(speech_db, u).modulation_energy as int,
                smoothed(c, e.modulation_energy, prod(e.bandpass.coeffs.b0, left)) as int,
            ) <= 8
        }),
{
    let (c, x, y, b) = (u.modulation_smooth, speech_db, e.speech_db_slow, e.bandpass.coeffs.b0);
    let d = diff(x, e.next_speech_db_slow(x, u));
    let jump = diff(x, y);
    let left = prod(c, magnitude(jump));
    assert(apart(magnitude(d) as int, left as int) <= 3) by {
        lemma_left(c, y, x);
    }
    lemma_prod_cuts(magnitude(jump), c);
    let size = magnitude(d);
    lemma_prod_cuts(size, b);
    lemma_prod_cuts(left, b);
    let (p, q) = (prod(b, size), prod(b, left));
    assert(magnitude(e.bandpass.output(d)) == p) by {
        assert(b * d == d * b) by (nonlinear_arith);
    }
    assert(apart(size * b, left * b) <= 3 * ONE) by (nonlinear_arith)
        requires
            apart(size as int, left as int) <= 3,
            apart(size as int, left as int) == size - left || apart(size as int, left as int)
                == left - size,
            apart(size as int, left as int) >= 0,
            apart(size * b, left * b) == size * b - left * b || apart(size * b, left * b) == left
                * b - size * b,
            0 <= b <= ONE,
    {
        assert(size * b - left * b == (size - left) * b);
        assert((size - left) * b <= 3 * b);
        assert((left - size) * b <= 3 * b);
    }
    assert(apart(p as int, q as int) <= 4);
    let k = diff(ONE, c);
    lemma_prod_cuts(p, k);
    lemma_prod_cuts(q, k);
    assert(apart(p * k, q * k) <= 4 * ONE) by (nonlinear_arith)
        requires
            apart(p as int, q as int) <= 4,
            apart(p as int, q as int) == p - q || apart(p as int, q as int) == q - p,
            apart(p as int, q as int) >= 0,
            apart(p * k, q * k) == p * k - q * k || apart(p * k, q * k) == q * k - p * k,
            0 <= k <= ONE,
    {
        assert(p * k - q * k == (p - q) * k);
        assert((p - q) * k <= 4 * k);
        assert((q - p) * k <= 4 * k);
    }
    lemma_prod_cuts(e.modulation_energy, c);
}

/// What a slow mean leaves of a jump.
proof fn lemma_left(c: PrcFmt, y: PrcFmt, x: PrcFmt)
    requires
        0 <= c <= ONE,
        -1000 * ONE <= y <= 1000 * ONE,
        -1000 * ONE <= x <= 1000 * ONE,
    ensures
        ({
            let d = diff(x, smoothed(c, y, x));
            &&& apart(magnitude(d) as int, prod(c, magnitude(diff(x, y))) as int) <= 3
            &&& -0x1000 * ONE <= d <= 0x1000 * ONE
        }),
{
    let k = diff(ONE, c);
    let jump = x - y;
    let (cy, kx, cj) = (c * y, k * x, c * jump);
    assert(cy + kx == x * ONE - cj) by (nonlinear_arith)
        requires
            k == ONE - c,
            cy == c * y,
            kx == k * x,
            cj == c * jump,
            jump == x - y,
    ;
    let w = ONE * ONE;
    assert(-1000 * w <= cy <= 1000 * w) by (nonlinear_arith)
        requires
            cy == c * y,
            0 <= c <= ONE,
            -1000 * ONE <= y <= 1000 * ONE,
            w == ONE * ONE,
    {
        assert(c * y <= c * (1000 * ONE));
        assert(c * y >= c * (-1000 * ONE));
        assert(c * ONE <= ONE * ONE);
    }
    assert(-1000 * w <= kx <= 1000 * w) by (nonlinear_arith)
        requires
            kx == k * x,
            0 <= k <= ONE,
            -1000 * ONE <= x <= 1000 * ONE,
            w == ONE * ONE,
    {
        assert(k * x <= k * (1000 * ONE));
        assert(k * x >= k * (-1000 * ONE));
        assert(k * ONE <= ONE * ONE);
    }
    let size = magnitude(diff(x, y));
    lemma_prod_cuts(size, c);
    assert(size * c == if jump < 0 {
        -cj
    } else {
        cj
    }) by {
        assert(jump * c == c * jump && (-jump) * c == -(c * jump)) by (nonlinear_arith);
    }
    assert(jump >= 0 ==> cj >= 0) by (nonlinear_arith)
        requires
            cj == c * jump,
            c >= 0,
    ;
    assert(jump <= 0 ==> cj <= 0) by (nonlinear_arith)
        requires
            cj == c * jump,
            c >= 0,
    ;
}

} // verus!
