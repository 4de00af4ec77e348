//! Laws of the dialogue detector and of the dialogue reference.
use crate::decibels::{level_db_of, POWER_FLOOR};
use crate::fixed::{
    cut, diff, is_root, lemma_prod_one, lemma_prod_zero, lemma_quot_ordered, lemma_quot_share,
    lemma_quot_sign, lemma_quot_zero, lemma_root, prod, quot, root, smoothed, sum, whole, PrcFmt,
    ONE,
};
use crate::hops::{Estimate, Frame, Listener, Sums};
use crate::laws::health::{law_frames_keep_health, law_raw_confidence_is_a_share};
use crate::laws::hops::{law_hop_under_way_is_counted, lemma_next_count};
use crate::model::Model;
use crate::settings::{hop_rate_of, Settings, Setup};
use crate::tuning::{
    GATE_CLOSE_CONFIDENCE, GATE_OPEN_CONFIDENCE, REFERENCE_MAX_DB, REFERENCE_MIN_DB, RHO_MIN,
    RHO_SPAN,
};
use vstd::prelude::*;

verus! {

/// The distance of two numbers.
pub open spec fn apart(a: int, b: int) -> int {
    if a < b {
        b - a
    } else {
        a - b
    }
}

/// One hop moves the reference by no more than a step, and only toward the level.
pub proof fn law_hop_moves_reference_one_step(e: Estimate, sums: Sums, s: Settings, u: Setup)
    requires
        s.reference_step >= 0,
        REFERENCE_MIN_DB <= e.reference_db <= REFERENCE_MAX_DB,
    ensures
        ({
            let after = e.after_hop(sums, s, u);
            &&& apart(after.reference_db as int, e.reference_db as int) <= s.reference_step
            &&& after.reference_db != e.reference_db ==> apart(
                after.level_db as int,
                after.reference_db as int,
            ) < apart(after.level_db as int, e.reference_db as int)
        }),
{
}

/// Over any stretch of audio the reference moves by no more than a step per complete hop.
pub proof fn law_reference_slew_is_limited(
    l: Listener,
    frames: Seq<Frame>,
    n: int,
    s: Settings,
    u: Setup,
)
    requires
        s.valid(),
        u.valid(),
        0 <= n <= frames.len(),
        l.sums.count < u.hop_frames,
        0 <= l.estimate.confidence <= ONE,
        REFERENCE_MIN_DB <= l.estimate.reference_db <= REFERENCE_MAX_DB,
    ensures
        apart(
            l.after_frames(frames, n, s, u).estimate.reference_db as int,
            l.estimate.reference_db as int,
        ) <= s.reference_step * ((l.sums.count + n) / (u.hop_frames as int)),
    decreases n,
{
    let h = u.hop_frames as int;
    if n == 0 {
        vstd::arithmetic::div_mod::lemma_div_pos_is_pos(l.sums.count as int, h);
        assert(s.reference_step * (l.sums.count as int / h) >= 0) by (nonlinear_arith)
            requires
                s.reference_step >= 0,
                l.sums.count as int / h >= 0,
        ;
    } else {
        vstd::arithmetic::div_mod::lemma_div_is_ordered(
            l.sums.count + n - 1,
            l.sums.count + n,
            h,
        );
        law_reference_slew_is_limited(l, frames, n - 1, s, u);
        law_hop_under_way_is_counted(l, frames, n - 1, s, u);
        law_frames_keep_health(l, frames, n - 1, s, u);
        let before = l.after_frames(frames, n - 1, s, u);
        let sums = before.sums.with(frames[n - 1]);
        law_hop_moves_reference_one_step(before.estimate, sums, s, u);
        let done = (l.sums.count + n - 1) / h;
        let now = (l.sums.count + n) / h;
        if sums.count == u.hop_frames {
            assert(now == done + 1) by {
                lemma_next_count(l.sums.count + n - 1, h);
            }
            assert(s.reference_step * (done + 1) == s.reference_step * done + s.reference_step)
                by (nonlinear_arith);
        } else {
            assert(s.reference_step * done <= s.reference_step * now) by (nonlinear_arith)
                requires
                    s.reference_step >= 0,
                    done <= now,
            ;
        }
    }
}

/// The most that one hop can move the confidence.
pub open spec fn confidence_pace(u: Setup) -> int {
    if u.confidence_rise < u.confidence_fall {
        ONE - u.confidence_rise
    } else {
        ONE - u.confidence_fall
    }
}

/// Smoothing moves a share by no more than the part that is new.
proof fn lemma_smoothed_share(c: PrcFmt, x: PrcFmt, t: PrcFmt)
    requires
        0 <= c <= ONE,
        0 <= x <= ONE,
        0 <= t <= ONE,
    ensures
        apart(smoothed(c, x, t) as int, x as int) <= ONE - c,
{
    let k = ONE - c;
    assert(c * x == ONE * x - k * x) by (nonlinear_arith)
        requires
            k == ONE - c,
    ;
    assert(0 <= k * x <= k * ONE && 0 <= k * t <= k * ONE && c * x >= 0) by (nonlinear_arith)
        requires
            0 <= x <= ONE,
            0 <= t <= ONE,
            k >= 0,
            c >= 0,
    ;
}

/// One hop moves the confidence by no more than its pace.
pub proof fn law_hop_moves_confidence_at_its_pace(e: Estimate, sums: Sums, s: Settings, u: Setup)
    requires
        s.valid(),
        u.valid(),
        0 <= e.confidence <= ONE,
    ensures
        apart(e.after_hop(sums, s, u).confidence as int, e.confidence as int) <= confidence_pace(u),
{
    let swung = e.levelled(sums, u).after_swing(sums.speech_db(u.hop_frames), u);
    let raw = swung.raw_confidence(sums, s.modulation_weight);
    law_raw_confidence_is_a_share(swung, sums, s.modulation_weight);
    lemma_smoothed_share(u.confidence_rise, e.confidence, raw);
    lemma_smoothed_share(u.confidence_fall, e.confidence, raw);
}

/// Over any stretch of audio the confidence moves by no more than its pace per complete hop.
pub proof fn law_confidence_pace_is_limited(
    l: Listener,
    frames: Seq<Frame>,
    n: int,
    s: Settings,
    u: Setup,
)
    requires
        s.valid(),
        u.valid(),
        0 <= n <= frames.len(),
        l.sums.count < u.hop_frames,
        0 <= l.estimate.confidence <= ONE,
        REFERENCE_MIN_DB <= l.estimate.reference_db <= REFERENCE_MAX_DB,
    ensures
        apart(
            l.after_frames(frames, n, s, u).estimate.confidence as int,
            l.estimate.confidence as int,
        ) <= confidence_pace(u) * ((l.sums.count + n) / (u.hop_frames as int)),
    decreases n,
{
    let h = u.hop_frames as int;
    let pace = confidence_pace(u);
    if n == 0 {
        vstd::arithmetic::div_mod::lemma_div_pos_is_pos(l.sums.count as int, h);
        assert(pace * (l.sums.count as int / h) >= 0) by (nonlinear_arith)
            requires
                pace >= 0,
                l.sums.count as int / h >= 0,
        ;
    } else {
        vstd::arithmetic::div_mod::lemma_div_is_ordered(
            l.sums.count + n - 1,
            l.sums.count + n,
            h,
        );
        law_confidence_pace_is_limited(l, frames, n - 1, s, u);
        law_hop_under_way_is_counted(l, frames, n - 1, s, u);
        law_frames_keep_health(l, frames, n - 1, s, u);
        let before = l.after_frames(frames, n - 1, s, u);
        let sums = before.sums.with(frames[n - 1]);
        law_hop_moves_confidence_at_its_pace(before.estimate, sums, s, u);
        let done = (l.sums.count + n - 1) / h;
        let now = (l.sums.count + n) / h;
        if sums.count == u.hop_frames {
            assert(now == done + 1) by {
                lemma_next_count(l.sums.count + n - 1, h);
            }
            assert(pace * (done + 1) == pace * done + pace) by (nonlinear_arith);
        } else {
            assert(pace * done <= pace * now) by (nonlinear_arith)
                requires
                    pace >= 0,
                    done <= now,
            ;
        }
    }
}

/// As many steps as there are hops in a second make no more than the configured slew.
pub proof fn law_steps_make_the_slew(slew: PrcFmt, samplerate: usize, hop_frames: usize)
    requires
        slew >= 0,
        hop_rate_of(samplerate, hop_frames) > 0,
    ensures
        quot(slew, hop_rate_of(samplerate, hop_frames)) * hop_rate_of(samplerate, hop_frames)
            <= slew * ONE,
{
    reveal(quot);
    let rate = hop_rate_of(samplerate, hop_frames);
    let n = slew * ONE;
    vstd::arithmetic::div_mod::lemma_fundamental_div_mod(n, rate as int);
    vstd::arithmetic::div_mod::lemma_mod_bound(n, rate as int);
    vstd::arithmetic::div_mod::lemma_div_pos_is_pos(n, rate as int);
    let q = n / (rate as int);
    assert(quot(slew, rate) * rate <= rate * q) by (nonlinear_arith)
        requires
            0 <= quot(slew, rate) <= q,
            rate > 0,
    ;
}

/// A pinned reference never moves.
pub proof fn law_pinned_reference_never_moves(m: Model, waves: Seq<Seq<PrcFmt>>)
    requires
        m.settings.reference_pinned is Some,
    ensures
        m.after_chunk(waves).listener.estimate.reference_db == m.listener.estimate.reference_db,
{
    if let Some(frames) = m.active_frames(waves) {
        let side = m.sidechain(waves, frames);
        lemma_pinned(m.listener, side, side.len() as int, m.settings, m.setup);
    }
}

proof fn lemma_pinned(l: Listener, frames: Seq<Frame>, n: int, s: Settings, u: Setup)
    requires
        s.reference_pinned is Some,
    ensures
        l.after_frames(frames, n, s, u).estimate.reference_db == l.estimate.reference_db,
    decreases n,
{
    if n > 0 {
        lemma_pinned(l, frames, n - 1, s, u);
    }
}

/// A hop that is not above the silence threshold tells its level and moves nothing else: the
/// detector stands still.
pub proof fn law_silent_hop_freezes(e: Estimate, sums: Sums, s: Settings, u: Setup)
    requires
        sums.level_db(u.hop_frames) <= s.silence_threshold,
    ensures
        e.after_hop(sums, s, u) == (Estimate {
            level_db: sums.level_db(u.hop_frames),
            hops: e.hops.wrapping_add(1),
            ..e
        }),
{
}

/// Silence freezes the detector for as long as it lasts.
pub proof fn law_silence_freezes(l: Listener, frames: Seq<Frame>, n: int, s: Settings, u: Setup)
    requires
        0 <= n <= frames.len(),
        u.hop_frames > 0,
        l.sums.broadband == 0,
        forall|j: int| 0 <= j < n ==> (#[trigger] frames[j]).power == 0,
        level_db_of(0) <= s.silence_threshold,
    ensures
        l.after_frames(frames, n, s, u).sums.broadband == 0,
        ({
            let after = l.after_frames(frames, n, s, u).estimate;
            after == (Estimate { level_db: after.level_db, hops: after.hops, ..l.estimate })
        }),
    decreases n,
{
    if n > 0 {
        law_silence_freezes(l, frames, n - 1, s, u);
        let before = l.after_frames(frames, n - 1, s, u);
        assert(frames[n - 1].power == 0);
        let sums = before.sums.with(frames[n - 1]);
        assert(whole(u.hop_frames as int) > 0);
        lemma_quot_zero(whole(u.hop_frames as int));
        law_silent_hop_freezes(before.estimate, sums, s, u);
    }
}

/// A detector that is switched off stands still: hops tell their level and move nothing else.
pub proof fn law_switched_off_detector_stands_still(
    l: Listener,
    frames: Seq<Frame>,
    n: int,
    s: Settings,
    u: Setup,
)
    requires
        s.dialogue_protection == 0,
    ensures
        ({
            let after = l.after_frames(frames, n, s, u).estimate;
            after == (Estimate { level_db: after.level_db, hops: after.hops, ..l.estimate })
        }),
    decreases n,
{
    if n > 0 {
        law_switched_off_detector_stands_still(l, frames, n - 1, s, u);
    }
}

/// A level outside the window is rejected rather than followed.
pub proof fn law_levels_outside_the_window_are_rejected(
    e: Estimate,
    sums: Sums,
    s: Settings,
    u: Setup,
)
    requires
        !(REFERENCE_MIN_DB <= sums.level_db(u.hop_frames) <= REFERENCE_MAX_DB),
    ensures
        e.after_hop(sums, s, u).reference_db == e.reference_db,
{
}

/// Content that the detector does not take for dialogue moves nothing: while levels are not
/// trusted, a hop that ends with a confidence of 0.7 or less leaves the reference alone and
/// levels untrusted.
pub proof fn law_reference_ignores_what_is_no_dialogue(
    e: Estimate,
    sums: Sums,
    s: Settings,
    u: Setup,
)
    requires
        !e.gate_open,
        e.after_hop(sums, s, u).confidence <= GATE_OPEN_CONFIDENCE,
    ensures
        e.after_hop(sums, s, u).reference_db == e.reference_db,
        !e.after_hop(sums, s, u).gate_open,
{
}

/// After the first `n` of some hops.
pub open spec fn after_hops(e: Estimate, hops: Seq<Sums>, n: int, s: Settings, u: Setup) -> Estimate
    decreases n,
{
    if n <= 0 {
        e
    } else {
        after_hops(e, hops, n - 1, s, u).after_hop(hops[n - 1], s, u)
    }
}

/// Trust lasts for at least the hold, whatever the hops in it hold.
pub proof fn law_trust_lasts(e: Estimate, hops: Seq<Sums>, n: int, s: Settings, u: Setup)
    requires
        e.gate_open,
        0 <= n < e.gate_hold,
    ensures
        after_hops(e, hops, n, s, u).gate_open,
        after_hops(e, hops, n, s, u).gate_hold >= e.gate_hold - n,
    decreases n,
{
    if n > 0 {
        law_trust_lasts(e, hops, n - 1, s, u);
    }
}

/// Trust is granted with the whole hold, and only above a confidence of 0.7; it is withdrawn
/// only at a confidence of 0.5 or less.
pub proof fn law_trust_has_hysteresis(e: Estimate, sums: Sums, s: Settings, u: Setup)
    ensures
        ({
            let after = e.after_hop(sums, s, u);
            &&& !e.gate_open && after.gate_open ==> after.gate_hold == u.gate_hold_hops
                && after.confidence > GATE_OPEN_CONFIDENCE
            &&& e.gate_open && !after.gate_open ==> after.confidence <= GATE_CLOSE_CONFIDENCE
        }),
{
}

/// With a modulation weight of zero, dialogue is identified on being centred and in band
/// alone.
pub proof fn law_modulation_can_be_ignored(e: Estimate, sums: Sums)
    ensures
        e.raw_confidence(sums, 0) == prod(sums.centred(), sums.speechlike()),
{
    lemma_prod_zero(e.modulation());
    lemma_prod_one(prod(sums.centred(), sums.speechlike()));
}

/// Whether two estimates tell the same of everything but how the level swings.
pub open spec fn swing_aside(a: Estimate, b: Estimate) -> bool {
    a == (Estimate {
        speech_db_slow: a.speech_db_slow,
        bandpass: a.bandpass,
        modulation_energy: a.modulation_energy,
        ..b
    })
}

/// With a modulation weight of zero, what is known of how the level swings does not touch
/// anything else: whatever it is, the same hop leads to the same level, confidence, reference
/// and trust.
pub proof fn law_swing_decides_nothing_without_weight(
    a: Estimate,
    b: Estimate,
    sums: Sums,
    s: Settings,
    u: Setup,
)
    requires
        s.modulation_weight == 0,
        swing_aside(a, b),
    ensures
        swing_aside(a.after_hop(sums, s, u), b.after_hop(sums, s, u)),
{
    let speech_db = sums.speech_db(u.hop_frames);
    law_modulation_can_be_ignored(a.levelled(sums, u).after_swing(speech_db, u), sums);
    law_modulation_can_be_ignored(b.levelled(sums, u).after_swing(speech_db, u), sums);
}

/// The same over any number of hops.
pub proof fn law_swing_never_decides_without_weight(
    a: Estimate,
    b: Estimate,
    hops: Seq<Sums>,
    n: int,
    s: Settings,
    u: Setup,
)
    requires
        s.modulation_weight == 0,
        swing_aside(a, b),
    ensures
        swing_aside(after_hops(a, hops, n, s, u), after_hops(b, hops, n, s, u)),
    decreases n,
{
    if n > 0 {
        law_swing_never_decides_without_weight(a, b, hops, n - 1, s, u);
        law_swing_decides_nothing_without_weight(
            after_hops(a, hops, n - 1, s, u),
            after_hops(b, hops, n - 1, s, u),
            hops[n - 1],
            s,
            u,
        );
    }
}

/// With a modulation weight of one, what does not swing at all is no dialogue.
pub proof fn law_modulation_can_decide(e: Estimate, sums: Sums)
    requires
        e.modulation() == 0,
    ensures
        e.raw_confidence(sums, ONE) == 0,
{
    lemma_prod_zero(ONE);
    lemma_prod_zero(prod(sums.centred(), sums.speechlike()));
}

/// Content that is not centred, or not in the speech band, is no dialogue.
pub proof fn law_every_cue_can_veto(e: Estimate, sums: Sums, weight: PrcFmt)
    requires
        sums.centred() == 0 || sums.speechlike() == 0,
    ensures
        e.raw_confidence(sums, weight) == 0,
{
    lemma_prod_zero(sums.speechlike());
    lemma_prod_zero(sums.centred());
    lemma_prod_zero(sum(diff(ONE, weight), prod(weight, e.modulation())));
}

/// Sides that are not correlated, or that oppose each other, are not centred.
pub proof fn law_uncorrelated_sides_are_not_centred(sums: Sums)
    requires
        sums.lr <= 0,
    ensures
        sums.centred() == 0,
{
    let size = root(
        sum(prod(sums.left, sums.right), POWER_FLOOR),
    );
    lemma_root(
        sum(prod(sums.left, sums.right), POWER_FLOOR),
    );
    lemma_quot_sign(sums.lr, size);
    let rho = quot(sums.lr, size);
    lemma_quot_ordered(diff(rho, RHO_MIN), 0, RHO_SPAN);
}

/// Discrete dialogue channels are the same on both sides, so they count as centred.
pub proof fn law_discrete_channels_are_centred(m: Model, waves: Seq<Seq<PrcFmt>>, frames: int)
    requires
        m.settings.dialogue_channels is Some,
        m.bank.speech_highpass[0] == m.bank.speech_highpass[1],
        m.bank.speech_lowpass[0] == m.bank.speech_lowpass[1],
    ensures
        m.speech(waves, frames, false) == m.speech(waves, frames, true),
        m.measured(waves, frames).bank.speech_highpass[0] == m.measured(
            waves,
            frames,
        ).bank.speech_highpass[1],
        m.measured(waves, frames).bank.speech_lowpass[0] == m.measured(
            waves,
            frames,
        ).bank.speech_lowpass[1],
{
}

/// Whether the sums of a hop are those of two equal sides.
pub open spec fn equal_sides(sums: Sums) -> bool {
    sums.lr == sums.left && sums.lr == sums.right
}

/// Frames with equal sides keep the sums of a hop equal.
pub proof fn law_equal_sides_stay_equal(
    l: Listener,
    frames: Seq<Frame>,
    n: int,
    s: Settings,
    u: Setup,
)
    requires
        0 <= n <= frames.len(),
        equal_sides(l.sums),
        forall|j: int| 0 <= j < n ==> (#[trigger] frames[j]).left == frames[j].right,
    ensures
        equal_sides(l.after_frames(frames, n, s, u).sums),
    decreases n,
{
    if n > 0 {
        law_equal_sides_stay_equal(l, frames, n - 1, s, u);
        assert(frames[n - 1].left == frames[n - 1].right);
    }
}

/// Equal sides are fully centred, unless they are all but silent.
pub proof fn law_equal_sides_are_centred(sums: Sums)
    requires
        equal_sides(sums),
        sums.lr >= 0x1_0000_0000_0000,
    ensures
        sums.centred() == ONE,
{
    let a = sums.lr as int;
    let under = sum(prod(sums.left, sums.right), POWER_FLOOR);
    let r = root(under) as int;
    lemma_root(under);
    assert(a * a >= 0) by (nonlinear_arith);
    let square = a * a / (ONE as int);
    assert(square >= 0);
    assert(under <= square + POWER_FLOOR);
    assert(under > 0);
    assert(is_root(root(under), under));
    assert(r * r < a * a + (POWER_FLOOR + 1) * ONE) by {
        assert(r * r / (ONE as int) <= square + POWER_FLOOR);
    }
    assert(20 * (a * a) >= 100 * ((POWER_FLOOR + 1) * ONE)) by (nonlinear_arith)
        requires
            a >= 0x1_0000_0000_0000,
    ;
    if 10 * r > 11 * a {
        assert(100 * (r * r) >= 121 * (a * a)) by (nonlinear_arith)
            requires
                10 * r > 11 * a,
                a >= 0,
        ;
    }
    let rho = quot(sums.lr, root(under));
    assert(rho >= RHO_MIN + RHO_SPAN) by {
        reveal(quot);
        if r > 0 {
            let n = a * ONE;
            let floor = RHO_MIN + RHO_SPAN;
            assert(floor * r <= n) by (nonlinear_arith)
                requires
                    10 * r <= 11 * a,
                    0 <= r,
                    11 * floor <= 10 * ONE,
                    n == a * ONE,
                    a >= 0,
                    floor >= 0,
            ;
            vstd::arithmetic::div_mod::lemma_div_is_ordered(floor * r, n, r);
            vstd::arithmetic::div_mod::lemma_div_by_multiple(floor, r);
            assert(cut(n, r) >= floor);
        }
    }
    lemma_quot_ordered(RHO_SPAN, diff(rho, RHO_MIN), RHO_SPAN);
    lemma_quot_share(RHO_SPAN, RHO_SPAN);
}

} // verus!
