//! Laws of the gain over any number of frames.
use crate::decibels::lemma_linear_ordered;
use crate::fixed::{diff, lemma_prod_ordered, lemma_prod_zero, sum, PrcFmt, ONE};
use crate::gain::{fast_reduction, Followers, Guide};
use crate::laws::chunks::lemma_following_alike;
use crate::laws::gain::{
    law_amount_scales_decibels, law_confidence_is_monotone, law_loud_content_is_not_protected,
    law_no_softening_is_no_fast_stage, law_softening_is_monotone,
};
use crate::laws::health::law_frames_keep_followers;
use crate::settings::{Settings, Setup};
use crate::tuning::{
    FAST_HEADROOM_DB, PROTECTION_FADE_DB, PROTECTION_FULL_ABOVE_DB, REFERENCE_MIN_DB,
};
use vstd::prelude::*;

verus! {

/// Whether two followers agree in all but the confidence.
pub open spec fn same_but_confidence(f: Followers, k: Followers) -> bool {
    k == (Followers { conf_smooth: k.conf_smooth, ..f })
}

/// Confidence has no influence on the levels and the reduction that are followed.
pub proof fn law_confidence_does_not_move_levels(
    f: Followers,
    k: Followers,
    power: Seq<PrcFmt>,
    n: int,
    s: Settings,
    u: Setup,
    g: Guide,
    h: Guide,
)
    requires
        same_but_confidence(f, k),
        g.reference_db == h.reference_db,
    ensures
        same_but_confidence(
            f.after_frames(power, n, s, u, g),
            k.after_frames(power, n, s, u, h),
        ),
    decreases n,
{
    if n > 0 {
        law_confidence_does_not_move_levels(f, k, power, n - 1, s, u, g, h);
    }
}

proof fn lemma_confidence_ordered(
    f: Followers,
    k: Followers,
    power: Seq<PrcFmt>,
    n: int,
    s: Settings,
    u: Setup,
    g: Guide,
    h: Guide,
)
    requires
        u.valid(),
        f.conf_smooth <= k.conf_smooth,
        g.confidence <= h.confidence,
    ensures
        f.after_frames(power, n, s, u, g).conf_smooth <= k.after_frames(
            power,
            n,
            s,
            u,
            h,
        ).conf_smooth,
    decreases n,
{
    if n > 0 {
        lemma_confidence_ordered(f, k, power, n - 1, s, u, g, h);
        let (x, y) = (
            f.after_frames(power, n - 1, s, u, g),
            k.after_frames(power, n - 1, s, u, h),
        );
        let c = u.confidence_to_gain;
        lemma_prod_ordered(x.conf_smooth, y.conf_smooth, c);
        lemma_prod_ordered(g.confidence, h.confidence, diff(ONE, c));
    }
}

/// More confidence, at the start and in what the last hop tells, never makes more reduction in
/// any frame.
pub proof fn law_confidence_is_monotone_throughout(
    f: Followers,
    k: Followers,
    power: Seq<PrcFmt>,
    s: Settings,
    u: Setup,
    g: Guide,
    h: Guide,
)
    requires
        s.valid(),
        u.valid(),
        same_but_confidence(f, k),
        g.reference_db == h.reference_db,
        0 <= f.conf_smooth <= k.conf_smooth <= ONE,
        0 <= g.confidence <= h.confidence <= ONE,
        f.reduction_db <= 0,
    ensures
        forall|j: int|
            0 <= j < power.len() ==> (#[trigger] f.works(power, s, u, g)[j]).gain <= k.works(
                power,
                s,
                u,
                h,
            )[j].gain,
{
    assert forall|j: int| 0 <= j < power.len() implies (#[trigger] f.works(
        power,
        s,
        u,
        g,
    )[j]).gain <= k.works(power, s, u, h)[j].gain by {
        let n = j + 1;
        law_confidence_does_not_move_levels(f, k, power, n, s, u, g, h);
        lemma_confidence_ordered(f, k, power, n, s, u, g, h);
        law_frames_keep_followers(f, power, n, s, u, g);
        law_frames_keep_followers(k, power, n, s, u, h);
        let (x, y) = (f.after_frames(power, n, s, u, g), k.after_frames(power, n, s, u, h));
        law_confidence_is_monotone(x, s, g.reference_db, y.conf_smooth);
        lemma_linear_ordered(x.applied_db(s, g.reference_db), y.applied_db(s, g.reference_db));
    }
}

/// Whether a level is too far above the reference to be dialogue.
pub open spec fn beyond_dialogue(f: Followers, reference_db: PrcFmt) -> bool {
    f.slow_db() >= reference_db + PROTECTION_FULL_ABOVE_DB + PROTECTION_FADE_DB
}

/// In frames that are 25 dB or more above the reference, confidence changes neither the gain
/// nor the shelf.
pub proof fn law_loud_frames_are_not_protected(
    f: Followers,
    k: Followers,
    power: Seq<PrcFmt>,
    s: Settings,
    u: Setup,
    g: Guide,
    h: Guide,
)
    requires
        same_but_confidence(f, k),
        g.reference_db == h.reference_db,
        g.reference_db >= REFERENCE_MIN_DB,
    ensures
        forall|j: int|
            0 <= j < power.len() && beyond_dialogue(
                f.after_frames(power, j + 1, s, u, g),
                g.reference_db,
            ) ==> {
                &&& (#[trigger] f.works(power, s, u, g)[j]).gain == k.works(power, s, u, h)[j].gain
                &&& f.works(power, s, u, g)[j].bass == k.works(power, s, u, h)[j].bass
            },
{
    assert forall|j: int|
        0 <= j < power.len() && beyond_dialogue(
            f.after_frames(power, j + 1, s, u, g),
            g.reference_db,
        ) implies {
        &&& (#[trigger] f.works(power, s, u, g)[j]).gain == k.works(power, s, u, h)[j].gain
        &&& f.works(power, s, u, g)[j].bass == k.works(power, s, u, h)[j].bass
    } by {
        law_confidence_does_not_move_levels(f, k, power, j + 1, s, u, g, h);
        let (x, y) = (
            f.after_frames(power, j + 1, s, u, g),
            k.after_frames(power, j + 1, s, u, h),
        );
        law_loud_content_is_not_protected(x, s, g.reference_db);
        law_loud_content_is_not_protected(y, s, g.reference_db);
        assert(x.applied_db(s, g.reference_db) == y.applied_db(s, g.reference_db));
    }
}

/// Whether a frame is below the threshold of the fast stage.
pub open spec fn below_fast_threshold(f: Followers, reference_db: PrcFmt) -> bool {
    f.fast_db() <= sum(reference_db, FAST_HEADROOM_DB)
}

/// More softening of transients never makes less reduction in any frame, and changes nothing in
/// frames below the threshold of the fast stage.
pub proof fn law_softening_is_monotone_throughout(
    f: Followers,
    power: Seq<PrcFmt>,
    s: Settings,
    t: Settings,
    u: Setup,
    g: Guide,
)
    requires
        s.valid(),
        u.valid(),
        t == (Settings { transient_softening: t.transient_softening, ..s }),
        s.transient_softening <= t.transient_softening <= ONE,
        0 <= f.conf_smooth <= ONE,
        0 <= g.confidence <= ONE,
        f.reduction_db <= 0,
    ensures
        forall|j: int|
            0 <= j < power.len() ==> (#[trigger] f.works(power, s, u, g)[j]).gain >= f.works(
                power,
                t,
                u,
                g,
            )[j].gain,
        forall|j: int|
            0 <= j < power.len() && below_fast_threshold(
                f.after_frames(power, j + 1, s, u, g),
                g.reference_db,
            ) ==> #[trigger] f.works(power, s, u, g)[j] == f.works(power, t, u, g)[j],
{
    assert forall|j: int| 0 <= j < power.len() implies {
        &&& (#[trigger] f.works(power, s, u, g)[j]).gain >= f.works(power, t, u, g)[j].gain
        &&& below_fast_threshold(f.after_frames(power, j + 1, s, u, g), g.reference_db)
            ==> f.works(power, s, u, g)[j] == f.works(power, t, u, g)[j]
    } by {
        let n = j + 1;
        lemma_following_alike(f, power, n, s, t, u, g);
        law_frames_keep_followers(f, power, n, s, u, g);
        let x = f.after_frames(power, n, s, u, g);
        law_softening_is_monotone(x, s, t, g.reference_db);
        lemma_linear_ordered(x.applied_db(t, g.reference_db), x.applied_db(s, g.reference_db));
        lemma_prod_zero(s.transient_softening);
        lemma_prod_zero(t.transient_softening);
    }
}

/// Without softening of transients, the fast envelope has no influence on the work.
pub proof fn law_no_softening_ignores_transients(
    f: Followers,
    k: Followers,
    power: Seq<PrcFmt>,
    s: Settings,
    u: Setup,
    g: Guide,
)
    requires
        s.transient_softening == 0,
        k == (Followers { env_fast_power: k.env_fast_power, ..f }),
    ensures
        f.works(power, s, u, g) == k.works(power, s, u, g),
{
    assert forall|j: int| 0 <= j < power.len() implies #[trigger] f.works(power, s, u, g)[j]
        == k.works(power, s, u, g)[j] by {
        lemma_same_but_fast(f, k, power, j + 1, s, u, g);
        let (x, y) = (
            f.after_frames(power, j + 1, s, u, g),
            k.after_frames(power, j + 1, s, u, g),
        );
        law_no_softening_is_no_fast_stage(x.fast_db(), s, g.reference_db);
        law_no_softening_is_no_fast_stage(y.fast_db(), s, g.reference_db);
        assert(fast_reduction(x.fast_db(), s, g.reference_db) == fast_reduction(
            y.fast_db(),
            s,
            g.reference_db,
        ));
    }
    assert(f.works(power, s, u, g) =~= k.works(power, s, u, g));
}

proof fn lemma_same_but_fast(
    f: Followers,
    k: Followers,
    power: Seq<PrcFmt>,
    n: int,
    s: Settings,
    u: Setup,
    g: Guide,
)
    requires
        k == (Followers { env_fast_power: k.env_fast_power, ..f }),
    ensures
        ({
            let (x, y) = (f.after_frames(power, n, s, u, g), k.after_frames(power, n, s, u, g));
            y == (Followers { env_fast_power: y.env_fast_power, ..x })
        }),
    decreases n,
{
    if n > 0 {
        lemma_same_but_fast(f, k, power, n - 1, s, u, g);
    }
}

/// The amount scales the reduction of every frame in dB: at two amounts the followers are the
/// same, and what is applied is as the amounts, up to a step in each, wherever neither is held
/// at the cap.
pub proof fn law_amount_scales_every_frame(
    f: Followers,
    power: Seq<PrcFmt>,
    n: int,
    s: Settings,
    t: Settings,
    u: Setup,
    g: Guide,
)
    requires
        s.valid(),
        u.valid(),
        t == (Settings { amount: t.amount, ..s }),
        0 <= t.amount <= ONE,
        0 <= f.conf_smooth <= ONE,
        0 <= g.confidence <= ONE,
        f.reduction_db <= 0,
    ensures
        ({
            let x = f.after_frames(power, n, s, u, g);
            let (p, q) = (x.applied_db(s, g.reference_db), x.applied_db(t, g.reference_db));
            &&& f.after_frames(power, n, t, u, g) == x
            &&& p > -s.max_attenuation && q > -s.max_attenuation ==> -s.amount <= p * t.amount - q
                * s.amount <= t.amount
        }),
{
    lemma_following_alike(f, power, n, s, t, u, g);
    law_frames_keep_followers(f, power, n, s, u, g);
    let x = f.after_frames(power, n, s, u, g);
    if x.applied_db(s, g.reference_db) > -s.max_attenuation && x.applied_db(t, g.reference_db)
        > -s.max_attenuation {
        law_amount_scales_decibels(x, s, t, g.reference_db);
    }
}

} // verus!
