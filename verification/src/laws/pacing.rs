//! How fast the processor follows: each of its followers moves with the time constant that is
//! meant for it, whatever the others are.
use crate::config::NightModeParameters;
use crate::decibels::{coeff_of, level_db_of, lemma_coeff_share};
use crate::fixed::{
    diff, lemma_prod_one, lemma_prod_share, lemma_prod_zero, magnitude, quot, smoothed, whole,
    PrcFmt, ONE,
};
use crate::gain::{slow_target, Followers, Guide};
use crate::hops::{Estimate, Sums};
use crate::laws::constants::lemma_cut_scaled;
use crate::laws::reference::{after_hops, law_every_cue_can_veto, law_modulation_can_be_ignored};
use crate::laws::timing::{
    countable, lasts, law_coefficient_has_its_half_life, law_smoothing_is_paced, paced,
};
use crate::settings::{hop_frames_of, hop_rate_of, Settings, Setup};
use crate::tuning::{
    CONFIDENCE_FALL_S, CONFIDENCE_RISE_S, CONFIDENCE_TO_GAIN_S, FAST_ATTACK_S, FAST_RELEASE_S,
    LEVEL_WINDOW_S, MODULATION_SMOOTH_S, SCENE_RELEASE_S,
};
use vstd::arithmetic::power::{lemma_pow0, lemma_pow1, lemma_pow_adds, lemma_pow_positive, pow};
use vstd::prelude::*;

verus! {

/// Whether a rate is one that is counted in frames: from once a second up to 2^30 times.
pub open spec fn ordinary(samplerate: usize) -> bool {
    1 <= samplerate <= 0x4000_0000
}

/// Whether some frames all have the same power.
pub open spec fn steady(power: Seq<PrcFmt>, n: nat, level: PrcFmt) -> bool {
    &&& n <= power.len()
    &&& forall|j: int| 0 <= j < n ==> #[trigger] power[j] == level
}

/// Hops come 400 to 800 times a second, or with every frame.
pub proof fn law_hop_rate_is_bounded(samplerate: usize)
    requires
        ordinary(samplerate),
    ensures
        ONE <= hop_rate_of(samplerate, hop_frames_of(samplerate)) <= 800 * ONE,
        samplerate >= 400 ==> hop_rate_of(samplerate, hop_frames_of(samplerate)) >= 400 * ONE,
        hop_frames_of(samplerate) >= 1,
        samplerate >= 400 ==> 400 * hop_frames_of(samplerate) <= samplerate < 400 * (hop_frames_of(
            samplerate,
        ) + 1),
{
    reveal(quot);
    let h = hop_frames_of(samplerate) as int;
    let n = samplerate * ONE;
    assert(whole(h) == h * ONE);
    assert(whole(samplerate as int) == n);
    lemma_cut_scaled(n, h);
    let q = n / h;
    assert(400 * h <= samplerate < 800 * h || (h == 1 && samplerate < 400));
    assert(h <= samplerate);
    let (low, middle, high, rate) = (ONE as int, 400 * ONE, 800 * ONE, samplerate as int);
    assert(low * h <= n <= high * h && (rate >= 400 ==> middle * h <= n)) by (nonlinear_arith)
        requires
            n == rate * low,
            middle == 400 * low,
            high == 800 * low,
            low > 0,
            1 <= h <= rate,
            rate <= 800 * h || (h == 1 && rate < 400),
            rate >= 400 ==> 400 * h <= rate,
    ;
    vstd::arithmetic::div_mod::lemma_div_is_ordered(low * h, n, h);
    vstd::arithmetic::div_mod::lemma_div_by_multiple(low, h);
    vstd::arithmetic::div_mod::lemma_div_is_ordered(n, high * h, h);
    vstd::arithmetic::div_mod::lemma_div_by_multiple(high, h);
    if rate >= 400 {
        vstd::arithmetic::div_mod::lemma_div_is_ordered(middle * h, n, h);
        vstd::arithmetic::div_mod::lemma_div_by_multiple(middle, h);
    }
}

/// Up to two seconds are countable in frames and in hops.
proof fn lemma_countable(seconds: PrcFmt, samplerate: usize)
    requires
        ordinary(samplerate),
        0 < seconds <= 2 * ONE,
    ensures
        countable(seconds, whole(samplerate as int)),
        countable(seconds, hop_rate_of(samplerate, hop_frames_of(samplerate))),
{
    law_hop_rate_is_bounded(samplerate);
    let r = whole(samplerate as int) as int;
    let h = hop_rate_of(samplerate, hop_frames_of(samplerate)) as int;
    assert(r * seconds <= 0x1_0000_0000 * (ONE * ONE)) by (nonlinear_arith)
        requires
            0 <= r <= 0x4000_0000 * ONE,
            0 < seconds <= 2 * ONE,
    ;
    assert(h * seconds <= 0x1_0000_0000 * (ONE * ONE)) by (nonlinear_arith)
        requires
            0 <= h <= 800 * ONE,
            0 < seconds <= 2 * ONE,
    ;
}

/// The fast envelope rises with the attack of the fast stage.
pub proof fn law_fast_envelope_rises_with_its_attack(
    f: Followers,
    power: Seq<PrcFmt>,
    n: nat,
    level: PrcFmt,
    s: Settings,
    channels: usize,
    samplerate: usize,
    chunksize: usize,
    g: Guide,
)
    requires
        ordinary(samplerate),
        steady(power, n, level),
        ({
            let u = Setup::of(channels, samplerate, chunksize);
            forall|j: int|
                0 <= j < n ==> (#[trigger] f.after_frames(power, j, s, u, g)).env_fast_power
                    <= level
        }),
        ({
            let u = Setup::of(channels, samplerate, chunksize);
            forall|j: int|
                0 < j <= n ==> (#[trigger] f.after_frames(power, j, s, u, g)).env_fast_power > 0
        }),
    ensures
        ({
            let u = Setup::of(channels, samplerate, chunksize);
            paced(
                f.env_fast_power,
                f.after_frames(power, n as int, s, u, g).env_fast_power,
                level,
                n,
                FAST_ATTACK_S,
                whole(samplerate as int),
            )
        }),
{
    let u = Setup::of(channels, samplerate, chunksize);
    let rate = whole(samplerate as int);
    let xs = Seq::new(n + 1, |j: int| f.after_frames(power, j, s, u, g).env_fast_power);
    assert forall|k: int| 0 <= k < n implies #[trigger] xs[k + 1] == smoothed(
        coeff_of(FAST_ATTACK_S, rate),
        xs[k],
        level,
    ) by {
        assert(f.after_frames(power, k, s, u, g).env_fast_power <= level);
        assert(f.after_frames(power, k + 1, s, u, g).env_fast_power > 0);
        assert(power[k] == level);
    }
    lemma_countable(FAST_ATTACK_S, samplerate);
    law_smoothing_is_paced(FAST_ATTACK_S, rate, level, xs, n);
}

/// The fast envelope falls with the release of the fast stage.
pub proof fn law_fast_envelope_falls_with_its_release(
    f: Followers,
    power: Seq<PrcFmt>,
    n: nat,
    level: PrcFmt,
    s: Settings,
    channels: usize,
    samplerate: usize,
    chunksize: usize,
    g: Guide,
)
    requires
        ordinary(samplerate),
        steady(power, n, level),
        ({
            let u = Setup::of(channels, samplerate, chunksize);
            forall|j: int|
                0 <= j < n ==> (#[trigger] f.after_frames(power, j, s, u, g)).env_fast_power
                    > level
        }),
        ({
            let u = Setup::of(channels, samplerate, chunksize);
            forall|j: int|
                0 < j <= n ==> (#[trigger] f.after_frames(power, j, s, u, g)).env_fast_power > 0
        }),
    ensures
        ({
            let u = Setup::of(channels, samplerate, chunksize);
            paced(
                f.env_fast_power,
                f.after_frames(power, n as int, s, u, g).env_fast_power,
                level,
                n,
                FAST_RELEASE_S,
                whole(samplerate as int),
            )
        }),
{
    let u = Setup::of(channels, samplerate, chunksize);
    let rate = whole(samplerate as int);
    let xs = Seq::new(n + 1, |j: int| f.after_frames(power, j, s, u, g).env_fast_power);
    assert forall|k: int| 0 <= k < n implies #[trigger] xs[k + 1] == smoothed(
        coeff_of(FAST_RELEASE_S, rate),
        xs[k],
        level,
    ) by {
        assert(f.after_frames(power, k, s, u, g).env_fast_power > level);
        assert(f.after_frames(power, k + 1, s, u, g).env_fast_power > 0);
        assert(power[k] == level);
    }
    lemma_countable(FAST_RELEASE_S, samplerate);
    law_smoothing_is_paced(FAST_RELEASE_S, rate, level, xs, n);
}

/// A share that is taken over and over.
proof fn lemma_dies_away(c: PrcFmt, xs: Seq<PrcFmt>, n: nat)
    requires
        0 <= c <= ONE,
        n < xs.len(),
        xs[0] >= 0,
        forall|k: int| 0 <= k < n ==> 0 <= #[trigger] xs[k + 1] && xs[k + 1] * ONE <= c * xs[k],
    ensures
        pow(ONE as int, n) * xs[n as int] <= pow(c as int, n) * xs[0],
        xs[n as int] >= 0,
    decreases n,
{
    let s = ONE as int;
    lemma_pow0(s);
    lemma_pow0(c as int);
    if n > 0 {
        let k = (n - 1) as nat;
        lemma_dies_away(c, xs, k);
        lemma_pow_adds(s, 1, k);
        lemma_pow_adds(c as int, 1, k);
        lemma_pow1(s);
        lemma_pow1(c as int);
        lemma_pow_positive(s, k);
        assert(1 + k == n);
        assert(xs[(k as int) + 1] * ONE <= c * xs[k as int]);
        let (p, q, x, y, z) = (
            pow(s, k),
            pow(c as int, k),
            xs[0] as int,
            xs[k as int] as int,
            xs[n as int] as int,
        );
        assert((s * p) * z <= (c * q) * x) by (nonlinear_arith)
            requires
                p * y <= q * x,
                z * s <= c * y,
                p > 0,
                c >= 0,
        {
            assert(p * (z * s) <= p * (c * y));
            assert(c * (p * y) <= c * (q * x));
        }
    }
}

/// In silence the fast envelope dies away with the release of the fast stage: after each
/// half-life no more than half of it is left.
pub proof fn law_fast_envelope_dies_away(
    f: Followers,
    power: Seq<PrcFmt>,
    n: nat,
    s: Settings,
    channels: usize,
    samplerate: usize,
    chunksize: usize,
    g: Guide,
)
    requires
        ordinary(samplerate),
        steady(power, n, 0),
        f.env_fast_power >= 0,
        lasts(n, FAST_RELEASE_S, whole(samplerate as int)),
    ensures
        ({
            let u = Setup::of(channels, samplerate, chunksize);
            0 <= 2 * f.after_frames(power, n as int, s, u, g).env_fast_power <= f.env_fast_power
        }),
{
    let u = Setup::of(channels, samplerate, chunksize);
    let rate = whole(samplerate as int);
    let c = coeff_of(FAST_RELEASE_S, rate);
    let xs = Seq::new(n + 1, |j: int| f.after_frames(power, j, s, u, g).env_fast_power);
    lemma_countable(FAST_RELEASE_S, samplerate);
    lemma_countable(FAST_ATTACK_S, samplerate);
    lemma_coeff_share(FAST_RELEASE_S, rate);
    lemma_coeff_share(FAST_ATTACK_S, rate);
    assert forall|k: int| 0 <= k < n implies 0 <= #[trigger] xs[k + 1] && xs[k + 1] * ONE <= c
        * xs[k] by {
        lemma_silent_frames(f, power, k, n, s, u, g);
        let x = f.after_frames(power, k, s, u, g).env_fast_power;
        assert(power[k] == 0);
        lemma_prod_zero(diff(ONE, u.fast_release));
        lemma_prod_zero(diff(ONE, u.fast_attack));
        lemma_prod_zero(u.fast_attack);
        lemma_prod_share(x, c);
        assert(c * x >= 0) by (nonlinear_arith)
            requires
                c >= 0,
                x >= 0,
        ;
    }
    law_coefficient_has_its_half_life(FAST_RELEASE_S, rate, n);
    lemma_dies_away(c, xs, n);
    lemma_pow_positive(ONE as int, n);
    let (p, q, x, z) = (
        pow(ONE as int, n),
        pow(c as int, n),
        xs[0] as int,
        xs[n as int] as int,
    );
    assert(2 * z <= x) by (nonlinear_arith)
        requires
            p * z <= q * x,
            2 * q <= p,
            x >= 0,
            p > 0,
    {
        assert(2 * (q * x) <= p * x);
        assert(p * (2 * z) <= p * x);
    }
}

/// In silence the fast envelope does not become negative.
proof fn lemma_silent_frames(
    f: Followers,
    power: Seq<PrcFmt>,
    k: int,
    n: nat,
    s: Settings,
    u: Setup,
    g: Guide,
)
    requires
        steady(power, n, 0),
        0 <= k <= n,
        f.env_fast_power >= 0,
        0 <= u.fast_release <= ONE,
        0 <= u.fast_attack <= ONE,
    ensures
        f.after_frames(power, k, s, u, g).env_fast_power >= 0,
    decreases k,
{
    if k > 0 {
        lemma_silent_frames(f, power, k - 1, n, s, u, g);
        let x = f.after_frames(power, k - 1, s, u, g).env_fast_power;
        assert(power[k - 1] == 0);
        lemma_prod_zero(diff(ONE, u.fast_release));
        lemma_prod_zero(diff(ONE, u.fast_attack));
        lemma_prod_share(x, u.fast_release);
        lemma_prod_share(x, u.fast_attack);
    }
}

/// The level that the slow stage goes by is measured over its window, up and down alike.
pub proof fn law_level_is_measured_over_its_window(
    f: Followers,
    power: Seq<PrcFmt>,
    n: nat,
    level: PrcFmt,
    config: NightModeParameters,
    samplerate: usize,
    hop_frames: usize,
    u: Setup,
    g: Guide,
)
    requires
        ordinary(samplerate),
        steady(power, n, level),
        ({
            let s = Settings::of(config, samplerate, hop_frames);
            forall|j: int|
                0 < j <= n ==> (#[trigger] f.after_frames(power, j, s, u, g)).env_slow_power > 0
        }),
    ensures
        ({
            let s = Settings::of(config, samplerate, hop_frames);
            paced(
                f.env_slow_power,
                f.after_frames(power, n as int, s, u, g).env_slow_power,
                level,
                n,
                LEVEL_WINDOW_S,
                whole(samplerate as int),
            )
        }),
{
    let s = Settings::of(config, samplerate, hop_frames);
    let rate = whole(samplerate as int);
    let xs = Seq::new(n + 1, |j: int| f.after_frames(power, j, s, u, g).env_slow_power);
    assert forall|k: int| 0 <= k < n implies #[trigger] xs[k + 1] == smoothed(
        coeff_of(LEVEL_WINDOW_S, rate),
        xs[k],
        level,
    ) by {
        assert(f.after_frames(power, k + 1, s, u, g).env_slow_power > 0);
        assert(power[k] == level);
    }
    lemma_countable(LEVEL_WINDOW_S, samplerate);
    law_smoothing_is_paced(LEVEL_WINDOW_S, rate, level, xs, n);
}

/// Confidence reaches the gain over one second, up and down alike.
pub proof fn law_confidence_reaches_the_gain_slowly(
    f: Followers,
    power: Seq<PrcFmt>,
    n: nat,
    s: Settings,
    channels: usize,
    samplerate: usize,
    chunksize: usize,
    g: Guide,
)
    requires
        ordinary(samplerate),
    ensures
        ({
            let u = Setup::of(channels, samplerate, chunksize);
            paced(
                f.conf_smooth,
                f.after_frames(power, n as int, s, u, g).conf_smooth,
                g.confidence,
                n,
                CONFIDENCE_TO_GAIN_S,
                whole(samplerate as int),
            )
        }),
{
    let u = Setup::of(channels, samplerate, chunksize);
    let rate = whole(samplerate as int);
    let xs = Seq::new(n + 1, |j: int| f.after_frames(power, j, s, u, g).conf_smooth);
    assert forall|k: int| 0 <= k < n implies #[trigger] xs[k + 1] == smoothed(
        coeff_of(CONFIDENCE_TO_GAIN_S, rate),
        xs[k],
        g.confidence,
    ) by {}
    lemma_countable(CONFIDENCE_TO_GAIN_S, samplerate);
    law_smoothing_is_paced(CONFIDENCE_TO_GAIN_S, rate, g.confidence, xs, n);
}

/// Whether the slow stage aims for the same reduction in each of some frames.
pub open spec fn aims_for(
    f: Followers,
    power: Seq<PrcFmt>,
    n: nat,
    s: Settings,
    u: Setup,
    g: Guide,
    target: PrcFmt,
) -> bool {
    forall|j: int|
        0 < j <= n ==> slow_target(
            (#[trigger] f.after_frames(power, j, s, u, g)).slow_db(),
            s,
            g.reference_db,
        ) == target
}

/// The reduction deepens with the configured attack, whatever the release.
pub proof fn law_reduction_deepens_with_the_attack(
    f: Followers,
    power: Seq<PrcFmt>,
    n: nat,
    target: PrcFmt,
    config: NightModeParameters,
    samplerate: usize,
    hop_frames: usize,
    u: Setup,
    g: Guide,
)
    requires
        samplerate <= 0x4000_0000,
        countable(config.attack(), whole(samplerate as int)),
        ({
            let s = Settings::of(config, samplerate, hop_frames);
            &&& aims_for(f, power, n, s, u, g, target)
            &&& forall|j: int|
                0 <= j < n ==> (#[trigger] f.after_frames(power, j, s, u, g)).reduction_db > target
        }),
    ensures
        ({
            let s = Settings::of(config, samplerate, hop_frames);
            paced(
                f.reduction_db,
                f.after_frames(power, n as int, s, u, g).reduction_db,
                target,
                n,
                config.attack(),
                whole(samplerate as int),
            )
        }),
{
    let s = Settings::of(config, samplerate, hop_frames);
    let rate = whole(samplerate as int);
    let xs = Seq::new(n + 1, |j: int| f.after_frames(power, j, s, u, g).reduction_db);
    assert forall|k: int| 0 <= k < n implies #[trigger] xs[k + 1] == smoothed(
        coeff_of(config.attack(), rate),
        xs[k],
        target,
    ) by {
        assert(f.after_frames(power, k, s, u, g).reduction_db > target);
        assert(slow_target(
            f.after_frames(power, k + 1, s, u, g).slow_db(),
            s,
            g.reference_db,
        ) == target);
    }
    law_smoothing_is_paced(config.attack(), rate, target, xs, n);
}

/// The reduction is let go with the configured release while it is not catching up, whatever
/// the attack.
pub proof fn law_reduction_is_let_go_with_the_release(
    f: Followers,
    power: Seq<PrcFmt>,
    n: nat,
    target: PrcFmt,
    config: NightModeParameters,
    samplerate: usize,
    hop_frames: usize,
    u: Setup,
    g: Guide,
)
    requires
        samplerate <= 0x4000_0000,
        countable(config.release(), whole(samplerate as int)),
        ({
            let s = Settings::of(config, samplerate, hop_frames);
            &&& aims_for(f, power, n, s, u, g, target)
            &&& forall|j: int|
                0 <= j < n ==> (#[trigger] f.after_frames(power, j, s, u, g)).reduction_db <= target
            &&& forall|j: int|
                0 < j <= n ==> !(#[trigger] f.after_frames(power, j, s, u, g)).catching_up
        }),
    ensures
        ({
            let s = Settings::of(config, samplerate, hop_frames);
            paced(
                f.reduction_db,
                f.after_frames(power, n as int, s, u, g).reduction_db,
                target,
                n,
                config.release(),
                whole(samplerate as int),
            )
        }),
{
    let s = Settings::of(config, samplerate, hop_frames);
    let rate = whole(samplerate as int);
    let xs = Seq::new(n + 1, |j: int| f.after_frames(power, j, s, u, g).reduction_db);
    assert forall|k: int| 0 <= k < n implies #[trigger] xs[k + 1] == smoothed(
        coeff_of(config.release(), rate),
        xs[k],
        target,
    ) by {
        assert(f.after_frames(power, k, s, u, g).reduction_db <= target);
        assert(!f.after_frames(power, k + 1, s, u, g).catching_up);
        assert(slow_target(
            f.after_frames(power, k + 1, s, u, g).slow_db(),
            s,
            g.reference_db,
        ) == target);
    }
    law_smoothing_is_paced(config.release(), rate, target, xs, n);
}

/// The reduction is let go with the scene release while it is catching up, whatever the
/// configuration.
pub proof fn law_reduction_catches_up_with_the_scene_release(
    f: Followers,
    power: Seq<PrcFmt>,
    n: nat,
    target: PrcFmt,
    config: NightModeParameters,
    samplerate: usize,
    hop_frames: usize,
    u: Setup,
    g: Guide,
)
    requires
        ordinary(samplerate),
        ({
            let s = Settings::of(config, samplerate, hop_frames);
            &&& aims_for(f, power, n, s, u, g, target)
            &&& forall|j: int|
                0 <= j < n ==> (#[trigger] f.after_frames(power, j, s, u, g)).reduction_db <= target
            &&& forall|j: int|
                0 < j <= n ==> (#[trigger] f.after_frames(power, j, s, u, g)).catching_up
        }),
    ensures
        ({
            let s = Settings::of(config, samplerate, hop_frames);
            paced(
                f.reduction_db,
                f.after_frames(power, n as int, s, u, g).reduction_db,
                target,
                n,
                SCENE_RELEASE_S,
                whole(samplerate as int),
            )
        }),
{
    let s = Settings::of(config, samplerate, hop_frames);
    let rate = whole(samplerate as int);
    let xs = Seq::new(n + 1, |j: int| f.after_frames(power, j, s, u, g).reduction_db);
    assert forall|k: int| 0 <= k < n implies #[trigger] xs[k + 1] == smoothed(
        coeff_of(SCENE_RELEASE_S, rate),
        xs[k],
        target,
    ) by {
        assert(f.after_frames(power, k, s, u, g).reduction_db <= target);
        assert(f.after_frames(power, k + 1, s, u, g).catching_up);
        assert(slow_target(
            f.after_frames(power, k + 1, s, u, g).slow_db(),
            s,
            g.reference_db,
        ) == target);
    }
    lemma_countable(SCENE_RELEASE_S, samplerate);
    law_smoothing_is_paced(SCENE_RELEASE_S, rate, target, xs, n);
}

/// Whether some hops are all heard: above the silence threshold, by a detector that is on.
pub open spec fn heard_hops(hops: Seq<Sums>, n: nat, s: Settings, u: Setup) -> bool {
    &&& n <= hops.len()
    &&& s.dialogue_protection != 0
    &&& forall|j: int|
        0 <= j < n ==> (#[trigger] hops[j]).level_db(u.hop_frames) > s.silence_threshold
}

/// Confidence rises with its own time constant: hops that have every mark of dialogue, with
/// modulation left aside, bring it to one.
pub proof fn law_confidence_rises_in_its_time(
    e: Estimate,
    hops: Seq<Sums>,
    n: nat,
    s: Settings,
    channels: usize,
    samplerate: usize,
    chunksize: usize,
)
    requires
        ordinary(samplerate),
        s.modulation_weight == 0,
        heard_hops(hops, n, s, Setup::of(channels, samplerate, chunksize)),
        forall|j: int|
            0 <= j < n ==> (#[trigger] hops[j]).centred() == ONE && hops[j].speechlike() == ONE,
        ({
            let u = Setup::of(channels, samplerate, chunksize);
            forall|j: int|
                0 <= j < n ==> (#[trigger] after_hops(e, hops, j, s, u)).confidence < ONE
        }),
    ensures
        ({
            let u = Setup::of(channels, samplerate, chunksize);
            paced(
                e.confidence,
                after_hops(e, hops, n as int, s, u).confidence,
                ONE,
                n,
                CONFIDENCE_RISE_S,
                hop_rate_of(samplerate, hop_frames_of(samplerate)),
            )
        }),
{
    let u = Setup::of(channels, samplerate, chunksize);
    let rate = hop_rate_of(samplerate, hop_frames_of(samplerate));
    let xs = Seq::new(n + 1, |j: int| after_hops(e, hops, j, s, u).confidence);
    assert forall|k: int| 0 <= k < n implies #[trigger] xs[k + 1] == smoothed(
        coeff_of(CONFIDENCE_RISE_S, rate),
        xs[k],
        ONE,
    ) by {
        let before = after_hops(e, hops, k, s, u);
        let sums = hops[k];
        assert(before.confidence < ONE);
        assert(sums.level_db(u.hop_frames) > s.silence_threshold);
        assert(sums.centred() == ONE && sums.speechlike() == ONE);
        lemma_prod_one(ONE);
        let swung = before.levelled(sums, u).after_swing(sums.speech_db(u.hop_frames), u);
        law_modulation_can_be_ignored(swung, sums);
        assert(after_hops(e, hops, k + 1, s, u) == before.after_hop(sums, s, u));
    }
    lemma_countable(CONFIDENCE_RISE_S, samplerate);
    law_smoothing_is_paced(CONFIDENCE_RISE_S, rate, ONE, xs, n);
}

/// Confidence falls with its own time constant: hops that lack one of the marks of dialogue
/// bring it to zero.
pub proof fn law_confidence_falls_in_its_time(
    e: Estimate,
    hops: Seq<Sums>,
    n: nat,
    s: Settings,
    channels: usize,
    samplerate: usize,
    chunksize: usize,
)
    requires
        ordinary(samplerate),
        heard_hops(hops, n, s, Setup::of(channels, samplerate, chunksize)),
        forall|j: int|
            0 <= j < n ==> (#[trigger] hops[j]).centred() == 0 || hops[j].speechlike() == 0,
        ({
            let u = Setup::of(channels, samplerate, chunksize);
            forall|j: int|
                0 <= j < n ==> (#[trigger] after_hops(e, hops, j, s, u)).confidence >= 0
        }),
    ensures
        ({
            let u = Setup::of(channels, samplerate, chunksize);
            paced(
                e.confidence,
                after_hops(e, hops, n as int, s, u).confidence,
                0,
                n,
                CONFIDENCE_FALL_S,
                hop_rate_of(samplerate, hop_frames_of(samplerate)),
            )
        }),
{
    let u = Setup::of(channels, samplerate, chunksize);
    let rate = hop_rate_of(samplerate, hop_frames_of(samplerate));
    let xs = Seq::new(n + 1, |j: int| after_hops(e, hops, j, s, u).confidence);
    assert forall|k: int| 0 <= k < n implies #[trigger] xs[k + 1] == smoothed(
        coeff_of(CONFIDENCE_FALL_S, rate),
        xs[k],
        0,
    ) by {
        let before = after_hops(e, hops, k, s, u);
        let sums = hops[k];
        assert(before.confidence >= 0);
        assert(sums.level_db(u.hop_frames) > s.silence_threshold);
        assert(sums.centred() == 0 || sums.speechlike() == 0);
        let swung = before.levelled(sums, u).after_swing(sums.speech_db(u.hop_frames), u);
        law_every_cue_can_veto(swung, sums, s.modulation_weight);
        assert(after_hops(e, hops, k + 1, s, u) == before.after_hop(sums, s, u));
    }
    lemma_countable(CONFIDENCE_FALL_S, samplerate);
    law_smoothing_is_paced(CONFIDENCE_FALL_S, rate, 0, xs, n);
}

/// The slow mean of the speech level, once started, follows it with its own time constant.
pub proof fn law_speech_mean_follows_in_its_time(
    e: Estimate,
    hops: Seq<Sums>,
    n: nat,
    level: PrcFmt,
    s: Settings,
    channels: usize,
    samplerate: usize,
    chunksize: usize,
)
    requires
        ordinary(samplerate),
        heard_hops(hops, n, s, Setup::of(channels, samplerate, chunksize)),
        forall|j: int|
            0 <= j < n ==> (#[trigger] hops[j]).speech_db(hop_frames_of(samplerate)) == level,
        ({
            let u = Setup::of(channels, samplerate, chunksize);
            forall|j: int|
                0 <= j < n ==> (#[trigger] after_hops(e, hops, j, s, u)).speech_db_slow
                    > level_db_of(0)
        }),
    ensures
        ({
            let u = Setup::of(channels, samplerate, chunksize);
            paced(
                e.speech_db_slow,
                after_hops(e, hops, n as int, s, u).speech_db_slow,
                level,
                n,
                MODULATION_SMOOTH_S,
                hop_rate_of(samplerate, hop_frames_of(samplerate)),
            )
        }),
{
    let u = Setup::of(channels, samplerate, chunksize);
    let rate = hop_rate_of(samplerate, hop_frames_of(samplerate));
    let xs = Seq::new(n + 1, |j: int| after_hops(e, hops, j, s, u).speech_db_slow);
    assert forall|k: int| 0 <= k < n implies #[trigger] xs[k + 1] == smoothed(
        coeff_of(MODULATION_SMOOTH_S, rate),
        xs[k],
        level,
    ) by {
        let before = after_hops(e, hops, k, s, u);
        assert(before.speech_db_slow > level_db_of(0));
        assert(hops[k].level_db(u.hop_frames) > s.silence_threshold);
        assert(hops[k].speech_db(hop_frames_of(samplerate)) == level);
        assert(after_hops(e, hops, k + 1, s, u) == before.after_hop(hops[k], s, u));
    }
    lemma_countable(MODULATION_SMOOTH_S, samplerate);
    law_smoothing_is_paced(MODULATION_SMOOTH_S, rate, level, xs, n);
}

/// The mean swing follows the swings that the syllabic filter lets through with its own time
/// constant. A swing is how far the speech level is from its slow mean.
pub proof fn law_mean_swing_follows_in_its_time(
    e: Estimate,
    hops: Seq<Sums>,
    n: nat,
    swing: PrcFmt,
    s: Settings,
    channels: usize,
    samplerate: usize,
    chunksize: usize,
)
    requires
        ordinary(samplerate),
        heard_hops(hops, n, s, Setup::of(channels, samplerate, chunksize)),
        ({
            let u = Setup::of(channels, samplerate, chunksize);
            forall|j: int|
                0 <= j < n ==> magnitude(
                    (#[trigger] after_hops(e, hops, j, s, u)).bandpass.output(
                        diff(
                            hops[j].speech_db(u.hop_frames),
                            after_hops(e, hops, j + 1, s, u).speech_db_slow,
                        ),
                    ),
                ) == swing
        }),
    ensures
        ({
            let u = Setup::of(channels, samplerate, chunksize);
            paced(
                e.modulation_energy,
                after_hops(e, hops, n as int, s, u).modulation_energy,
                swing,
                n,
                MODULATION_SMOOTH_S,
                hop_rate_of(samplerate, hop_frames_of(samplerate)),
            )
        }),
{
    let u = Setup::of(channels, samplerate, chunksize);
    let rate = hop_rate_of(samplerate, hop_frames_of(samplerate));
    let xs = Seq::new(n + 1, |j: int| after_hops(e, hops, j, s, u).modulation_energy);
    assert forall|k: int| 0 <= k < n implies #[trigger] xs[k + 1] == smoothed(
        coeff_of(MODULATION_SMOOTH_S, rate),
        xs[k],
        swing,
    ) by {
        let before = after_hops(e, hops, k, s, u);
        assert(hops[k].level_db(u.hop_frames) > s.silence_threshold);
        assert(after_hops(e, hops, k + 1, s, u) == before.after_hop(hops[k], s, u));
        assert(magnitude(
            before.bandpass.output(
                diff(
                    hops[k].speech_db(u.hop_frames),
                    after_hops(e, hops, k + 1, s, u).speech_db_slow,
                ),
            ),
        ) == swing);
    }
    lemma_countable(MODULATION_SMOOTH_S, samplerate);
    law_smoothing_is_paced(MODULATION_SMOOTH_S, rate, swing, xs, n);
}

} // verus!
