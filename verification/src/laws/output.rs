//! Laws of the audio that comes out.
use crate::filters::{clip_curve, Biquad, Limiter, CLIP_EDGE, CUBE_FACTOR};
use crate::fixed::{
    clamped, cut, lemma_prod_one, lemma_prod_zero, magnitude, negated, prod, quot, PrcFmt, ONE,
};
use crate::gain::Work;
use crate::model::Model;
use crate::output::{driven, levelled, lifted, limited, shelved, too_loud, used, Output};
use crate::settings::Settings;
use crate::sidechain::{all_within, at_most, first_length, heard};
use vstd::prelude::*;

verus! {

/// A cubic that never exceeds its limit: (2s - 3l)^2 (s + 3l) is not negative.
proof fn lemma_cubic(s: int, l: int)
    requires
        s >= 0,
        l >= 0,
    ensures
        27 * (l * l * s) - 4 * (s * s * s) <= 27 * (l * l * l),
{
    assert((2 * s - 3 * l) * (2 * s - 3 * l) >= 0) by (nonlinear_arith);
    let square = (2 * s - 3 * l) * (2 * s - 3 * l);
    assert(square * (s + 3 * l) >= 0) by (nonlinear_arith)
        requires
            square >= 0,
            s + 3 * l >= 0,
    ;
    assert(square * (s + 3 * l) == 4 * (s * s * s) - 27 * (l * l * s) + 27 * (l * l * l))
        by (nonlinear_arith)
        requires
            square == (2 * s - 3 * l) * (2 * s - 3 * l),
    ;
}

proof fn lemma_cubic_steps(s: int, p: int, q: int, r: int)
    requires
        0 <= s <= CLIP_EDGE,
        p == s * s / (ONE as int),
        q == p * s / (ONE as int),
        r == CUBE_FACTOR * q / (ONE as int),
    ensures
        0 <= p <= 9 * ONE / 4,
        0 <= q <= 27 * ONE / 8,
        0 <= r <= ONE,
        s - r <= ONE + 1,
{
    let l = ONE as int;
    assert(0 <= s * s <= CLIP_EDGE * CLIP_EDGE) by (nonlinear_arith)
        requires
            0 <= s <= CLIP_EDGE,
    ;
    assert(0 <= p <= 9 * ONE / 4);
    assert(0 <= p * s <= (9 * ONE / 4) * CLIP_EDGE) by (nonlinear_arith)
        requires
            0 <= s <= CLIP_EDGE,
            0 <= p <= 9 * ONE / 4,
    ;
    assert(0 <= q <= 27 * ONE / 8);
    assert(0 <= r <= ONE);
    // What each cut takes away is less than one step.
    assert(s * s - l < l * p);
    assert(p * s - l < l * q);
    assert(CUBE_FACTOR * q - l < l * r);
    assert(27 * CUBE_FACTOR >= 4 * l);
    assert(27 * (CUBE_FACTOR * q) >= 4 * (l * q)) by (nonlinear_arith)
        requires
            27 * CUBE_FACTOR >= 4 * l,
            q >= 0,
    ;
    assert(27 * (l * r) > 4 * (l * q) - 27 * l);
    // On the scale of the cube.
    assert(27 * (l * l * r) > 4 * (l * (p * s)) - 31 * (l * l)) by (nonlinear_arith)
        requires
            27 * (l * r) > 4 * (l * q) - 27 * l,
            p * s - l < l * q,
            l > 0,
    ;
    assert(l * (p * s) >= s * s * s - l * s) by (nonlinear_arith)
        requires
            s * s - l < l * p,
            s >= 0,
    ;
    lemma_cubic(s, l);
    assert(l * s <= 2 * (l * l)) by (nonlinear_arith)
        requires
            s <= 2 * l,
            l > 0,
    ;
    assert(27 * (l * l * r) > 27 * (l * l * s) - 27 * (l * l * l) - 39 * (l * l));
    if s - r >= l + 2 {
        assert(27 * (l * l * (s - r)) >= 27 * (l * l * l) + 54 * (l * l)) by (nonlinear_arith)
            requires
                s - r >= l + 2,
                l > 0,
        ;
        assert(l * l * (s - r) == l * l * s - l * l * r) by (nonlinear_arith);
        assert(l * l > 0) by (nonlinear_arith)
            requires
                l > 0,
        ;
    }
}

/// The soft clipping curve never exceeds one by more than a step.
pub proof fn law_clip_curve_is_bounded(x: PrcFmt)
    ensures
        -(ONE + 1) <= clip_curve(x) <= ONE + 1,
{
    let s = clamped(x, negated(CLIP_EDGE), CLIP_EDGE);
    let t = magnitude(s) as int;
    let p = t * t / (ONE as int);
    let q = p * t / (ONE as int);
    let r = CUBE_FACTOR * q / (ONE as int);
    lemma_cubic_steps(t, p, q, r);
    assert(s * s == t * t) by (nonlinear_arith)
        requires
            t == s || t == -s,
    ;
    assert(s * s >= 0) by (nonlinear_arith);
    assert(prod(s, s) == p);
    if s >= 0 {
        assert(p * s >= 0) by (nonlinear_arith)
            requires
                p >= 0,
                s >= 0,
        ;
        assert(prod(prod(s, s), s) == q);
        assert(prod(CUBE_FACTOR, prod(prod(s, s), s)) == r);
    } else {
        assert(p * s == -(p * t)) by (nonlinear_arith)
            requires
                t == -s,
        ;
        assert(p * t >= 0) by (nonlinear_arith)
            requires
                p >= 0,
                t >= 0,
        ;
        assert(prod(prod(s, s), s) == -q);
        assert(prod(CUBE_FACTOR, prod(prod(s, s), s)) == -r);
    }
}

/// How far above a limit the clipper may end: not at all, or one step where the limit is full
/// scale.
pub open spec fn under(sample: PrcFmt, limit: PrcFmt) -> bool {
    magnitude(sample) <= limit || limit == ONE && magnitude(sample) <= limit + 1
}

/// Whatever goes into the clipper comes out under the limit.
pub proof fn law_clipper_holds_the_limit(limiter: Limiter, v: PrcFmt)
    requires
        0 <= limiter.clip_limit <= ONE,
    ensures
        under(limiter.clipped(v), limiter.clip_limit),
{
    let limit = limiter.clip_limit;
    let c = clip_curve(quot(v, limit));
    law_clip_curve_is_bounded(quot(v, limit));
    let size = if c >= 0 {
        c as int
    } else {
        -c
    };
    let n = size * limit;
    assert(0 <= n <= ONE * limit + limit) by (nonlinear_arith)
        requires
            n == size * limit,
            0 <= size <= ONE + 1,
            limit >= 0,
    ;
    assert(c * limit == n || c * limit == -n) by (nonlinear_arith)
        requires
            n == size * limit,
            size == c || size == -c,
    ;
    let steps = n / (ONE as int);
    assert(0 <= steps <= limit + 1);
    assert(limit < ONE ==> steps <= limit);
    assert(cut(c * limit, ONE as int) == steps || cut(c * limit, ONE as int) == -steps);
}

/// A channel that has been held under the ceiling is under it.
pub proof fn law_ceiling_holds_a_channel(wave: Seq<PrcFmt>, limiter: Limiter)
    requires
        0 <= limiter.clip_limit <= ONE,
    ensures
        forall|j: int|
            0 <= j < wave.len() ==> under(
                #[trigger] limited(wave, limiter)[j],
                limiter.clip_limit,
            ),
{
    assert forall|j: int| 0 <= j < wave.len() implies under(
        #[trigger] limited(wave, limiter)[j],
        limiter.clip_limit,
    ) by {
        law_clipper_holds_the_limit(limiter, wave[j]);
        assert(too_loud(wave, limiter) || magnitude(wave[j]) <= limiter.clip_limit);
    }
}

/// The processed channels after the first `n` of them: as long as before, untouched past the
/// frames at hand and elsewhere, and under the ceiling.
proof fn lemma_channels(o: Output, n: int, works: Seq<Work>, s: Settings)
    requires
        s.limiter.clip_limit >= 0,
        all_within(s.process_channels, o.waves.len() as int),
        0 <= n <= s.process_channels.len(),
    ensures
        ({
            let after = o.after_channels(n, works, s);
            &&& after.waves.len() == o.waves.len()
            &&& forall|c: int|
                0 <= c < o.waves.len() ==> (#[trigger] after.waves[c]).len()
                    == o.waves[c].len()
            &&& forall|c: int, j: int|
                0 <= c < o.waves.len() && works.len() <= j < o.waves[c].len()
                    ==> #[trigger] after.waves[c][j] == o.waves[c][j]
            &&& forall|c: int|
                0 <= c < o.waves.len() && (forall|i: int|
                    0 <= i < n ==> #[trigger] s.process_channels[i] != c)
                    ==> #[trigger] after.waves[c] == o.waves[c]
            &&& s.limiter.clip_limit <= ONE ==> forall|i: int, j: int|
                0 <= i < n && 0 <= j < at_most(
                    works.len() as int,
                    o.waves[s.process_channels[i] as int].len() as int,
                ) ==> under(
                    #[trigger] after.waves[s.process_channels[i] as int][j],
                    s.limiter.clip_limit,
                )
        }),
    decreases n,
{
    if n > 0 {
        lemma_channels(o, n - 1, works, s);
        let before = o.after_channels(n - 1, works, s);
        let after = o.after_channels(n, works, s);
        let ch = s.process_channels[n - 1] as int;
        assert(s.process_channels[n - 1] < o.waves.len());
        let wave = heard(before.waves[ch], works.len() as int);
        let out = driven(
            wave,
            before.lowpass[n - 1],
            before.bandpass[n - 1],
            works,
            s.shelving(),
            s.lifting(),
        );
        assert(out.len() == wave.len());
        assert(limited(out, s.limiter).len() == wave.len());
        if s.limiter.clip_limit <= ONE {
            law_ceiling_holds_a_channel(out, s.limiter);
            assert forall|i: int, j: int|
                0 <= i < n && 0 <= j < at_most(
                    works.len() as int,
                    o.waves[s.process_channels[i] as int].len() as int,
                ) implies under(
                #[trigger] after.waves[s.process_channels[i] as int][j],
                s.limiter.clip_limit,
            ) by {
                assert(s.process_channels[i] < o.waves.len());
                if s.process_channels[i] as int == ch {
                    assert(after.waves[ch][j] == limited(out, s.limiter)[j]);
                } else {
                    assert(after.waves[s.process_channels[i] as int]
                        == before.waves[s.process_channels[i] as int]);
                }
            }
        }
        assert forall|c: int|
            0 <= c < o.waves.len() && (forall|i: int|
                0 <= i < n ==> #[trigger] s.process_channels[i] != c)
            implies #[trigger] after.waves[c] == o.waves[c] by {
            assert(s.process_channels[n - 1] != c);
        }
    }
}

/// The work on a chunk covers its frames.
proof fn lemma_works_len(m: Model, waves: Seq<Seq<PrcFmt>>)
    ensures
        m.active_frames(waves) matches Some(frames) ==> m.chunk_works(waves, frames).len()
            == frames as nat,
{
}

/// No processed sample leaves above the ceiling, whatever comes in.
pub proof fn law_ceiling_holds(m: Model, waves: Seq<Seq<PrcFmt>>, i: int, j: int)
    requires
        m.wf(),
        m.settings.valid(),
        m.settings.active(),
        m.accepts(waves),
        0 <= i < m.settings.process_channels.len(),
        m.active_frames(waves) matches Some(frames) && 0 <= j < at_most(
            frames,
            waves[m.settings.process_channels[i] as int].len() as int,
        ),
    ensures
        under(
            m.processed(waves)[m.settings.process_channels[i] as int][j],
            m.settings.limiter.clip_limit,
        ),
{
    let frames = m.active_frames(waves)->0;
    let works = m.chunk_works(waves, frames);
    lemma_works_len(m, waves);
    let o = Output {
        waves,
        lowpass: m.bank.bass_lowpass,
        bandpass: m.bank.presence_bandpass,
        clipped: false,
    };
    lemma_channels(o, m.settings.process_channels.len() as int, works, m.settings);
}

/// A chunk keeps its shape: as many channels, each as long as before. Channels that are not
/// processed and samples past the frames at hand are not touched.
pub proof fn law_chunk_keeps_its_shape(m: Model, waves: Seq<Seq<PrcFmt>>)
    requires
        m.wf(),
        m.accepts(waves),
    ensures
        m.processed(waves).len() == waves.len(),
        forall|c: int|
            0 <= c < waves.len() ==> (#[trigger] m.processed(waves)[c]).len() == waves[c].len(),
        forall|c: int|
            0 <= c < waves.len() && (forall|i: int|
                0 <= i < m.settings.process_channels.len()
                    ==> #[trigger] m.settings.process_channels[i] != c)
                ==> #[trigger] m.processed(waves)[c] == waves[c],
        m.active_frames(waves) matches Some(frames) ==> forall|c: int, j: int|
            0 <= c < waves.len() && frames <= j < waves[c].len()
                ==> #[trigger] m.processed(waves)[c][j] == waves[c][j],
{
    if m.active_frames(waves) is Some && m.settings.active() {
        let frames = m.active_frames(waves)->0;
        lemma_active_frames(m, waves);
        let works = m.chunk_works(waves, frames);
        lemma_works_len(m, waves);
        let o = Output {
            waves,
            lowpass: m.bank.bass_lowpass,
            bandpass: m.bank.presence_bandpass,
            clipped: false,
        };
        lemma_channels(o, m.settings.process_channels.len() as int, works, m.settings);
    }
}

proof fn lemma_first_length(list: Seq<usize>, waves: Seq<Seq<PrcFmt>>, n: int)
    ensures
        first_length(list, waves, n) matches Some(len) ==> len > 0,
    decreases list.len() - n,
{
    if 0 <= n < list.len() {
        lemma_first_length(list, waves, n + 1);
    }
}

/// The frames of a chunk are a count.
pub proof fn lemma_active_frames(m: Model, waves: Seq<Seq<PrcFmt>>)
    requires
        m.setup.chunksize >= 0,
    ensures
        m.active_frames(waves) matches Some(frames) ==> frames >= 0,
{
    lemma_first_length(m.settings.monitor_channels, waves, 0);
}

/// Whether a filter has nothing left to let out.
pub open spec fn at_rest(filter: Biquad) -> bool {
    filter.s1 == 0 && filter.s2 == 0
}

/// Whether a channel is silent.
pub open spec fn silent(wave: Seq<PrcFmt>) -> bool {
    forall|j: int| 0 <= j < wave.len() ==> #[trigger] wave[j] == 0
}

/// A filter at rest lets silence through as silence and stays at rest.
pub proof fn law_filter_stays_at_rest(filter: Biquad, wave: Seq<PrcFmt>, n: int)
    requires
        at_rest(filter),
        silent(wave),
        0 <= n <= wave.len(),
    ensures
        filter.after_wave(wave, n) == filter,
        filter.output(0) == 0,
    decreases n,
{
    lemma_prod_zero(filter.coeffs.b0);
    lemma_prod_zero(filter.coeffs.b1);
    lemma_prod_zero(filter.coeffs.b2);
    lemma_prod_zero(filter.coeffs.a1);
    lemma_prod_zero(filter.coeffs.a2);
    if n > 0 {
        law_filter_stays_at_rest(filter, wave, n - 1);
        assert(wave[n - 1] == 0);
    }
}

proof fn lemma_silent_channel(
    wave: Seq<PrcFmt>,
    lowpass: Biquad,
    bandpass: Biquad,
    works: Seq<Work>,
    s: Settings,
)
    requires
        silent(wave),
        at_rest(lowpass),
        at_rest(bandpass),
        s.limiter.clip_limit >= 0,
    ensures
        shelved(wave, lowpass, works, s.shelving()) == wave,
        driven(wave, lowpass, bandpass, works, s.shelving(), s.lifting()) == wave,
        limited(wave, s.limiter) == wave,
        !too_loud(wave, s.limiter),
        used(lowpass, wave, s.shelving()) == lowpass,
        used(bandpass, wave, s.lifting()) == bandpass,
{
    law_filter_stays_at_rest(lowpass, wave, wave.len() as int);
    law_filter_stays_at_rest(bandpass, wave, wave.len() as int);
    let shelf = shelved(wave, lowpass, works, s.shelving());
    assert forall|j: int| 0 <= j < wave.len() implies #[trigger] shelf[j] == wave[j] by {
        law_filter_stays_at_rest(lowpass, wave, j);
        assert(wave[j] == 0);
        lemma_prod_zero(works[j].bass);
    }
    assert(shelf =~= wave);
    let lift = lifted(wave, bandpass, works, s.lifting());
    assert forall|j: int| 0 <= j < wave.len() implies #[trigger] lift[j] == wave[j] by {
        law_filter_stays_at_rest(bandpass, wave, j);
        assert(wave[j] == 0);
        lemma_prod_zero(works[j].presence);
    }
    assert(lift =~= wave);
    let level = levelled(wave, works);
    assert forall|j: int| 0 <= j < wave.len() implies #[trigger] level[j] == wave[j] by {
        assert(wave[j] == 0);
        lemma_prod_zero(works[j].gain);
    }
    assert(level =~= wave);
}

proof fn lemma_silent_channels(o: Output, n: int, works: Seq<Work>, s: Settings)
    requires
        s.limiter.clip_limit >= 0,
        all_within(s.process_channels, o.waves.len() as int),
        0 <= n <= s.process_channels.len(),
        o.lowpass.len() == s.process_channels.len(),
        o.bandpass.len() == s.process_channels.len(),
        forall|i: int|
            0 <= i < n ==> silent(
                heard(o.waves[#[trigger] s.process_channels[i] as int], works.len() as int),
            ) && at_rest(o.lowpass[i]) && at_rest(o.bandpass[i]),
    ensures
        o.after_channels(n, works, s) == o,
    decreases n,
{
    if n > 0 {
        lemma_silent_channels(o, n - 1, works, s);
        let ch = s.process_channels[n - 1] as int;
        assert(s.process_channels[n - 1] < o.waves.len());
        let wave = heard(o.waves[ch], works.len() as int);
        lemma_silent_channel(wave, o.lowpass[n - 1], o.bandpass[n - 1], works, s);
        let after = o.after_channel(n - 1, works, s);
        assert(after.waves[ch] =~= o.waves[ch]);
        assert(after.waves =~= o.waves);
        assert(after.lowpass =~= o.lowpass);
        assert(after.bandpass =~= o.bandpass);
    }
}

/// Silence comes out as silence, and leaves the output filters at rest.
pub proof fn law_silence_stays_silent(m: Model, waves: Seq<Seq<PrcFmt>>)
    requires
        m.wf(),
        m.accepts(waves),
        forall|i: int|
            0 <= i < m.settings.process_channels.len() ==> silent(
                waves[#[trigger] m.settings.process_channels[i] as int],
            ) && at_rest(m.bank.bass_lowpass[i]) && at_rest(m.bank.presence_bandpass[i]),
    ensures
        m.processed(waves) == waves,
        m.after_chunk(waves).bank.bass_lowpass == m.bank.bass_lowpass,
        m.after_chunk(waves).bank.presence_bandpass == m.bank.presence_bandpass,
        m.after_chunk(waves).clipping ==> m.clipping,
{
    if m.active_frames(waves) is Some && m.settings.active() {
        let frames = m.active_frames(waves)->0;
        lemma_active_frames(m, waves);
        let works = m.chunk_works(waves, frames);
        lemma_works_len(m, waves);
        let o = Output {
            waves,
            lowpass: m.bank.bass_lowpass,
            bandpass: m.bank.presence_bandpass,
            clipped: false,
        };
        assert forall|i: int| 0 <= i < m.settings.process_channels.len() implies silent(
            heard(o.waves[#[trigger] m.settings.process_channels[i] as int], works.len() as int),
        ) by {
            let wave = waves[m.settings.process_channels[i] as int];
            assert(m.settings.process_channels[i] < waves.len());
            assert(silent(wave));
        }
        lemma_silent_channels(o, m.settings.process_channels.len() as int, works, m.settings);
    }
}

/// Whether the gain is one, and there is neither shelf nor lift.
pub open spec fn inert(work: Work) -> bool {
    work.gain == ONE && work.bass == 0 && work.presence == 0
}

/// Frames that ask for nothing pass bit for bit.
pub proof fn law_inert_work_changes_nothing(
    wave: Seq<PrcFmt>,
    lowpass: Biquad,
    bandpass: Biquad,
    works: Seq<Work>,
    shelving: bool,
    lifting: bool,
)
    requires
        wave.len() <= works.len(),
        forall|j: int| 0 <= j < wave.len() ==> inert(#[trigger] works[j]),
    ensures
        driven(wave, lowpass, bandpass, works, shelving, lifting) == wave,
{
    let shelf = shelved(wave, lowpass, works, shelving);
    assert forall|j: int| 0 <= j < wave.len() implies #[trigger] shelf[j] == wave[j] by {
        assert(inert(works[j]));
        lemma_prod_zero(lowpass.wave_output(wave, j));
    }
    assert(shelf =~= wave);
    let lift = lifted(wave, bandpass, works, lifting);
    assert forall|j: int| 0 <= j < wave.len() implies #[trigger] lift[j] == wave[j] by {
        assert(inert(works[j]));
        lemma_prod_zero(bandpass.wave_output(wave, j));
    }
    assert(lift =~= wave);
    let level = levelled(wave, works);
    assert forall|j: int| 0 <= j < wave.len() implies #[trigger] level[j] == wave[j] by {
        assert(inert(works[j]));
        lemma_prod_one(wave[j]);
    }
    assert(level =~= wave);
}

proof fn lemma_inert_channels(o: Output, n: int, works: Seq<Work>, s: Settings)
    requires
        all_within(s.process_channels, o.waves.len() as int),
        0 <= n <= s.process_channels.len(),
        forall|j: int| 0 <= j < works.len() ==> inert(#[trigger] works[j]),
        forall|i: int|
            0 <= i < n ==> !too_loud(
                heard(o.waves[#[trigger] s.process_channels[i] as int], works.len() as int),
                s.limiter,
            ),
    ensures
        o.after_channels(n, works, s).waves == o.waves,
        o.after_channels(n, works, s).clipped == o.clipped,
    decreases n,
{
    if n > 0 {
        lemma_inert_channels(o, n - 1, works, s);
        let before = o.after_channels(n - 1, works, s);
        let ch = s.process_channels[n - 1] as int;
        assert(s.process_channels[n - 1] < o.waves.len());
        let wave = heard(o.waves[ch], works.len() as int);
        law_inert_work_changes_nothing(
            wave,
            before.lowpass[n - 1],
            before.bandpass[n - 1],
            works,
            s.shelving(),
            s.lifting(),
        );
        let after = before.after_channel(n - 1, works, s);
        assert(after.waves[ch] =~= o.waves[ch]);
        assert(after.waves =~= o.waves);
    }
}

/// A chunk in which nothing is asked for, and in which nothing is too loud, passes bit for
/// bit.
pub proof fn law_chunk_passes_untouched(m: Model, waves: Seq<Seq<PrcFmt>>)
    requires
        m.wf(),
        m.accepts(waves),
        m.active_frames(waves) matches Some(frames) ==> (forall|j: int|
            0 <= j < frames ==> inert(#[trigger] m.chunk_works(waves, frames)[j])),
        m.active_frames(waves) matches Some(frames) ==> (forall|i: int|
            0 <= i < m.settings.process_channels.len() ==> !too_loud(
                heard(waves[#[trigger] m.settings.process_channels[i] as int], frames),
                m.settings.limiter,
            )),
    ensures
        m.processed(waves) == waves,
        m.after_chunk(waves).clipping ==> m.clipping,
{
    if m.active_frames(waves) is Some && m.settings.active() {
        let frames = m.active_frames(waves)->0;
        lemma_active_frames(m, waves);
        let works = m.chunk_works(waves, frames);
        lemma_works_len(m, waves);
        let o = Output {
            waves,
            lowpass: m.bank.bass_lowpass,
            bandpass: m.bank.presence_bandpass,
            clipped: false,
        };
        lemma_inert_channels(o, m.settings.process_channels.len() as int, works, m.settings);
    }
}

/// Whether no entry of a list comes twice.
pub open spec fn all_different(list: Seq<usize>) -> bool {
    forall|i: int, k: int| 0 <= i < k < list.len() ==> #[trigger] list[i] != #[trigger] list[k]
}

/// Whether two outputs agree in one processed channel and in its filters.
pub open spec fn same_channel(o: Output, k: Output, i: int, s: Settings) -> bool {
    let c = s.process_channels[i] as int;
    &&& o.waves[c] == k.waves[c]
    &&& o.lowpass[i] == k.lowpass[i]
    &&& o.bandpass[i] == k.bandpass[i]
}

/// Whether an output has a channel and a pair of filters for each processed channel.
pub open spec fn covers(o: Output, s: Settings) -> bool {
    &&& all_within(s.process_channels, o.waves.len() as int)
    &&& o.lowpass.len() == s.process_channels.len()
    &&& o.bandpass.len() == s.process_channels.len()
}

proof fn lemma_channels_do_not_mix(
    o: Output,
    k: Output,
    i: int,
    n: int,
    works: Seq<Work>,
    s: Settings,
)
    requires
        all_different(s.process_channels),
        covers(o, s),
        covers(k, s),
        0 <= i < s.process_channels.len(),
        0 <= n <= s.process_channels.len(),
        same_channel(o, k, i, s),
    ensures
        same_channel(o.after_channels(n, works, s), k.after_channels(n, works, s), i, s),
        covers(o.after_channels(n, works, s), s),
        covers(k.after_channels(n, works, s), s),
    decreases n,
{
    if n > 0 {
        lemma_channels_do_not_mix(o, k, i, n - 1, works, s);
        let list = s.process_channels;
        let (x, y) = (o.after_channels(n - 1, works, s), k.after_channels(n - 1, works, s));
        assert(list[n - 1] < x.waves.len() && list[n - 1] < y.waves.len());
        assert(list[i] < x.waves.len() && list[i] < y.waves.len());
        if n - 1 < i {
            assert(list[n - 1] != list[i]);
        } else if n - 1 > i {
            assert(list[i] != list[n - 1]);
        }
    }
}

/// Under the same work, one channel's audio never influences another's output: what becomes of
/// a processed channel depends on that channel and its filters alone.
pub proof fn law_channels_do_not_mix(o: Output, k: Output, i: int, works: Seq<Work>, s: Settings)
    requires
        all_different(s.process_channels),
        covers(o, s),
        covers(k, s),
        0 <= i < s.process_channels.len(),
        same_channel(o, k, i, s),
    ensures
        ({
            let n = s.process_channels.len() as int;
            same_channel(o.after_channels(n, works, s), k.after_channels(n, works, s), i, s)
        }),
{
    lemma_channels_do_not_mix(o, k, i, s.process_channels.len() as int, works, s);
}

} // verus!
