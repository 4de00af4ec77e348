//! With the detector off, and where the ceiling is not reached, the audio that comes out does
//! not depend on how the audio that goes in is cut into chunks.
use crate::filters::{Biquad, Limiter};
use crate::fixed::{magnitude, PrcFmt};
use crate::gain::{Followers, Guide, Work};
use crate::laws::chunks::{
    consecutive, joined, law_filter_runs_on, law_learning_is_independent_of_chunks, learned,
    lemma_chunk_is_measured, listens_within,
};
use crate::laws::chunksize::{
    fed, filled, hears, lemma_frames_of, lemma_measured_at_any_size, lemma_spliced, spliced, stream,
    total,
};
use crate::laws::output::{covers, lemma_active_frames};
use crate::laws::steady::{
    law_steady_gain_is_independent_of_chunks, lemma_chunk_follows, lemma_frames, lemma_second_chunk,
};
use crate::laws::streams::same_audio;
use crate::model::Model;
use crate::output::{driven, levelled, lifted, limited, shelved, too_loud, used, Output};
use crate::settings::{Settings, Setup};
use crate::sidechain::{all_within, heard};
use vstd::prelude::*;

verus! {

/// Two parts of a channel, each with its work: both as long as their work, or both empty.
spec fn parts(x: Seq<PrcFmt>, y: Seq<PrcFmt>, v: Seq<Work>, w: Seq<Work>) -> bool {
    ||| x.len() == v.len() && y.len() == w.len()
    ||| x.len() == 0 && y.len() == 0
}

proof fn lemma_shelved_runs_on(
    x: Seq<PrcFmt>,
    y: Seq<PrcFmt>,
    lowpass: Biquad,
    v: Seq<Work>,
    w: Seq<Work>,
    shelving: bool,
)
    requires
        parts(x, y, v, w),
    ensures
        shelved(x + y, lowpass, v + w, shelving) == shelved(x, lowpass, v, shelving) + shelved(
            y,
            used(lowpass, x, shelving),
            w,
            shelving,
        ),
        used(lowpass, x + y, shelving) == used(used(lowpass, x, shelving), y, shelving),
{
    let together = shelved(x + y, lowpass, v + w, shelving);
    let apart = shelved(x, lowpass, v, shelving) + shelved(
        y,
        used(lowpass, x, shelving),
        w,
        shelving,
    );
    assert forall|j: int| 0 <= j < x.len() + y.len() implies #[trigger] together[j] == apart[j] by {
        law_filter_runs_on(lowpass, x, y, j);
    }
    assert(together =~= apart);
    law_filter_runs_on(lowpass, x, y, (x.len() + y.len()) as int);
}

proof fn lemma_lifted_runs_on(
    x: Seq<PrcFmt>,
    y: Seq<PrcFmt>,
    bandpass: Biquad,
    v: Seq<Work>,
    w: Seq<Work>,
    lifting: bool,
)
    requires
        parts(x, y, v, w),
    ensures
        lifted(x + y, bandpass, v + w, lifting) == lifted(x, bandpass, v, lifting) + lifted(
            y,
            used(bandpass, x, lifting),
            w,
            lifting,
        ),
        used(bandpass, x + y, lifting) == used(used(bandpass, x, lifting), y, lifting),
{
    let together = lifted(x + y, bandpass, v + w, lifting);
    let apart = lifted(x, bandpass, v, lifting) + lifted(
        y,
        used(bandpass, x, lifting),
        w,
        lifting,
    );
    assert forall|j: int| 0 <= j < x.len() + y.len() implies #[trigger] together[j] == apart[j] by {
        law_filter_runs_on(bandpass, x, y, j);
    }
    assert(together =~= apart);
    law_filter_runs_on(bandpass, x, y, (x.len() + y.len()) as int);
}

/// The filters of a channel after it has been worked on.
spec fn filters_of(
    wave: Seq<PrcFmt>,
    lowpass: Biquad,
    bandpass: Biquad,
    works: Seq<Work>,
    s: Settings,
) -> (Biquad, Biquad) {
    (
        used(lowpass, wave, s.shelving()),
        used(bandpass, shelved(wave, lowpass, works, s.shelving()), s.lifting()),
    )
}

/// The work on a channel goes on where it left off.
proof fn lemma_driven_runs_on(
    x: Seq<PrcFmt>,
    y: Seq<PrcFmt>,
    lowpass: Biquad,
    bandpass: Biquad,
    v: Seq<Work>,
    w: Seq<Work>,
    s: Settings,
)
    requires
        parts(x, y, v, w),
    ensures
        ({
            let (low, band) = filters_of(x, lowpass, bandpass, v, s);
            &&& driven(x + y, lowpass, bandpass, v + w, s.shelving(), s.lifting()) == driven(
                x,
                lowpass,
                bandpass,
                v,
                s.shelving(),
                s.lifting(),
            ) + driven(y, low, band, w, s.shelving(), s.lifting())
            &&& filters_of(x + y, lowpass, bandpass, v + w, s) == filters_of(y, low, band, w, s)
        }),
{
    let (low, band) = filters_of(x, lowpass, bandpass, v, s);
    lemma_shelved_runs_on(x, y, lowpass, v, w, s.shelving());
    let (p, q) = (shelved(x, lowpass, v, s.shelving()), shelved(y, low, w, s.shelving()));
    lemma_lifted_runs_on(p, q, bandpass, v, w, s.lifting());
    let (a, b) = (lifted(p, bandpass, v, s.lifting()), lifted(q, band, w, s.lifting()));
    assert(a.len() == x.len() && b.len() == y.len());
    assert(levelled(a + b, v + w) =~= levelled(a, v) + levelled(b, w));
}

/// A ceiling that the whole does not reach is reached by neither part.
proof fn lemma_quiet_parts(x: Seq<PrcFmt>, y: Seq<PrcFmt>, limiter: Limiter)
    requires
        !too_loud(x + y, limiter),
    ensures
        !too_loud(x, limiter),
        !too_loud(y, limiter),
{
    assert forall|j: int| 0 <= j < x.len() implies magnitude(#[trigger] x[j])
        <= limiter.clip_limit by {
        assert((x + y)[j] == x[j]);
    }
    assert forall|j: int| 0 <= j < y.len() implies magnitude(#[trigger] y[j])
        <= limiter.clip_limit by {
        assert((x + y)[x.len() + j] == y[j]);
    }
}

/// What processed channels leave alone: the filters of those that come later.
proof fn lemma_filters_wait(o: Output, n: int, works: Seq<Work>, s: Settings)
    requires
        covers(o, s),
        0 <= n <= s.process_channels.len(),
    ensures
        covers(o.after_channels(n, works, s), s),
        forall|i: int|
            n <= i < s.process_channels.len() ==> #[trigger] o.after_channels(
                n,
                works,
                s,
            ).lowpass[i] == o.lowpass[i],
        forall|i: int|
            n <= i < s.process_channels.len() ==> #[trigger] o.after_channels(
                n,
                works,
                s,
            ).bandpass[i] == o.bandpass[i],
    decreases n,
{
    if n > 0 {
        lemma_filters_wait(o, n - 1, works, s);
        let before = o.after_channels(n - 1, works, s);
        assert(s.process_channels[n - 1] < before.waves.len());
    }
}

/// Later channels leave the filters of earlier ones alone, and a ceiling that has been hit
/// stays hit.
proof fn lemma_filters_settle(o: Output, i: int, n: int, works: Seq<Work>, s: Settings)
    requires
        covers(o, s),
        0 <= i < n <= s.process_channels.len(),
    ensures
        o.after_channels(n, works, s).lowpass[i] == o.after_channels(i + 1, works, s).lowpass[i],
        o.after_channels(n, works, s).bandpass[i] == o.after_channels(i + 1, works, s).bandpass[i],
        o.after_channels(i + 1, works, s).clipped ==> o.after_channels(n, works, s).clipped,
    decreases n,
{
    if n > i + 1 {
        lemma_filters_settle(o, i, n - 1, works, s);
        lemma_filters_wait(o, n - 1, works, s);
    }
}

/// A channel after it has been worked on, and its filters.
proof fn lemma_channel(o: Output, i: int, works: Seq<Work>, s: Settings)
    requires
        covers(o, s),
        0 <= i < s.process_channels.len(),
        o.waves[s.process_channels[i] as int].len() <= works.len(),
        !o.after_channel(i, works, s).clipped,
    ensures
        ({
            let c = s.process_channels[i] as int;
            let after = o.after_channel(i, works, s);
            let (low, band) = filters_of(o.waves[c], o.lowpass[i], o.bandpass[i], works, s);
            let out = driven(
                o.waves[c],
                o.lowpass[i],
                o.bandpass[i],
                works,
                s.shelving(),
                s.lifting(),
            );
            &&& !too_loud(out, s.limiter)
            &&& after.waves == o.waves.update(c, out)
            &&& after.lowpass == o.lowpass.update(i, low)
            &&& after.bandpass == o.bandpass.update(i, band)
        }),
{
    let c = s.process_channels[i] as int;
    assert(s.process_channels[i] < o.waves.len());
    let wave = o.waves[c];
    assert(heard(wave, works.len() as int) =~= wave);
    let out = driven(wave, o.lowpass[i], o.bandpass[i], works, s.shelving(), s.lifting());
    assert(limited(out, s.limiter) + wave.skip(wave.len() as int) =~= out);
}

/// Without the ceiling, a channel is what its work makes of it.
proof fn lemma_quiet_channel(o: Output, i: int, works: Seq<Work>, s: Settings)
    requires
        covers(o, s),
        0 <= i < s.process_channels.len(),
        o.waves[s.process_channels[i] as int].len() <= works.len(),
        !o.clipped,
        !too_loud(
            driven(
                o.waves[s.process_channels[i] as int],
                o.lowpass[i],
                o.bandpass[i],
                works,
                s.shelving(),
                s.lifting(),
            ),
            s.limiter,
        ),
    ensures
        !o.after_channel(i, works, s).clipped,
{
    let wave = o.waves[s.process_channels[i] as int];
    assert(heard(wave, works.len() as int) =~= wave);
}

/// Whether the output of the first `n` channels in one piece is that in two.
spec fn in_step(x: Output, y: Output, z: Output, n: int, p: int, q: int) -> bool {
    &&& x.waves == joined(y.waves, z.waves)
    &&& consecutive(y.waves, z.waves, p, q)
    &&& !y.clipped
    &&& !z.clipped
    &&& forall|i: int| 0 <= i < n ==> #[trigger] x.lowpass[i] == z.lowpass[i]
    &&& forall|i: int| 0 <= i < n ==> #[trigger] x.bandpass[i] == z.bandpass[i]
}

/// One more channel, in one piece and in two.
proof fn lemma_channel_in_step(
    x: Output,
    y: Output,
    z: Output,
    n: int,
    v: Seq<Work>,
    w: Seq<Work>,
    s: Settings,
)
    requires
        covers(x, s),
        covers(y, s),
        covers(z, s),
        0 <= n < s.process_channels.len(),
        v.len() > 0,
        w.len() > 0,
        in_step(x, y, z, n, v.len() as int, w.len() as int),
        x.lowpass[n] == y.lowpass[n],
        x.bandpass[n] == y.bandpass[n],
        z.lowpass[n] == y.after_channel(n, v, s).lowpass[n],
        z.bandpass[n] == y.after_channel(n, v, s).bandpass[n],
        !x.after_channel(n, v + w, s).clipped,
    ensures
        in_step(
            x.after_channel(n, v + w, s),
            y.after_channel(n, v, s),
            z.after_channel(n, w, s),
            n + 1,
            v.len() as int,
            w.len() as int,
        ),
{
    let c = s.process_channels[n] as int;
    assert(s.process_channels[n] < y.waves.len());
    let (a, b) = (y.waves[c], z.waves[c]);
    assert(a.len() >= 0);
    assert(x.waves[c] == a + b);
    assert(parts(a, b, v, w));
    let (low, band) = (y.lowpass[n], y.bandpass[n]);
    lemma_driven_runs_on(a, b, low, band, v, w, s);
    lemma_channel(x, n, v + w, s);
    let (low2, band2) = filters_of(a, low, band, v, s);
    let out_a = driven(a, low, band, v, s.shelving(), s.lifting());
    let out_b = driven(b, low2, band2, w, s.shelving(), s.lifting());
    lemma_quiet_parts(out_a, out_b, s.limiter);
    lemma_quiet_channel(y, n, v, s);
    lemma_channel(y, n, v, s);
    assert(z.lowpass[n] == low2 && z.bandpass[n] == band2);
    lemma_quiet_channel(z, n, w, s);
    lemma_channel(z, n, w, s);
    let (x1, y1, z1) = (
        x.after_channel(n, v + w, s),
        y.after_channel(n, v, s),
        z.after_channel(n, w, s),
    );
    assert(out_a.len() == a.len() && out_b.len() == b.len());
    assert(x1.waves =~= joined(y1.waves, z1.waves));
    assert forall|ch: int| 0 <= ch < y1.waves.len() implies {
        ||| (#[trigger] y1.waves[ch]).len() == v.len() && z1.waves[ch].len() == w.len()
        ||| y1.waves[ch].len() == 0 && z1.waves[ch].len() == 0
    } by {
        assert(y.waves[ch].len() >= 0);
    }
}

/// All channels, in one piece and in two.
proof fn lemma_channels_in_step(
    x: Output,
    y: Output,
    z: Output,
    n: int,
    v: Seq<Work>,
    w: Seq<Work>,
    s: Settings,
)
    requires
        covers(x, s),
        covers(y, s),
        covers(z, s),
        0 <= n <= s.process_channels.len(),
        v.len() > 0,
        w.len() > 0,
        in_step(x, y, z, 0, v.len() as int, w.len() as int),
        x.lowpass == y.lowpass,
        x.bandpass == y.bandpass,
        z.lowpass == y.after_channels(s.process_channels.len() as int, v, s).lowpass,
        z.bandpass == y.after_channels(s.process_channels.len() as int, v, s).bandpass,
        !x.after_channels(s.process_channels.len() as int, v + w, s).clipped,
    ensures
        in_step(
            x.after_channels(n, v + w, s),
            y.after_channels(n, v, s),
            z.after_channels(n, w, s),
            n,
            v.len() as int,
            w.len() as int,
        ),
    decreases n,
{
    if n > 0 {
        lemma_channels_in_step(x, y, z, n - 1, v, w, s);
        let all = s.process_channels.len() as int;
        lemma_filters_wait(x, n - 1, v + w, s);
        lemma_filters_wait(y, n - 1, v, s);
        lemma_filters_wait(z, n - 1, w, s);
        lemma_filters_settle(x, n - 1, all, v + w, s);
        lemma_filters_settle(y, n - 1, all, v, s);
        lemma_channel_in_step(
            x.after_channels(n - 1, v + w, s),
            y.after_channels(n - 1, v, s),
            z.after_channels(n - 1, w, s),
            n - 1,
            v,
            w,
            s,
        );
    }
}

/// A chunk and the output filters, before any work.
spec fn raw(m: Model, waves: Seq<Seq<PrcFmt>>) -> Output {
    Output {
        waves,
        lowpass: m.bank.bass_lowpass,
        bandpass: m.bank.presence_bandpass,
        clipped: false,
    }
}

/// A chunk and the output filters, after all the work.
spec fn cooked(m: Model, waves: Seq<Seq<PrcFmt>>, works: Seq<Work>) -> Output {
    raw(m, waves).after_channels(m.settings.process_channels.len() as int, works, m.settings)
}

/// What a chunk does to the output.
proof fn lemma_chunk_plays(m: Model, waves: Seq<Seq<PrcFmt>>, frames: int)
    requires
        m.active_frames(waves) == Some(frames),
    ensures
        m.after_chunk(waves).name == m.name,
        m.settings.active() ==> {
            let o = cooked(m, waves, m.chunk_works(waves, frames));
            &&& m.processed(waves) == o.waves
            &&& m.after_chunk(waves).bank.bass_lowpass == o.lowpass
            &&& m.after_chunk(waves).bank.presence_bandpass == o.bandpass
            &&& m.after_chunk(waves).clipping == o.clipped
        },
        !m.settings.active() ==> {
            &&& m.processed(waves) == waves
            &&& m.after_chunk(waves).bank.bass_lowpass == m.bank.bass_lowpass
            &&& m.after_chunk(waves).bank.presence_bandpass == m.bank.presence_bandpass
            &&& m.after_chunk(waves).clipping == m.clipping
        },
{
}

/// Whether a chunk has the channels that the processor works on.
pub open spec fn plays_within(m: Model, channels: int) -> bool {
    m.settings.active() ==> all_within(m.settings.process_channels, channels)
}

/// Whether a chunk stays under the ceiling.
pub open spec fn stays_quiet(m: Model, waves: Seq<Seq<PrcFmt>>) -> bool {
    m.settings.active() ==> !m.after_chunk(waves).clipping
}

/// The output of a chunk in one piece and in two.
proof fn lemma_output_runs_on(m: Model, a: Seq<Seq<PrcFmt>>, b: Seq<Seq<PrcFmt>>, p: int, q: int)
    requires
        m.wf(),
        m.settings.active(),
        consecutive(a, b, p, q),
        plays_within(m, a.len() as int),
        m.active_frames(a) == Some(p),
        m.after_chunk(a).active_frames(b) == Some(q),
        m.active_frames(joined(a, b)) == Some(p + q),
        m.after_chunk(a).settings == m.settings,
        m.chunk_works(joined(a, b), p + q) == m.chunk_works(a, p) + m.after_chunk(a).chunk_works(
            b,
            q,
        ),
        !m.after_chunk(joined(a, b)).clipping,
    ensures
        ({
            let together = m.after_chunk(joined(a, b));
            let then = m.after_chunk(a);
            let second = then.after_chunk(b);
            &&& m.processed(joined(a, b)) == joined(m.processed(a), then.processed(b))
            &&& together.bank.bass_lowpass == second.bank.bass_lowpass
            &&& together.bank.presence_bandpass == second.bank.presence_bandpass
            &&& !then.clipping
            &&& !second.clipping
        }),
{
    let ab = joined(a, b);
    let then = m.after_chunk(a);
    let s = m.settings;
    let all = s.process_channels.len() as int;
    lemma_chunk_plays(m, a, p);
    lemma_chunk_plays(m, ab, p + q);
    lemma_chunk_plays(then, b, q);
    let (v, w) = (m.chunk_works(a, p), then.chunk_works(b, q));
    lemma_chunk_follows(m, a, p);
    lemma_chunk_follows(then, b, q);
    assert(v.len() == p && w.len() == q);
    let (x, y, z) = (raw(m, ab), raw(m, a), raw(then, b));
    assert(covers(x, s) && covers(y, s));
    lemma_filters_wait(y, all, v, s);
    assert(covers(z, s));
    lemma_channels_in_step(x, y, z, all, v, w, s);
    lemma_filters_wait(x, all, v + w, s);
    lemma_filters_wait(z, all, w, s);
    let (xn, zn) = (x.after_channels(all, v + w, s), z.after_channels(all, w, s));
    assert(xn.lowpass =~= zn.lowpass);
    assert(xn.bandpass =~= zn.bandpass);
}

/// With the detector off, and where the ceiling is not reached, it makes no difference at all
/// whether a chunk comes in one piece or in two: the same audio comes out, bit for bit, and
/// the processor ends up in the same state.
pub proof fn law_steady_audio_is_independent_of_chunks(
    m: Model,
    a: Seq<Seq<PrcFmt>>,
    b: Seq<Seq<PrcFmt>>,
    p: int,
    q: int,
)
    requires
        m.wf(),
        m.settings.dialogue_protection == 0,
        consecutive(a, b, p, q),
        listens_within(m, a.len() as int),
        plays_within(m, a.len() as int),
        p + q <= m.setup.chunksize,
        m.active_frames(a) is Some,
        stays_quiet(m, joined(a, b)),
    ensures
        m.after_chunk(joined(a, b)) == m.after_chunk(a).after_chunk(b),
        m.processed(joined(a, b)) == joined(m.processed(a), m.after_chunk(a).processed(b)),
        stays_quiet(m, a),
{
    let ab = joined(a, b);
    let then = m.after_chunk(a);
    lemma_frames(m, a, b, p, q);
    lemma_second_chunk(m, a, b, p, q);
    law_learning_is_independent_of_chunks(m, a, b, p, q);
    law_steady_gain_is_independent_of_chunks(m, a, b, p, q);
    lemma_chunk_plays(m, a, p);
    lemma_chunk_plays(m, ab, p + q);
    lemma_chunk_plays(then, b, q);
    lemma_chunk_is_measured(m, ab, p + q);
    lemma_chunk_is_measured(then, b, q);
    if m.settings.active() {
        lemma_output_runs_on(m, a, b, p, q);
    } else {
        assert(m.processed(ab) =~= joined(m.processed(a), then.processed(b)));
    }
    let (together, second) = (m.after_chunk(ab), then.after_chunk(b));
    assert(learned(together) == learned(second));
    assert(together.bank =~= second.bank);
    assert(together =~= second);
}

/// The size of the scratch has no influence on the gain law.
proof fn lemma_following_at_any_size(
    f: Followers,
    power: Seq<PrcFmt>,
    n: int,
    s: Settings,
    u: Setup,
    v: Setup,
    g: Guide,
)
    requires
        v == (Setup { chunksize: v.chunksize, ..u }),
    ensures
        f.after_frames(power, n, s, u, g) == f.after_frames(power, n, s, v, g),
    decreases n,
{
    if n > 0 {
        lemma_following_at_any_size(f, power, n - 1, s, u, v, g);
    }
}

/// The same processor, with room for chunks of another size.
pub open spec fn resized(m: Model, chunksize: int) -> Model {
    Model { setup: Setup { chunksize, ..m.setup }, ..m }
}

/// A chunk that both have room for is processed the same.
pub proof fn law_room_for_longer_chunks_changes_nothing(
    m: Model,
    waves: Seq<Seq<PrcFmt>>,
    chunksize: int,
)
    requires
        m.setup.chunksize >= 0,
        m.active_frames(waves) == resized(m, chunksize).active_frames(waves),
    ensures
        resized(m, chunksize).processed(waves) == m.processed(waves),
        resized(m, chunksize).after_chunk(waves) == resized(m.after_chunk(waves), chunksize),
{
    let k = resized(m, chunksize);
    if let Some(frames) = m.active_frames(waves) {
        lemma_active_frames(m, waves);
        lemma_measured_at_any_size(m, k, waves, frames);
        let power = m.power(waves, frames);
        let g = m.measured(waves, frames).guide();
        assert(k.measured(waves, frames).guide() == g);
        lemma_chunk_follows(m, waves, frames);
        lemma_chunk_follows(k, waves, frames);
        lemma_following_at_any_size(
            m.followers,
            power,
            frames,
            m.settings,
            m.setup,
            k.setup,
            g,
        );
        let (v, w) = (m.chunk_works(waves, frames), k.chunk_works(waves, frames));
        assert forall|j: int| 0 <= j < frames implies #[trigger] v[j] == w[j] by {
            lemma_following_at_any_size(
                m.followers,
                power,
                j + 1,
                m.settings,
                m.setup,
                k.setup,
                g,
            );
        }
        assert(v =~= w);
        lemma_chunk_plays(m, waves, frames);
        lemma_chunk_plays(k, waves, frames);
        assert(raw(m, waves) == raw(k, waves));
        lemma_chunk_is_measured(m, waves, frames);
        lemma_chunk_is_measured(k, waves, frames);
        assert(learned(m.after_chunk(waves)) == learned(k.after_chunk(waves)));
        assert(k.after_chunk(waves).bank =~= m.after_chunk(waves).bank);
        assert(k.after_chunk(waves) =~= resized(m.after_chunk(waves), chunksize));
    }
}

/// What becomes of the first `n` of some chunks, as one.
pub open spec fn played(m: Model, chunks: Seq<Seq<Seq<PrcFmt>>>, n: int) -> Seq<Seq<PrcFmt>>
    decreases n,
{
    if n <= 1 {
        m.processed(chunks[0])
    } else {
        joined(played(m, chunks, n - 1), fed(m, chunks, n - 1).processed(chunks[n - 1]))
    }
}

/// Some chunks, and the one that they make.
proof fn lemma_played_as_one(
    m: Model,
    chunks: Seq<Seq<Seq<PrcFmt>>>,
    used: Seq<bool>,
    lengths: Seq<int>,
    room: int,
    n: int,
)
    requires
        m.wf(),
        m.settings.dialogue_protection == 0,
        listens_within(m, used.len() as int),
        plays_within(m, used.len() as int),
        hears(m, used),
        stream(chunks, used, lengths, m.setup.chunksize),
        1 <= n <= chunks.len(),
        total(lengths, n) <= room,
        m.setup.chunksize <= room,
        stays_quiet(resized(m, room), spliced(chunks, n)),
    ensures
        resized(fed(m, chunks, n), room) == resized(m, room).after_chunk(spliced(chunks, n)),
        played(m, chunks, n) == resized(m, room).processed(spliced(chunks, n)),
    decreases n,
{
    let big = resized(m, room);
    let (last, len) = (chunks[n - 1], lengths[n - 1]);
    assert(filled(last, used, len) && 0 < len <= m.setup.chunksize);
    assert(hears(big, used));
    if n == 1 {
        assert(fed(m, chunks, 0) == m);
        lemma_frames_of(m, last, used, len);
        lemma_frames_of(big, last, used, len);
        law_room_for_longer_chunks_changes_nothing(m, last, room);
    } else {
        let (whole, p) = (spliced(chunks, n - 1), total(lengths, n - 1));
        lemma_spliced(chunks, used, lengths, m.setup.chunksize, n - 1);
        lemma_frames_of(big, whole, used, p);
        law_steady_audio_is_independent_of_chunks(big, whole, last, p, len);
        lemma_played_as_one(m, chunks, used, lengths, room, n - 1);
        let before = fed(m, chunks, n - 1);
        let then = big.after_chunk(whole);
        assert(resized(before, room) == then);
        lemma_kept(m, chunks, n - 1);
        assert(hears(before, used) && hears(then, used));
        lemma_frames_of(before, last, used, len);
        lemma_frames_of(then, last, used, len);
        law_room_for_longer_chunks_changes_nothing(before, last, room);
    }
}

/// Chunks change neither settings nor setup.
proof fn lemma_kept(m: Model, chunks: Seq<Seq<Seq<PrcFmt>>>, n: int)
    ensures
        fed(m, chunks, n).settings == m.settings,
        fed(m, chunks, n).setup == m.setup,
    decreases n,
{
    if n > 0 {
        lemma_kept(m, chunks, n - 1);
    }
}

/// With the detector off, and where the ceiling is not reached, the size of the chunks makes no
/// difference at all. The same audio, cut into any chunks of any sizes, comes out the same, bit
/// for bit, as if it had come in one piece, and the processors end up in the same state.
pub proof fn law_steady_audio_is_independent_of_chunksize(
    m: Model,
    k: Model,
    chunks: Seq<Seq<Seq<PrcFmt>>>,
    lengths: Seq<int>,
    others: Seq<Seq<Seq<PrcFmt>>>,
    other_lengths: Seq<int>,
    used: Seq<bool>,
    room: int,
)
    requires
        m.wf(),
        k.wf(),
        m.settings.dialogue_protection == 0,
        same_audio(m, k, chunks, lengths, others, other_lengths, used),
        plays_within(m, used.len() as int),
        total(lengths, chunks.len() as int) <= room,
        m.setup.chunksize <= room,
        k.setup.chunksize <= room,
        stays_quiet(resized(m, room), spliced(chunks, chunks.len() as int)),
    ensures
        played(m, chunks, chunks.len() as int) == resized(m, room).processed(
            spliced(chunks, chunks.len() as int),
        ),
        played(k, others, others.len() as int) == played(m, chunks, chunks.len() as int),
        resized(fed(m, chunks, chunks.len() as int), room) == resized(m, room).after_chunk(
            spliced(chunks, chunks.len() as int),
        ),
        fed(k, others, others.len() as int) == resized(
            fed(m, chunks, chunks.len() as int),
            k.setup.chunksize,
        ),
{
    assert(hears(k, used));
    assert(resized(k, room) == resized(m, room));
    lemma_played_as_one(m, chunks, used, lengths, room, chunks.len() as int);
    lemma_played_as_one(k, others, used, other_lengths, room, others.len() as int);
    lemma_kept(m, chunks, chunks.len() as int);
    lemma_kept(k, others, others.len() as int);
    let (x, y) = (fed(m, chunks, chunks.len() as int), fed(k, others, others.len() as int));
    assert(resized(x, room) == resized(y, room));
    assert(y == resized(resized(y, room), k.setup.chunksize));
}

} // verus!
