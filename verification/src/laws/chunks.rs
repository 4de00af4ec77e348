//! What is heard does not depend on how it is cut into chunks, nor on what is done to the
//! output.
use crate::filters::Biquad;
use crate::fixed::PrcFmt;
use crate::gain::{Followers, Guide, Work};
use crate::hops::{Frame, Listener};
use crate::laws::gain::law_confidence_only_spares;
use crate::laws::health::{law_frames_keep_followers, law_frames_keep_health};
use crate::model::Model;
use crate::output::Output;
use crate::settings::{Settings, Setup};
use crate::sidechain::{
    all_within, carrying, detectable, filters_after, first_length, heard, left_of, mid_of, mix_of,
    mix_sum, power_of, power_sum, right_of, silence,
};
use vstd::prelude::*;

verus! {

/// Two chunks of the same channels, `p` and `q` frames long. A channel that is not used is
/// empty in both.
pub open spec fn consecutive(
    a: Seq<Seq<PrcFmt>>,
    b: Seq<Seq<PrcFmt>>,
    p: int,
    q: int,
) -> bool {
    &&& p > 0
    &&& q > 0
    &&& a.len() == b.len()
    &&& forall|ch: int|
        0 <= ch < a.len() ==> {
            ||| (#[trigger] a[ch]).len() == p && b[ch].len() == q
            ||| a[ch].len() == 0 && b[ch].len() == 0
        }
}

/// The two chunks as one.
pub open spec fn joined(a: Seq<Seq<PrcFmt>>, b: Seq<Seq<PrcFmt>>) -> Seq<Seq<PrcFmt>> {
    Seq::new(a.len(), |ch: int| a[ch] + b[ch])
}

/// A filter goes on where it left off.
pub proof fn law_filter_runs_on(f: Biquad, x: Seq<PrcFmt>, y: Seq<PrcFmt>, n: int)
    requires
        0 <= n <= x.len() + y.len(),
    ensures
        n <= x.len() ==> f.after_wave(x + y, n) == f.after_wave(x, n),
        n >= x.len() ==> f.after_wave(x + y, n) == f.after_all(x).after_wave(y, n - x.len()),
    decreases n,
{
    if n > 0 {
        law_filter_runs_on(f, x, y, n - 1);
        if n <= x.len() {
            assert((x + y)[n - 1] == x[n - 1]);
        } else {
            assert((x + y)[n - 1] == y[n - 1 - x.len()]);
        }
    }
}

proof fn lemma_output_runs_on(f: Biquad, x: Seq<PrcFmt>, y: Seq<PrcFmt>, j: int)
    requires
        0 <= j < x.len() + y.len(),
    ensures
        j < x.len() ==> f.wave_output(x + y, j) == f.wave_output(x, j),
        j >= x.len() ==> f.wave_output(x + y, j) == f.after_all(x).wave_output(y, j - x.len()),
{
    law_filter_runs_on(f, x, y, j);
}

proof fn lemma_filtered_runs_on(f: Biquad, x: Seq<PrcFmt>, y: Seq<PrcFmt>)
    ensures
        f.filtered(x + y) == f.filtered(x) + f.after_all(x).filtered(y),
        f.after_all(x + y) == f.after_all(x).after_all(y),
{
    assert forall|j: int| 0 <= j < x.len() + y.len() implies f.filtered(x + y)[j] == (f.filtered(x)
        + f.after_all(x).filtered(y))[j] by {
        lemma_output_runs_on(f, x, y, j);
    }
    assert(f.filtered(x + y) =~= f.filtered(x) + f.after_all(x).filtered(y));
    law_filter_runs_on(f, x, y, (x.len() + y.len()) as int);
}

proof fn lemma_carrying(
    list: Seq<usize>,
    a: Seq<Seq<PrcFmt>>,
    b: Seq<Seq<PrcFmt>>,
    p: int,
    q: int,
    n: int,
)
    requires
        consecutive(a, b, p, q),
        all_within(list, a.len() as int),
        n <= list.len(),
    ensures
        carrying(list, joined(a, b), n) == carrying(list, a, n),
        carrying(list, b, n) == carrying(list, a, n),
    decreases n,
{
    if n > 0 {
        lemma_carrying(list, a, b, p, q, n - 1);
        assert(list[n - 1] < a.len());
        assert(a[list[n - 1] as int].len() >= 0);
    }
}

proof fn lemma_heard_whole(a: Seq<Seq<PrcFmt>>, b: Seq<Seq<PrcFmt>>, p: int, q: int, ch: int)
    requires
        consecutive(a, b, p, q),
        0 <= ch < a.len(),
    ensures
        heard(a[ch], p) == a[ch],
        heard(b[ch], q) == b[ch],
        heard(joined(a, b)[ch], p + q) == a[ch] + b[ch],
{
    assert(a[ch].len() >= 0);
    assert(heard(a[ch], p) =~= a[ch]);
    assert(heard(b[ch], q) =~= b[ch]);
    assert(heard(joined(a, b)[ch], p + q) =~= a[ch] + b[ch]);
}

proof fn lemma_power_sum(
    filters: Seq<Biquad>,
    list: Seq<usize>,
    a: Seq<Seq<PrcFmt>>,
    b: Seq<Seq<PrcFmt>>,
    p: int,
    q: int,
    n: int,
    j: int,
)
    requires
        consecutive(a, b, p, q),
        all_within(list, a.len() as int),
        filters.len() == list.len(),
        n <= list.len(),
        0 <= j < p + q,
    ensures
        j < p ==> power_sum(filters, list, joined(a, b), p + q, n, j) == power_sum(
            filters,
            list,
            a,
            p,
            n,
            j,
        ),
        j >= p ==> power_sum(filters, list, joined(a, b), p + q, n, j) == power_sum(
            filters_after(filters, list, a, p),
            list,
            b,
            q,
            n,
            j - p,
        ),
    decreases n,
{
    if n > 0 {
        lemma_power_sum(filters, list, a, b, p, q, n - 1, j);
        assert(list[n - 1] < a.len());
        let ch = list[n - 1] as int;
        lemma_heard_whole(a, b, p, q, ch);
        if a[ch].len() > 0 {
            lemma_output_runs_on(filters[n - 1], a[ch], b[ch], j);
        }
    }
}

pub proof fn lemma_power(
    filters: Seq<Biquad>,
    list: Seq<usize>,
    a: Seq<Seq<PrcFmt>>,
    b: Seq<Seq<PrcFmt>>,
    p: int,
    q: int,
)
    requires
        consecutive(a, b, p, q),
        all_within(list, a.len() as int),
        filters.len() == list.len(),
    ensures
        power_of(filters, list, joined(a, b), p + q) == power_of(filters, list, a, p) + power_of(
            filters_after(filters, list, a, p),
            list,
            b,
            q,
        ),
        filters_after(filters, list, joined(a, b), p + q) == filters_after(
            filters_after(filters, list, a, p),
            list,
            b,
            q,
        ),
{
    let n = list.len() as int;
    let whole_power = power_of(filters, list, joined(a, b), p + q);
    let after = filters_after(filters, list, a, p);
    let parts = power_of(filters, list, a, p) + power_of(after, list, b, q);
    lemma_carrying(list, a, b, p, q, n);
    assert forall|j: int| 0 <= j < p + q implies whole_power[j] == parts[j] by {
        lemma_power_sum(filters, list, a, b, p, q, n, j);
    }
    assert(whole_power =~= parts);
    let whole_filters = filters_after(filters, list, joined(a, b), p + q);
    let part_filters = filters_after(after, list, b, q);
    assert forall|i: int| 0 <= i < n implies whole_filters[i] == part_filters[i] by {
        assert(list[i] < a.len());
        let ch = list[i] as int;
        lemma_heard_whole(a, b, p, q, ch);
        lemma_filtered_runs_on(filters[i], a[ch], b[ch]);
    }
    assert(whole_filters =~= part_filters);
}

proof fn lemma_mix_sum(
    list: Seq<usize>,
    a: Seq<Seq<PrcFmt>>,
    b: Seq<Seq<PrcFmt>>,
    p: int,
    q: int,
    n: int,
    j: int,
)
    requires
        consecutive(a, b, p, q),
        all_within(list, a.len() as int),
        n <= list.len(),
        0 <= j < p + q,
    ensures
        j < p ==> mix_sum(list, joined(a, b), n, j) == mix_sum(list, a, n, j),
        j >= p ==> mix_sum(list, joined(a, b), n, j) == mix_sum(list, b, n, j - p),
    decreases n,
{
    if n > 0 {
        lemma_mix_sum(list, a, b, p, q, n - 1, j);
        assert(list[n - 1] < a.len());
        assert(a[list[n - 1] as int].len() >= 0);
    }
}

proof fn lemma_mix(list: Seq<usize>, a: Seq<Seq<PrcFmt>>, b: Seq<Seq<PrcFmt>>, p: int, q: int)
    requires
        consecutive(a, b, p, q),
        all_within(list, a.len() as int),
    ensures
        mix_of(list, joined(a, b), p + q) == mix_of(list, a, p) + mix_of(list, b, q),
{
    let n = list.len() as int;
    lemma_carrying(list, a, b, p, q, n);
    let whole_mix = mix_of(list, joined(a, b), p + q);
    let parts = mix_of(list, a, p) + mix_of(list, b, q);
    assert forall|j: int| 0 <= j < p + q implies whole_mix[j] == parts[j] by {
        lemma_mix_sum(list, a, b, p, q, n, j);
    }
    assert(whole_mix =~= parts);
}

/// What the detector takes from two chunks is what it takes from the one that they make.
proof fn lemma_sides(
    dialogue: Option<Seq<usize>>,
    a: Seq<Seq<PrcFmt>>,
    b: Seq<Seq<PrcFmt>>,
    p: int,
    q: int,
)
    requires
        consecutive(a, b, p, q),
        dialogue matches Some(list) ==> all_within(list, a.len() as int),
        dialogue is None ==> a.len() >= 2,
    ensures
        detectable(dialogue, joined(a, b)) == detectable(dialogue, a),
        detectable(dialogue, b) == detectable(dialogue, a),
        detectable(dialogue, a) ==> {
            &&& left_of(dialogue, joined(a, b), p + q) == left_of(dialogue, a, p) + left_of(
                dialogue,
                b,
                q,
            )
            &&& right_of(dialogue, joined(a, b), p + q) == right_of(dialogue, a, p) + right_of(
                dialogue,
                b,
                q,
            )
            &&& mid_of(dialogue, joined(a, b), p + q) == mid_of(dialogue, a, p) + mid_of(
                dialogue,
                b,
                q,
            )
        },
{
    match dialogue {
        Some(list) => {
            lemma_mix(list, a, b, p, q);
            assert(mid_of(dialogue, joined(a, b), p + q) =~= mid_of(dialogue, a, p) + mid_of(
                dialogue,
                b,
                q,
            ));
        },
        None => {
            assert(a[0].len() >= 0 && a[1].len() >= 0);
            if detectable(dialogue, a) {
                assert(left_of(dialogue, joined(a, b), p + q) =~= left_of(dialogue, a, p)
                    + left_of(dialogue, b, q));
                assert(right_of(dialogue, joined(a, b), p + q) =~= right_of(dialogue, a, p)
                    + right_of(dialogue, b, q));
                assert(mid_of(dialogue, joined(a, b), p + q) =~= mid_of(dialogue, a, p) + mid_of(
                    dialogue,
                    b,
                    q,
                ));
            }
        },
    }
}

/// Hops run on from frame to frame, however the frames are grouped.
pub proof fn law_hops_run_on(
    l: Listener,
    x: Seq<Frame>,
    y: Seq<Frame>,
    n: int,
    s: Settings,
    u: Setup,
)
    requires
        0 <= n <= x.len() + y.len(),
    ensures
        n <= x.len() ==> l.after_frames(x + y, n, s, u) == l.after_frames(x, n, s, u),
        n >= x.len() ==> l.after_frames(x + y, n, s, u) == l.after_frames(
            x,
            x.len() as int,
            s,
            u,
        ).after_frames(y, n - x.len(), s, u),
    decreases n,
{
    if n > 0 {
        law_hops_run_on(l, x, y, n - 1, s, u);
        if n <= x.len() {
            assert((x + y)[n - 1] == x[n - 1]);
        } else {
            assert((x + y)[n - 1] == y[n - 1 - x.len()]);
        }
    }
}

/// Whether a chunk has the channels that the processor listens to.
pub open spec fn listens_within(m: Model, channels: int) -> bool {
    &&& all_within(m.settings.monitor_channels, channels)
    &&& m.settings.dialogue_channels matches Some(list) ==> all_within(list, channels)
    &&& m.settings.dialogue_channels is None ==> channels >= 2
}

/// One side of the detector, over two chunks and over the one that they make.
proof fn lemma_speech(
    m: Model,
    a: Seq<Seq<PrcFmt>>,
    b: Seq<Seq<PrcFmt>>,
    p: int,
    q: int,
    right: bool,
)
    requires
        m.wf(),
        consecutive(a, b, p, q),
        listens_within(m, a.len() as int),
    ensures
        ({
            let ab = joined(a, b);
            let first = m.measured(a, p);
            let i: int = if right {
                1
            } else {
                0
            };
            &&& m.speech(ab, p + q, right) == m.speech(a, p, right) + first.speech(b, q, right)
            &&& m.speech(a, p, right).len() == p
            &&& first.speech(b, q, right).len() == q
            &&& m.detects(a) ==> {
                &&& m.bank.speech_highpass[i].after_all(m.side(ab, p + q, right))
                    == first.bank.speech_highpass[i].after_all(first.side(b, q, right))
                &&& m.bank.speech_lowpass[i].after_all(m.above_low(ab, p + q, right))
                    == first.bank.speech_lowpass[i].after_all(first.above_low(b, q, right))
            }
        }),
{
    let first = m.measured(a, p);
    let i: int = if right {
        1
    } else {
        0
    };
    lemma_sides(m.settings.dialogue_channels, a, b, p, q);
    let high = m.bank.speech_highpass[i];
    let low = m.bank.speech_lowpass[i];
    if m.detects(a) {
        let x = m.side(a, p, right);
        let y = m.side(b, q, right);
        if m.settings.dialogue_channels is None {
            assert(a[0].len() == p && a[1].len() == p);
            assert(b[0].len() == q && b[1].len() == q);
        }
        assert(x.len() == p && y.len() == q);
        assert(first.bank.speech_highpass[i] == high.after_all(x));
        assert(first.bank.speech_lowpass[i] == low.after_all(high.filtered(x)));
        lemma_filtered_runs_on(high, x, y);
        lemma_filtered_runs_on(low, high.filtered(x), high.after_all(x).filtered(y));
    } else {
        assert(silence(p + q) =~= silence(p) + silence(q));
    }
}

/// The sidechain signals of two chunks are those of the one that they make.
pub proof fn lemma_sidechain(m: Model, a: Seq<Seq<PrcFmt>>, b: Seq<Seq<PrcFmt>>, p: int, q: int)
    requires
        m.wf(),
        consecutive(a, b, p, q),
        listens_within(m, a.len() as int),
    ensures
        m.sidechain(joined(a, b), p + q) == m.sidechain(a, p) + m.measured(a, p).sidechain(b, q),
{
    let ab = joined(a, b);
    let first = m.measured(a, p);
    lemma_power(m.bank.sidechain_highpass, m.settings.monitor_channels, a, b, p, q);
    lemma_sides(m.settings.dialogue_channels, a, b, p, q);
    lemma_speech(m, a, b, p, q, false);
    lemma_speech(m, a, b, p, q, true);
    let whole_power = m.power(ab, p + q);
    let (power_a, power_b) = (m.power(a, p), first.power(b, q));
    assert(whole_power == power_a + power_b);
    let whole_mid = m.mid(ab, p + q);
    let (mid_a, mid_b) = (m.mid(a, p), first.mid(b, q));
    assert(whole_mid =~= mid_a + mid_b);
    let (left_a, left_b) = (m.speech(a, p, false), first.speech(b, q, false));
    let (right_a, right_b) = (m.speech(a, p, true), first.speech(b, q, true));
    let parts = m.sidechain(a, p) + first.sidechain(b, q);
    assert forall|j: int| 0 <= j < p + q implies m.sidechain(ab, p + q)[j] == parts[j] by {
        assert((power_a + power_b)[j] == if j < p {
            power_a[j]
        } else {
            power_b[j - p]
        });
        assert((mid_a + mid_b)[j] == if j < p {
            mid_a[j]
        } else {
            mid_b[j - p]
        });
        assert((left_a + left_b)[j] == if j < p {
            left_a[j]
        } else {
            left_b[j - p]
        });
        assert((right_a + right_b)[j] == if j < p {
            right_a[j]
        } else {
            right_b[j - p]
        });
    }
    assert(m.sidechain(ab, p + q) =~= parts);
}

/// What the processor learns, and the state of all sidechain filters, does not depend on how
/// the audio is cut into chunks.
pub proof fn law_hearing_is_independent_of_chunks(
    m: Model,
    a: Seq<Seq<PrcFmt>>,
    b: Seq<Seq<PrcFmt>>,
    p: int,
    q: int,
)
    requires
        m.wf(),
        consecutive(a, b, p, q),
        listens_within(m, a.len() as int),
    ensures
        m.measured(joined(a, b), p + q) == m.measured(a, p).measured(b, q),
{
    let ab = joined(a, b);
    let first = m.measured(a, p);
    lemma_sidechain(m, a, b, p, q);
    law_hops_run_on(
        m.listener,
        m.sidechain(a, p),
        first.sidechain(b, q),
        p + q,
        m.settings,
        m.setup,
    );
    lemma_power(m.bank.sidechain_highpass, m.settings.monitor_channels, a, b, p, q);
    lemma_sides(m.settings.dialogue_channels, a, b, p, q);
    lemma_speech(m, a, b, p, q, false);
    lemma_speech(m, a, b, p, q, true);
    let together = m.measured(ab, p + q);
    let apart = first.measured(b, q);
    assert(together.bank.sidechain_highpass == apart.bank.sidechain_highpass);
    assert(together.bank.speech_highpass =~= apart.bank.speech_highpass);
    assert(together.bank.speech_lowpass =~= apart.bank.speech_lowpass);
    assert(together.bank =~= apart.bank);
    assert(together.listener == apart.listener);
}

pub proof fn lemma_first_length(
    list: Seq<usize>,
    a: Seq<Seq<PrcFmt>>,
    b: Seq<Seq<PrcFmt>>,
    p: int,
    q: int,
    n: int,
)
    requires
        consecutive(a, b, p, q),
        all_within(list, a.len() as int),
        0 <= n,
    ensures
        first_length(list, a, n) == None::<int> || first_length(list, a, n) == Some(p),
        first_length(list, b, n) == (if first_length(list, a, n) is None {
            None
        } else {
            Some(q)
        }),
        first_length(list, joined(a, b), n) == (if first_length(list, a, n) is None {
            None
        } else {
            Some(p + q)
        }),
    decreases list.len() - n,
{
    if n < list.len() {
        assert(list[n] < a.len());
        assert(a[list[n] as int].len() >= 0);
        lemma_first_length(list, a, b, p, q, n + 1);
    }
}

/// A chunk teaches what is measured of it, and nothing else.
pub proof fn lemma_chunk_is_measured(m: Model, waves: Seq<Seq<PrcFmt>>, frames: int)
    requires
        m.active_frames(waves) == Some(frames),
    ensures
        m.after_chunk(waves).listener == m.measured(waves, frames).listener,
        m.after_chunk(waves).settings == m.settings,
        m.after_chunk(waves).setup == m.setup,
        m.after_chunk(waves).bank.sidechain_highpass == m.measured(
            waves,
            frames,
        ).bank.sidechain_highpass,
        m.after_chunk(waves).bank.speech_highpass == m.measured(
            waves,
            frames,
        ).bank.speech_highpass,
        m.after_chunk(waves).bank.speech_lowpass == m.measured(waves, frames).bank.speech_lowpass,
{
}

/// Two processors that listen alike hear alike.
pub proof fn lemma_measuring_alike(m: Model, k: Model, waves: Seq<Seq<PrcFmt>>, frames: int)
    requires
        m.setup == k.setup,
        hear_alike(m.settings, k.settings),
        m.listener == k.listener,
        m.bank.sidechain_highpass == k.bank.sidechain_highpass,
        m.bank.speech_highpass == k.bank.speech_highpass,
        m.bank.speech_lowpass == k.bank.speech_lowpass,
    ensures
        m.power(waves, frames) == k.power(waves, frames),
        m.sidechain(waves, frames) == k.sidechain(waves, frames),
        m.measured(waves, frames).listener == k.measured(waves, frames).listener,
        m.measured(waves, frames).bank.sidechain_highpass == k.measured(
            waves,
            frames,
        ).bank.sidechain_highpass,
        m.measured(waves, frames).bank.speech_highpass == k.measured(
            waves,
            frames,
        ).bank.speech_highpass,
        m.measured(waves, frames).bank.speech_lowpass == k.measured(
            waves,
            frames,
        ).bank.speech_lowpass,
{
    assert(m.mid(waves, frames) == k.mid(waves, frames));
    assert(m.speech(waves, frames, false) == k.speech(waves, frames, false));
    assert(m.speech(waves, frames, true) == k.speech(waves, frames, true));
    assert(m.sidechain(waves, frames) =~= k.sidechain(waves, frames));
    let side = m.sidechain(waves, frames);
    lemma_listening_alike(m.listener, side, side.len() as int, m.settings, k.settings, m.setup);
}

/// Whether two settings agree in all that hearing depends on.
pub open spec fn hear_alike(s: Settings, t: Settings) -> bool {
    &&& s.monitor_channels == t.monitor_channels
    &&& s.dialogue_channels == t.dialogue_channels
    &&& s.detecting() == t.detecting()
    &&& s.detecting() ==> {
        &&& s.modulation_weight == t.modulation_weight
        &&& s.silence_threshold == t.silence_threshold
        &&& s.reference_pinned == t.reference_pinned
        &&& s.reference_step == t.reference_step
    }
}

/// Whether two settings agree in all that the slow stage depends on.
pub open spec fn follow_alike(s: Settings, t: Settings) -> bool {
    &&& s.headroom == t.headroom
    &&& s.ratio == t.ratio
    &&& s.slow_attack == t.slow_attack
    &&& s.slow_release == t.slow_release
    &&& s.scene_release == t.scene_release
    &&& s.level_smooth == t.level_smooth
}

proof fn lemma_listening_alike(
    l: Listener,
    frames: Seq<Frame>,
    n: int,
    s: Settings,
    t: Settings,
    u: Setup,
)
    requires
        hear_alike(s, t),
    ensures
        l.after_frames(frames, n, s, u) == l.after_frames(frames, n, t, u),
    decreases n,
{
    if n > 0 {
        lemma_listening_alike(l, frames, n - 1, s, t, u);
    }
}

/// Two settings that the slow stage does not tell apart make the same followers.
pub proof fn lemma_following_alike(
    f: Followers,
    power: Seq<PrcFmt>,
    n: int,
    s: Settings,
    t: Settings,
    u: Setup,
    g: Guide,
)
    requires
        follow_alike(s, t),
    ensures
        f.after_frames(power, n, s, u, g) == f.after_frames(power, n, t, u, g),
    decreases n,
{
    if n > 0 {
        lemma_following_alike(f, power, n - 1, s, t, u, g);
    }
}

/// What a processor has learned: all of its state that a chunk is heard with.
#[verifier::ext_equal]
pub struct Learned {
    pub listener: Listener,
    pub sidechain_highpass: Seq<Biquad>,
    pub speech_highpass: Seq<Biquad>,
    pub speech_lowpass: Seq<Biquad>,
}

pub open spec fn learned(m: Model) -> Learned {
    Learned {
        listener: m.listener,
        sidechain_highpass: m.bank.sidechain_highpass,
        speech_highpass: m.bank.speech_highpass,
        speech_lowpass: m.bank.speech_lowpass,
    }
}

/// What is learned from a chunk, given what was known.
pub proof fn lemma_next_learned(m: Model, k: Model, waves: Seq<Seq<PrcFmt>>, frames: int)
    requires
        m.setup == k.setup,
        m.settings == k.settings,
        learned(m) == learned(k),
        m.active_frames(waves) == Some(frames),
    ensures
        learned(m.after_chunk(waves)) == learned(k.measured(waves, frames)),
        m.after_chunk(waves).settings == m.settings,
        m.after_chunk(waves).setup == m.setup,
{
    lemma_chunk_is_measured(m, waves, frames);
    lemma_measuring_alike(m, k, waves, frames);
}

/// Hearing changes neither settings nor setup.
pub proof fn lemma_measured_keeps_settings(m: Model, waves: Seq<Seq<PrcFmt>>, frames: int)
    ensures
        m.measured(waves, frames).settings == m.settings,
        m.measured(waves, frames).setup == m.setup,
{
}

/// What a chunk teaches the processor does not depend on whether it comes in one piece or
/// in two.
#[verifier::rlimit(30)]
pub proof fn law_learning_is_independent_of_chunks(
    m: Model,
    a: Seq<Seq<PrcFmt>>,
    b: Seq<Seq<PrcFmt>>,
    p: int,
    q: int,
)
    requires
        m.wf(),
        consecutive(a, b, p, q),
        listens_within(m, a.len() as int),
        p + q <= m.setup.chunksize,
    ensures
        learned(m.after_chunk(joined(a, b))) == learned(m.after_chunk(a).after_chunk(b)),
{
    let list = m.settings.monitor_channels;
    lemma_first_length(list, a, b, p, q, 0);
    if first_length(list, a, 0) is Some {
        let then = m.after_chunk(a);
        let first = m.measured(a, p);
        lemma_next_learned(m, m, joined(a, b), p + q);
        lemma_next_learned(m, m, a, p);
        lemma_measured_keeps_settings(m, a, p);
        assert(then.active_frames(b) == Some(q));
        lemma_next_learned(then, first, b, q);
        law_hearing_is_independent_of_chunks(m, a, b, p, q);
    }
}

/// The part of the followers that is measured: both envelopes and the smoothed confidence.
pub struct Measures {
    pub env_slow_power: PrcFmt,
    pub env_fast_power: PrcFmt,
    pub conf_smooth: PrcFmt,
}

pub open spec fn measures(f: Followers) -> Measures {
    Measures {
        env_slow_power: f.env_slow_power,
        env_fast_power: f.env_fast_power,
        conf_smooth: f.conf_smooth,
    }
}

proof fn lemma_measures_alike(
    f: Followers,
    power: Seq<PrcFmt>,
    n: int,
    s: Settings,
    t: Settings,
    u: Setup,
    g: Guide,
)
    requires
        s.level_smooth == t.level_smooth,
    ensures
        measures(f.after_frames(power, n, s, u, g)) == measures(f.after_frames(power, n, t, u, g)),
    decreases n,
{
    if n > 0 {
        lemma_measures_alike(f, power, n - 1, s, t, u, g);
    }
}

/// The sidechain is feedforward: what is learned, both envelopes and the smoothed confidence
/// depend on the settings of the listening alone. Those of the slow stage besides decide all
/// that is followed. Amount, cap, shelf, lift, ceiling, softening, the strength of the
/// protection and the choice of processed channels change nothing.
pub proof fn law_sidechain_is_feedforward(m: Model, t: Settings, waves: Seq<Seq<PrcFmt>>)
    requires
        hear_alike(m.settings, t),
        m.settings.level_smooth == t.level_smooth,
    ensures
        ({
            let k = Model { settings: t, ..m };
            &&& learned(m.after_chunk(waves)) == learned(k.after_chunk(waves))
            &&& measures(m.after_chunk(waves).followers) == measures(
                k.after_chunk(waves).followers,
            )
            &&& follow_alike(m.settings, t) ==> m.after_chunk(waves).followers == k.after_chunk(
                waves,
            ).followers
        }),
{
    let k = Model { settings: t, ..m };
    if let Some(frames) = m.active_frames(waves) {
        assert(k.active_frames(waves) == Some(frames));
        lemma_measuring_alike(m, k, waves, frames);
        lemma_chunk_is_measured(m, waves, frames);
        lemma_chunk_is_measured(k, waves, frames);
        let power = m.power(waves, frames);
        let n = power.len() as int;
        let g = m.measured(waves, frames).guide();
        lemma_measures_alike(m.followers, power, n, m.settings, t, m.setup, g);
        if follow_alike(m.settings, t) {
            lemma_following_alike(m.followers, power, n, m.settings, t, m.setup, g);
        }
    }
}

/// In every frame of every chunk, confidence only takes reduction away: the gain is never
/// below that without dialogue protection, at the reference that the chunk is heard against.
pub proof fn law_chunk_confidence_only_spares(
    m: Model,
    waves: Seq<Seq<PrcFmt>>,
    frames: int,
    j: int,
)
    requires
        m.healthy(),
        0 <= j < frames,
    ensures
        m.chunk_works(waves, frames)[j].gain >= m.followers.works(
            m.power(waves, frames),
            Settings { dialogue_protection: 0, ..m.settings },
            m.setup,
            m.measured(waves, frames).guide(),
        )[j].gain,
{
    let s = m.settings;
    let t = Settings { dialogue_protection: 0, ..s };
    let g = m.measured(waves, frames).guide();
    let power = m.power(waves, frames);
    let side = m.sidechain(waves, frames);
    law_frames_keep_health(m.listener, side, side.len() as int, s, m.setup);
    law_frames_keep_followers(m.followers, power, j + 1, s, m.setup, g);
    lemma_following_alike(m.followers, power, j + 1, s, t, m.setup, g);
    law_confidence_only_spares(
        m.followers.after_frames(power, j + 1, s, m.setup, g),
        s,
        g.reference_db,
    );
}

/// Whether two settings agree in all but the weight of the modulation.
pub open spec fn same_but_weight(s: Settings, t: Settings) -> bool {
    t == (Settings { modulation_weight: t.modulation_weight, ..s })
}

proof fn lemma_works_alike(
    f: Followers,
    power: Seq<PrcFmt>,
    s: Settings,
    t: Settings,
    u: Setup,
    g: Guide,
)
    requires
        same_but_weight(s, t),
    ensures
        f.works(power, s, u, g) == f.works(power, t, u, g),
{
    assert forall|j: int| 0 <= j < power.len() implies #[trigger] f.works(power, s, u, g)[j]
        == f.works(power, t, u, g)[j] by {
        lemma_following_alike(f, power, j + 1, s, t, u, g);
    }
    assert(f.works(power, s, u, g) =~= f.works(power, t, u, g));
}

proof fn lemma_output_alike(o: Output, n: int, works: Seq<Work>, s: Settings, t: Settings)
    requires
        same_but_weight(s, t),
    ensures
        o.after_channels(n, works, s) == o.after_channels(n, works, t),
    decreases n,
{
    if n > 0 {
        lemma_output_alike(o, n - 1, works, s, t);
    }
}

/// The parts of a chunk's work, put together.
proof fn lemma_applied_alike(m: Model, k: Model, waves: Seq<Seq<PrcFmt>>, frames: int)
    requires
        k == (Model { settings: k.settings, ..m }),
        same_but_weight(m.settings, k.settings),
        m.active_frames(waves) == Some(frames),
        k.active_frames(waves) == Some(frames),
        m.measured(waves, frames).listener == k.measured(waves, frames).listener,
        m.measured(waves, frames).bank == k.measured(waves, frames).bank,
        m.measured(waves, frames).with_gain(m.power(waves, frames)).followers == k.measured(
            waves,
            frames,
        ).with_gain(k.power(waves, frames)).followers,
        m.chunk_works(waves, frames) == k.chunk_works(waves, frames),
        m.output(waves, m.chunk_works(waves, frames)) == k.output(
            waves,
            m.chunk_works(waves, frames),
        ),
    ensures
        k.processed(waves) == m.processed(waves),
        k.after_chunk(waves) == (Model { settings: k.settings, ..m.after_chunk(waves) }),
{
}

/// With dialogue protection off the detector is off and a plain leveler is left: how much the
/// modulation would count changes neither the audio nor the state.
pub proof fn law_detector_off_is_a_plain_leveler(m: Model, t: Settings, waves: Seq<Seq<PrcFmt>>)
    requires
        m.settings.dialogue_protection == 0,
        t == (Settings { modulation_weight: t.modulation_weight, ..m.settings }),
    ensures
        (Model { settings: t, ..m }).processed(waves) == m.processed(waves),
        (Model { settings: t, ..m }).after_chunk(waves) == (Model {
            settings: t,
            ..m.after_chunk(waves)
        }),
{
    let k = Model { settings: t, ..m };
    if let Some(frames) = m.active_frames(waves) {
        assert(k.active_frames(waves) == Some(frames));
        lemma_measuring_alike(m, k, waves, frames);
        lemma_measured_keeps_settings(m, waves, frames);
        lemma_measured_keeps_settings(k, waves, frames);
        let power = m.power(waves, frames);
        let g = m.measured(waves, frames).guide();
        assert(g == k.measured(waves, frames).guide());
        lemma_following_alike(m.followers, power, power.len() as int, m.settings, t, m.setup, g);
        lemma_works_alike(m.followers, power, m.settings, t, m.setup, g);
        let works = m.chunk_works(waves, frames);
        assert(k.chunk_works(waves, frames) == works);
        let o = Output {
            waves,
            lowpass: m.bank.bass_lowpass,
            bandpass: m.bank.presence_bandpass,
            clipped: false,
        };
        lemma_output_alike(o, m.settings.process_channels.len() as int, works, m.settings, t);
        lemma_applied_alike(m, k, waves, frames);
    }
}

} // verus!
