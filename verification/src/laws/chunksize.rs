//! What is learned does not depend on the size of the chunks.
use crate::fixed::PrcFmt;
use crate::hops::{Frame, Listener};
use crate::laws::chunks::{
    consecutive, joined, law_hearing_is_independent_of_chunks, learned,
    lemma_measured_keeps_settings, lemma_next_learned, listens_within,
};
use crate::laws::lifecycle::{lemma_first_length_is, lemma_nothing_to_hear};
use crate::model::Model;
use crate::settings::{Settings, Setup};
use crate::sidechain::first_length;
use vstd::prelude::*;

verus! {

/// After the first `n` of some chunks.
pub open spec fn fed(m: Model, chunks: Seq<Seq<Seq<PrcFmt>>>, n: int) -> Model
    decreases n,
{
    if n <= 0 {
        m
    } else {
        fed(m, chunks, n - 1).after_chunk(chunks[n - 1])
    }
}

/// The first `n` of some chunks as one.
pub open spec fn spliced(chunks: Seq<Seq<Seq<PrcFmt>>>, n: int) -> Seq<Seq<PrcFmt>>
    decreases n,
{
    if n <= 1 {
        chunks[0]
    } else {
        joined(spliced(chunks, n - 1), chunks[n - 1])
    }
}

/// The frames of the first `n` of some chunks.
pub open spec fn total(lengths: Seq<int>, n: int) -> int
    decreases n,
{
    if n <= 1 {
        lengths[0]
    } else {
        total(lengths, n - 1) + lengths[n - 1]
    }
}

/// Whether a chunk has `length` frames in each channel that is used, and none in the others.
pub open spec fn filled(waves: Seq<Seq<PrcFmt>>, used: Seq<bool>, length: int) -> bool {
    &&& waves.len() == used.len()
    &&& forall|ch: int|
        0 <= ch < used.len() ==> (#[trigger] waves[ch]).len() == (if used[ch] {
            length
        } else {
            0
        })
}

/// Whether some chunks, of at most `chunksize` frames each, carry the same channels.
pub open spec fn stream(
    chunks: Seq<Seq<Seq<PrcFmt>>>,
    used: Seq<bool>,
    lengths: Seq<int>,
    chunksize: int,
) -> bool {
    &&& chunks.len() > 0
    &&& lengths.len() == chunks.len()
    &&& forall|k: int|
        0 <= k < chunks.len() ==> filled(#[trigger] chunks[k], used, lengths[k]) && 0 < lengths[k]
            <= chunksize
}

pub proof fn lemma_spliced(
    chunks: Seq<Seq<Seq<PrcFmt>>>,
    used: Seq<bool>,
    lengths: Seq<int>,
    chunksize: int,
    n: int,
)
    requires
        stream(chunks, used, lengths, chunksize),
        1 <= n <= chunks.len(),
    ensures
        filled(spliced(chunks, n), used, total(lengths, n)),
        total(lengths, n) > 0,
        n < chunks.len() ==> consecutive(
            spliced(chunks, n),
            chunks[n],
            total(lengths, n),
            lengths[n],
        ),
    decreases n,
{
    assert(filled(chunks[n - 1], used, lengths[n - 1]));
    if n > 1 {
        lemma_spliced(chunks, used, lengths, chunksize, n - 1);
        let (a, b) = (spliced(chunks, n - 1), chunks[n - 1]);
        assert forall|ch: int| 0 <= ch < used.len() implies (#[trigger] joined(a, b)[ch]).len()
            == (if used[ch] {
            total(lengths, n)
        } else {
            0
        }) by {
            assert(a[ch].len() + b[ch].len() == joined(a, b)[ch].len());
        }
    }
    if n < chunks.len() {
        assert(filled(chunks[n], used, lengths[n]));
        let (a, b) = (spliced(chunks, n), chunks[n]);
        assert forall|ch: int| 0 <= ch < a.len() implies {
            ||| (#[trigger] a[ch]).len() == total(lengths, n) && b[ch].len() == lengths[n]
            ||| a[ch].len() == 0 && b[ch].len() == 0
        } by {
            assert(b[ch].len() >= 0);
        }
    }
}

/// Whether a monitored channel is used.
pub open spec fn hears(m: Model, used: Seq<bool>) -> bool {
    exists|i: int|
        0 <= i < m.settings.monitor_channels.len() && used[
            #[trigger] m.settings.monitor_channels[i] as int]
}

pub proof fn lemma_frames_of(m: Model, waves: Seq<Seq<PrcFmt>>, used: Seq<bool>, length: int)
    requires
        filled(waves, used, length),
        listens_within(m, used.len() as int),
        0 < length <= m.setup.chunksize,
    ensures
        m.active_frames(waves) == (if hears(m, used) {
            Some(length)
        } else {
            None
        }),
{
    let list = m.settings.monitor_channels;
    lemma_nothing_to_hear(list, waves, 0);
    lemma_first_length_is(list, waves, 0, length);
    if hears(m, used) {
        let i = choose|i: int| 0 <= i < list.len() && used[#[trigger] list[i] as int];
        assert(list[i] < used.len());
        assert(waves[list[i] as int].len() == length);
        assert(first_length(list, waves, 0) is Some);
    } else {
        assert forall|i: int| 0 <= i < list.len() implies waves[#[trigger] list[i] as int].len()
            == 0 by {
            assert(list[i] < used.len());
            assert(!used[list[i] as int]);
        }
    }
}

/// Some chunks teach what they teach as one.
pub proof fn lemma_fed(
    m: Model,
    chunks: Seq<Seq<Seq<PrcFmt>>>,
    used: Seq<bool>,
    lengths: Seq<int>,
    n: int,
)
    requires
        m.wf(),
        stream(chunks, used, lengths, m.setup.chunksize),
        listens_within(m, used.len() as int),
        1 <= n <= chunks.len(),
    ensures
        fed(m, chunks, n).settings == m.settings,
        fed(m, chunks, n).setup == m.setup,
        learned(fed(m, chunks, n)) == learned(
            if hears(m, used) {
                m.measured(spliced(chunks, n), total(lengths, n))
            } else {
                m
            },
        ),
    decreases n,
{
    let last = chunks[n - 1];
    let length = lengths[n - 1];
    assert(filled(last, used, length) && 0 < length <= m.setup.chunksize);
    if n == 1 {
        assert(fed(m, chunks, 0) == m);
        lemma_frames_of(m, last, used, length);
        if hears(m, used) {
            lemma_next_learned(m, m, last, length);
        }
    } else {
        lemma_fed(m, chunks, used, lengths, n - 1);
        let before = fed(m, chunks, n - 1);
        lemma_frames_of(before, last, used, length);
        assert(hears(before, used) == hears(m, used));
        if hears(m, used) {
            let (whole, frames) = (spliced(chunks, n - 1), total(lengths, n - 1));
            let heard = m.measured(whole, frames);
            lemma_measured_keeps_settings(m, whole, frames);
            lemma_next_learned(before, heard, last, length);
            lemma_spliced(chunks, used, lengths, m.setup.chunksize, n - 1);
            law_hearing_is_independent_of_chunks(m, whole, last, frames, length);
        }
    }
}

/// The size of the scratch has no influence on what hops tell.
pub proof fn lemma_listening_at_any_size(
    l: Listener,
    frames: Seq<Frame>,
    n: int,
    s: Settings,
    u: Setup,
    v: Setup,
)
    requires
        v == (Setup { chunksize: v.chunksize, ..u }),
    ensures
        l.after_frames(frames, n, s, u) == l.after_frames(frames, n, s, v),
    decreases n,
{
    if n > 0 {
        lemma_listening_at_any_size(l, frames, n - 1, s, u, v);
    }
}

pub proof fn lemma_measured_at_any_size(m: Model, k: Model, waves: Seq<Seq<PrcFmt>>, frames: int)
    requires
        k == (Model { setup: Setup { chunksize: k.setup.chunksize, ..m.setup }, ..m }),
    ensures
        m.power(waves, frames) == k.power(waves, frames),
        m.sidechain(waves, frames) == k.sidechain(waves, frames),
        learned(m.measured(waves, frames)) == learned(k.measured(waves, frames)),
{
    assert(m.mid(waves, frames) == k.mid(waves, frames));
    assert(m.speech(waves, frames, false) == k.speech(waves, frames, false));
    assert(m.speech(waves, frames, true) == k.speech(waves, frames, true));
    assert(m.sidechain(waves, frames) =~= k.sidechain(waves, frames));
    let side = m.sidechain(waves, frames);
    lemma_listening_at_any_size(
        m.listener,
        side,
        side.len() as int,
        m.settings,
        m.setup,
        k.setup,
    );
}

/// The same audio, cut into any chunks and heard by processors that differ only in the size of
/// a chunk, teaches them the same: hops, levels, confidence, reference and all filters of the
/// sidechain end up equal.
pub proof fn law_learning_is_independent_of_chunksize(
    m: Model,
    k: Model,
    chunks: Seq<Seq<Seq<PrcFmt>>>,
    lengths: Seq<int>,
    others: Seq<Seq<Seq<PrcFmt>>>,
    other_lengths: Seq<int>,
    used: Seq<bool>,
)
    requires
        m.wf(),
        k.wf(),
        k == (Model { setup: Setup { chunksize: k.setup.chunksize, ..m.setup }, ..m }),
        listens_within(m, used.len() as int),
        stream(chunks, used, lengths, m.setup.chunksize),
        stream(others, used, other_lengths, k.setup.chunksize),
        spliced(chunks, chunks.len() as int) == spliced(others, others.len() as int),
        total(lengths, chunks.len() as int) == total(other_lengths, others.len() as int),
    ensures
        learned(fed(m, chunks, chunks.len() as int)) == learned(
            fed(k, others, others.len() as int),
        ),
{
    lemma_fed(m, chunks, used, lengths, chunks.len() as int);
    lemma_fed(k, others, used, other_lengths, others.len() as int);
    assert(hears(m, used) == hears(k, used));
    lemma_measured_at_any_size(
        m,
        k,
        spliced(chunks, chunks.len() as int),
        total(lengths, chunks.len() as int),
    );
}

} // verus!
