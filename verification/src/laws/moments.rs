//! What a stream of chunks is heard as, frame by frame.
//!
//! Every frame of a chunk is heard against what the last hop in that chunk has told. So two
//! cuttings of the same audio differ in nothing but how soon a hop is heeded, and by less than
//! the length of the longer chunk.
use crate::fixed::PrcFmt;
use crate::gain::{Followers, Guide, Work};
use crate::hops::Frame;
use crate::laws::chunks::{
    law_hops_run_on, learned, lemma_chunk_is_measured, lemma_measured_keeps_settings,
    lemma_measuring_alike, lemma_power, lemma_sidechain, listens_within,
};
use crate::laws::chunksize::{
    fed, filled, hears, lemma_fed, lemma_frames_of, lemma_spliced, spliced, stream, total,
};
use crate::laws::cutting::followed;
use crate::laws::steady::lemma_chunk_follows;
use crate::model::Model;
use crate::settings::{Settings, Setup};
use vstd::prelude::*;

verus! {

/// A frame as it is heard: the followers after it, and what they are told.
pub struct Moment {
    pub followers: Followers,
    pub guide: Guide,
}

impl Moment {
    /// The reduction that is applied, in dB.
    pub open spec fn applied_db(self, s: Settings) -> PrcFmt {
        self.followers.applied_db(s, self.guide.reference_db)
    }

    /// What is done to the frame.
    pub open spec fn work(self, s: Settings) -> Work {
        self.followers.work(s, self.guide.reference_db)
    }
}

/// The frames of a chunk as they are heard.
pub open spec fn chunk_moments(m: Model, waves: Seq<Seq<PrcFmt>>, frames: int) -> Seq<Moment> {
    Seq::new(
        frames as nat,
        |j: int|
            Moment {
                followers: followed(m, waves, frames, j + 1),
                guide: m.measured(waves, frames).guide(),
            },
    )
}

/// The frames of the first `n` of some chunks as they are heard.
pub open spec fn moments(
    m: Model,
    chunks: Seq<Seq<Seq<PrcFmt>>>,
    lengths: Seq<int>,
    n: int,
) -> Seq<Moment>
    decreases n,
{
    if n <= 0 {
        Seq::empty()
    } else {
        moments(m, chunks, lengths, n - 1) + chunk_moments(
            fed(m, chunks, n - 1),
            chunks[n - 1],
            lengths[n - 1],
        )
    }
}

/// The work on a chunk is the work on its frames.
pub proof fn law_chunk_works_are_its_moments(m: Model, waves: Seq<Seq<PrcFmt>>, frames: int)
    requires
        frames >= 0,
    ensures
        m.chunk_works(waves, frames) == Seq::new(
            frames as nat,
            |j: int| chunk_moments(m, waves, frames)[j].work(m.settings),
        ),
{
    assert(m.chunk_works(waves, frames) =~= Seq::new(
        frames as nat,
        |j: int| chunk_moments(m, waves, frames)[j].work(m.settings),
    ));
}

/// The followers after the first `n` frames, starting from `f`.
pub open spec fn after_moments(f: Followers, ms: Seq<Moment>, n: int) -> Followers {
    if n <= 0 {
        f
    } else {
        ms[n - 1].followers
    }
}

/// Whether the followers of each frame go on where those of the frame before it left off.
pub open spec fn chained(
    f: Followers,
    ms: Seq<Moment>,
    power: Seq<PrcFmt>,
    s: Settings,
    u: Setup,
) -> bool {
    &&& ms.len() == power.len()
    &&& forall|i: int|
        0 <= i < ms.len() ==> (#[trigger] ms[i]).followers == after_moments(f, ms, i).after_frame(
            power[i],
            s,
            u,
            ms[i].guide,
        )
}

/// Chained frames, and a chunk after them.
proof fn lemma_chain(
    f: Followers,
    ms: Seq<Moment>,
    x: Seq<PrcFmt>,
    cs: Seq<Moment>,
    y: Seq<PrcFmt>,
    s: Settings,
    u: Setup,
    g: Guide,
)
    requires
        chained(f, ms, x, s, u),
        cs.len() == y.len(),
        forall|j: int|
            0 <= j < cs.len() ==> (#[trigger] cs[j]).guide == g && cs[j].followers
                == after_moments(f, ms, ms.len() as int).after_frames(y, j + 1, s, u, g),
    ensures
        chained(f, ms + cs, x + y, s, u),
        after_moments(f, ms + cs, (ms + cs).len() as int) == after_moments(
            f,
            ms,
            ms.len() as int,
        ).after_frames(y, y.len() as int, s, u, g),
{
    let k = after_moments(f, ms, ms.len() as int);
    assert forall|i: int| 0 <= i < (ms + cs).len() implies (#[trigger] (ms + cs)[i]).followers
        == after_moments(f, ms + cs, i).after_frame((x + y)[i], s, u, (ms + cs)[i].guide) by {
        if i < ms.len() {
            assert((ms + cs)[i] == ms[i]);
            assert(after_moments(f, ms + cs, i) == after_moments(f, ms, i));
            assert((x + y)[i] == x[i]);
        } else {
            let j = i - ms.len();
            assert((ms + cs)[i] == cs[j]);
            assert((x + y)[i] == y[j]);
            assert(k.after_frames(y, j + 1, s, u, g) == k.after_frames(y, j, s, u, g).after_frame(
                y[j],
                s,
                u,
                g,
            ));
            if j > 0 {
                assert((ms + cs)[i - 1] == cs[j - 1]);
            } else if i > 0 {
                assert((ms + cs)[i - 1] == ms[i - 1]);
            }
        }
    }
    let last = (ms + cs).len() - 1;
    if cs.len() > 0 {
        assert((ms + cs)[last] == cs[cs.len() - 1]);
    } else if ms.len() > 0 {
        assert((ms + cs)[last] == ms[ms.len() - 1]);
    }
}

/// The end of the chunk that frame `i` is in.
pub open spec fn end_of(lengths: Seq<int>, n: int, i: int) -> int
    decreases n,
{
    if n <= 1 || i >= total(lengths, n - 1) {
        total(lengths, n)
    } else {
        end_of(lengths, n - 1, i)
    }
}

/// What the first `end` frames of a sidechain tell.
pub open spec fn told(m: Model, side: Seq<Frame>, end: int) -> Guide {
    let estimate = m.listener.after_frames(side, end, m.settings, m.setup).estimate;
    Guide { reference_db: estimate.reference_db, confidence: estimate.confidence }
}

/// One more chunk: the power, the sidechain and what it is heard against.
proof fn lemma_next_chunk(
    m: Model,
    chunks: Seq<Seq<Seq<PrcFmt>>>,
    used: Seq<bool>,
    lengths: Seq<int>,
    n: int,
)
    requires
        m.wf(),
        stream(chunks, used, lengths, m.setup.chunksize),
        listens_within(m, used.len() as int),
        hears(m, used),
        1 <= n <= chunks.len(),
    ensures
        ({
            let before = fed(m, chunks, n - 1);
            let (last, len) = (chunks[n - 1], lengths[n - 1]);
            let (waves, frames) = (spliced(chunks, n), total(lengths, n));
            &&& 0 < len <= m.setup.chunksize
            &&& before.settings == m.settings
            &&& before.setup == m.setup
            &&& before.active_frames(last) == Some(len)
            &&& before.measured(last, len).guide() == told(m, m.sidechain(waves, frames), frames)
            &&& n == 1 ==> m.power(waves, frames) == before.power(last, len) && frames == len
            &&& n > 1 ==> m.power(waves, frames) == m.power(
                spliced(chunks, n - 1),
                total(lengths, n - 1),
            ) + before.power(last, len)
            &&& n > 1 ==> frames == total(lengths, n - 1) + len
            &&& n > 1 ==> m.sidechain(waves, frames) == m.sidechain(
                spliced(chunks, n - 1),
                total(lengths, n - 1),
            ) + before.sidechain(last, len)
        }),
{
    let before = fed(m, chunks, n - 1);
    let (last, len) = (chunks[n - 1], lengths[n - 1]);
    let (waves, frames) = (spliced(chunks, n), total(lengths, n));
    assert(filled(last, used, len));
    lemma_fed(m, chunks, used, lengths, n);
    if n > 1 {
        lemma_fed(m, chunks, used, lengths, n - 1);
        let (first, p) = (spliced(chunks, n - 1), total(lengths, n - 1));
        let heard_first = m.measured(first, p);
        lemma_spliced(chunks, used, lengths, m.setup.chunksize, n - 1);
        lemma_sidechain(m, first, last, p, len);
        lemma_measured_keeps_settings(m, first, p);
        assert(learned(before) == learned(heard_first));
        lemma_measuring_alike(before, heard_first, last, len);
        lemma_power(m.bank.sidechain_highpass, m.settings.monitor_channels, first, last, p, len);
    }
    assert(hears(before, used));
    lemma_frames_of(before, last, used, len);
    lemma_chunk_is_measured(before, last, len);
    lemma_spliced(chunks, used, lengths, m.setup.chunksize, n);
    assert(m.sidechain(waves, frames).len() == frames);
    assert(learned(fed(m, chunks, n)) == learned(m.measured(waves, frames)));
    assert(fed(m, chunks, n) == before.after_chunk(last));
}

/// The frames of a chunk, as frames under one guide.
proof fn lemma_chunk_moments(m: Model, waves: Seq<Seq<PrcFmt>>, frames: int)
    requires
        m.active_frames(waves) == Some(frames),
        frames >= 0,
    ensures
        ({
            let cs = chunk_moments(m, waves, frames);
            let y = m.power(waves, frames);
            let g = m.measured(waves, frames).guide();
            &&& cs.len() == frames
            &&& y.len() == frames
            &&& m.after_chunk(waves).followers == m.followers.after_frames(
                y,
                frames,
                m.settings,
                m.setup,
                g,
            )
            &&& forall|j: int|
                0 <= j < frames ==> (#[trigger] cs[j]).guide == g && cs[j].followers
                    == m.followers.after_frames(y, j + 1, m.settings, m.setup, g)
        }),
{
    lemma_chunk_follows(m, waves, frames);
}

/// A stream is heard as one chain over the whole of its audio.
pub proof fn law_stream_is_one_chain(
    m: Model,
    chunks: Seq<Seq<Seq<PrcFmt>>>,
    used: Seq<bool>,
    lengths: Seq<int>,
    n: int,
)
    requires
        m.wf(),
        stream(chunks, used, lengths, m.setup.chunksize),
        listens_within(m, used.len() as int),
        hears(m, used),
        1 <= n <= chunks.len(),
    ensures
        ({
            let (waves, frames) = (spliced(chunks, n), total(lengths, n));
            let ms = moments(m, chunks, lengths, n);
            &&& frames > 0
            &&& ms.len() == frames
            &&& chained(m.followers, ms, m.power(waves, frames), m.settings, m.setup)
            &&& fed(m, chunks, n).followers == after_moments(m.followers, ms, frames)
        }),
    decreases n,
{
    lemma_next_chunk(m, chunks, used, lengths, n);
    let before = fed(m, chunks, n - 1);
    let (last, len) = (chunks[n - 1], lengths[n - 1]);
    let cs = chunk_moments(before, last, len);
    let y = before.power(last, len);
    let g = before.measured(last, len).guide();
    lemma_chunk_moments(before, last, len);
    let first = moments(m, chunks, lengths, n - 1);
    let x = if n == 1 {
        Seq::<PrcFmt>::empty()
    } else {
        m.power(spliced(chunks, n - 1), total(lengths, n - 1))
    };
    if n > 1 {
        law_stream_is_one_chain(m, chunks, used, lengths, n - 1);
    } else {
        assert(x + y =~= y);
    }
    assert(before.followers == after_moments(m.followers, first, first.len() as int));
    lemma_chain(m.followers, first, x, cs, y, m.settings, m.setup, g);
    assert(moments(m, chunks, lengths, n) == first + cs);
    assert(fed(m, chunks, n) == before.after_chunk(last));
}

/// Each frame of a stream is told what the audio has told up to the end of its chunk.
pub proof fn law_frames_are_told_by_their_chunk(
    m: Model,
    chunks: Seq<Seq<Seq<PrcFmt>>>,
    used: Seq<bool>,
    lengths: Seq<int>,
    n: int,
    i: int,
)
    requires
        m.wf(),
        stream(chunks, used, lengths, m.setup.chunksize),
        listens_within(m, used.len() as int),
        hears(m, used),
        1 <= n <= chunks.len(),
        0 <= i < total(lengths, n),
    ensures
        i < end_of(lengths, n, i) <= total(lengths, n),
        end_of(lengths, n, i) <= i + m.setup.chunksize,
        moments(m, chunks, lengths, n)[i].guide == told(
            m,
            m.sidechain(spliced(chunks, n), total(lengths, n)),
            end_of(lengths, n, i),
        ),
    decreases n,
{
    lemma_next_chunk(m, chunks, used, lengths, n);
    let before = fed(m, chunks, n - 1);
    let (last, len) = (chunks[n - 1], lengths[n - 1]);
    let first = moments(m, chunks, lengths, n - 1);
    let cs = chunk_moments(before, last, len);
    assert(moments(m, chunks, lengths, n) == first + cs);
    if n > 1 {
        law_stream_is_one_chain(m, chunks, used, lengths, n - 1);
    }
    if n > 1 && i < first.len() {
        law_frames_are_told_by_their_chunk(m, chunks, used, lengths, n - 1, i);
        assert((first + cs)[i] == first[i]);
        let x = m.sidechain(spliced(chunks, n - 1), total(lengths, n - 1));
        let t = end_of(lengths, n - 1, i);
        lemma_spliced(chunks, used, lengths, m.setup.chunksize, n - 1);
        assert(x.len() == total(lengths, n - 1));
        law_hops_run_on(m.listener, x, before.sidechain(last, len), t, m.settings, m.setup);
    } else {
        assert((first + cs)[i] == cs[i - first.len()]);
    }
}

} // verus!
