//! What becomes of the audio: bass shelf, presence lift, gain and ceiling.
use crate::filters::{Biquad, Limiter};
use crate::fixed::{diff, fx_abs, fx_add, fx_mul, fx_sub, magnitude, prod, sum, PrcFmt};
use crate::gain::Work;
use crate::settings::Settings;
use crate::sidechain::heard;
use vstd::prelude::*;

verus! {

/// A channel with the bass shelf.
pub open spec fn shelved(
    wave: Seq<PrcFmt>,
    lowpass: Biquad,
    works: Seq<Work>,
    shelving: bool,
) -> Seq<PrcFmt> {
    if shelving {
        Seq::new(
            wave.len(),
            |j: int| diff(wave[j], prod(works[j].bass, lowpass.wave_output(wave, j))),
        )
    } else {
        wave
    }
}

/// A channel with the presence lift.
pub open spec fn lifted(
    wave: Seq<PrcFmt>,
    bandpass: Biquad,
    works: Seq<Work>,
    lifting: bool,
) -> Seq<PrcFmt> {
    if lifting {
        Seq::new(
            wave.len(),
            |j: int| sum(wave[j], prod(works[j].presence, bandpass.wave_output(wave, j))),
        )
    } else {
        wave
    }
}

/// A channel with the gain.
pub open spec fn levelled(wave: Seq<PrcFmt>, works: Seq<Work>) -> Seq<PrcFmt> {
    Seq::new(wave.len(), |j: int| prod(wave[j], works[j].gain))
}

/// Whether a sample exceeds the ceiling.
pub open spec fn too_loud(wave: Seq<PrcFmt>, limiter: Limiter) -> bool {
    exists|j: int| 0 <= j < wave.len() && magnitude(#[trigger] wave[j]) > limiter.clip_limit
}

/// A channel held under the ceiling. Soft clipping shapes every sample, so it is used only
/// where one of them is too loud.
pub open spec fn limited(wave: Seq<PrcFmt>, limiter: Limiter) -> Seq<PrcFmt> {
    if too_loud(wave, limiter) {
        Seq::new(wave.len(), |j: int| limiter.clipped(wave[j]))
    } else {
        wave
    }
}

/// A filter after a channel, if it is in use.
pub open spec fn used(filter: Biquad, wave: Seq<PrcFmt>, in_use: bool) -> Biquad {
    if in_use {
        filter.after_all(wave)
    } else {
        filter
    }
}

/// A channel before the ceiling.
pub open spec fn driven(
    wave: Seq<PrcFmt>,
    lowpass: Biquad,
    bandpass: Biquad,
    works: Seq<Work>,
    shelving: bool,
    lifting: bool,
) -> Seq<PrcFmt> {
    levelled(lifted(shelved(wave, lowpass, works, shelving), bandpass, works, lifting), works)
}

/// The audio, the output filters and whether the ceiling was hit.
#[verifier::ext_equal]
pub struct Output {
    pub waves: Seq<Seq<PrcFmt>>,
    pub lowpass: Seq<Biquad>,
    pub bandpass: Seq<Biquad>,
    pub clipped: bool,
}

impl Output {
    /// After process channel `i`.
    pub open spec fn after_channel(self, i: int, works: Seq<Work>, s: Settings) -> Output {
        let ch = s.process_channels[i] as int;
        let wave = heard(self.waves[ch], works.len() as int);
        let out = driven(
            wave,
            self.lowpass[i],
            self.bandpass[i],
            works,
            s.shelving(),
            s.lifting(),
        );
        Output {
            waves: self.waves.update(
                ch,
                limited(out, s.limiter) + self.waves[ch].skip(wave.len() as int),
            ),
            lowpass: self.lowpass.update(i, used(self.lowpass[i], wave, s.shelving())),
            bandpass: self.bandpass.update(
                i,
                used(
                    self.bandpass[i],
                    shelved(wave, self.lowpass[i], works, s.shelving()),
                    s.lifting(),
                ),
            ),
            clipped: self.clipped || too_loud(out, s.limiter),
        }
    }

    /// After the first `n` process channels.
    pub open spec fn after_channels(self, n: int, works: Seq<Work>, s: Settings) -> Output
        decreases n,
    {
        if n <= 0 {
            self
        } else {
            self.after_channels(n - 1, works, s).after_channel(n - 1, works, s)
        }
    }
}

/// The work on some frames, from its three parts.
pub open spec fn works_in(
    gain: Seq<PrcFmt>,
    bass: Seq<PrcFmt>,
    presence: Seq<PrcFmt>,
    frames: int,
) -> Seq<Work> {
    Seq::new(
        frames as nat,
        |j: int| Work { gain: gain[j], bass: bass[j], presence: presence[j] },
    )
}

/// Shelf, lift and gain on the first `len` samples of a channel. Returns their peak.
fn drive_channel(
    wave: &mut Vec<PrcFmt>,
    lowpass: &mut Biquad,
    bandpass: &mut Biquad,
    gain: &Vec<PrcFmt>,
    bass: &Vec<PrcFmt>,
    presence: &Vec<PrcFmt>,
    len: usize,
    shelving: bool,
    lifting: bool,
) -> (peak: PrcFmt)
    requires
        len <= old(wave)@.len(),
        len <= gain@.len(),
        len <= bass@.len(),
        len <= presence@.len(),
    ensures
        ({
            let part = old(wave)@.take(len as int);
            let works = works_in(gain@, bass@, presence@, len as int);
            let out = driven(part, *old(lowpass), *old(bandpass), works, shelving, lifting);
            &&& final(wave)@ == out + old(wave)@.skip(len as int)
            &&& *final(lowpass) == used(*old(lowpass), part, shelving)
            &&& *final(bandpass) == used(
                *old(bandpass),
                shelved(part, *old(lowpass), works, shelving),
                lifting,
            )
            &&& peak >= 0
            &&& forall|j: int| 0 <= j < len ==> magnitude(#[trigger] out[j]) <= peak
            &&& peak == 0 || exists|j: int| 0 <= j < len && magnitude(#[trigger] out[j]) == peak
        }),
{
    let ghost part = wave@.take(len as int);
    let ghost works = works_in(gain@, bass@, presence@, len as int);
    let ghost low = *lowpass;
    let ghost band = *bandpass;
    let ghost shelf = shelved(part, low, works, shelving);
    let ghost out = driven(part, low, band, works, shelving, lifting);
    let mut peak: PrcFmt = 0;
    let mut j: usize = 0;
    while j < len
        invariant
            j <= len <= old(wave)@.len(),
            len <= gain@.len(),
            len <= bass@.len(),
            len <= presence@.len(),
            part == old(wave)@.take(len as int),
            works == works_in(gain@, bass@, presence@, len as int),
            shelf == shelved(part, low, works, shelving),
            out == driven(part, low, band, works, shelving, lifting),
            wave@.len() == old(wave)@.len(),
            *lowpass == if shelving {
                low.after_wave(part, j as int)
            } else {
                low
            },
            *bandpass == if lifting {
                band.after_wave(shelf, j as int)
            } else {
                band
            },
            forall|i: int| 0 <= i < j ==> #[trigger] wave@[i] == out[i],
            forall|i: int| j <= i < old(wave)@.len() ==> #[trigger] wave@[i] == old(wave)@[i],
            peak >= 0,
            forall|i: int| 0 <= i < j ==> magnitude(#[trigger] out[i]) <= peak,
            peak == 0 || exists|i: int| 0 <= i < j && magnitude(#[trigger] out[i]) == peak,
        decreases len - j,
    {
        let mut value: PrcFmt = wave[j];
        assert(value == part[j as int]);
        if shelving {
            value = fx_sub(value, fx_mul(bass[j], lowpass.process_single(value)));
        }
        assert(value == shelf[j as int]);
        if lifting {
            value = fx_add(value, fx_mul(presence[j], bandpass.process_single(value)));
        }
        value = fx_mul(value, gain[j]);
        assert(value == out[j as int]);
        wave.set(j, value);
        let size: PrcFmt = fx_abs(value);
        if size > peak {
            peak = size;
        }
        j = j + 1;
    }
    assert(wave@ =~= out + old(wave)@.skip(len as int));
    peak
}

/// Does the work on one channel. Returns whether it hit the ceiling.
pub fn finish_channel(
    wave: &mut Vec<PrcFmt>,
    lowpass: &mut Biquad,
    bandpass: &mut Biquad,
    gain: &Vec<PrcFmt>,
    bass: &Vec<PrcFmt>,
    presence: &Vec<PrcFmt>,
    frames: usize,
    limiter: &Limiter,
    shelving: bool,
    lifting: bool,
) -> (clipped: bool)
    requires
        frames <= gain@.len(),
        frames <= bass@.len(),
        frames <= presence@.len(),
        limiter.clip_limit >= 0,
    ensures
        ({
            let part = heard(old(wave)@, frames as int);
            let works = works_in(gain@, bass@, presence@, frames as int);
            let out = driven(part, *old(lowpass), *old(bandpass), works, shelving, lifting);
            &&& final(wave)@ == limited(out, *limiter) + old(wave)@.skip(part.len() as int)
            &&& *final(lowpass) == used(*old(lowpass), part, shelving)
            &&& *final(bandpass) == used(
                *old(bandpass),
                shelved(part, *old(lowpass), works, shelving),
                lifting,
            )
            &&& clipped == too_loud(out, *limiter)
        }),
{
    let len: usize = if frames < wave.len() {
        frames
    } else {
        wave.len()
    };
    let ghost part = heard(wave@, frames as int);
    let ghost works = works_in(gain@, bass@, presence@, frames as int);
    let ghost out = driven(part, *lowpass, *bandpass, works, shelving, lifting);
    let peak: PrcFmt = drive_channel(
        wave,
        lowpass,
        bandpass,
        gain,
        bass,
        presence,
        len,
        shelving,
        lifting,
    );
    assert(out.len() == len);
    proof {
        let short = works_in(gain@, bass@, presence@, len as int);
        assert(shelved(part, *old(lowpass), short, shelving) =~= shelved(
            part,
            *old(lowpass),
            works,
            shelving,
        ));
        assert(driven(part, *old(lowpass), *old(bandpass), short, shelving, lifting) =~= out);
    }
    if peak > limiter.clip_limit {
        let ghost loud = wave@;
        assert(forall|j: int| 0 <= j < len ==> #[trigger] loud[j] == out[j]);
        assert(too_loud(out, *limiter));
        limiter.apply_clip(wave, len);
        assert(wave@ =~= limited(out, *limiter) + old(wave)@.skip(part.len() as int));
        true
    } else {
        assert(!too_loud(out, *limiter));
        false
    }
}

} // verus!
