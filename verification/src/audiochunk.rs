//! A stretch of audio.
use crate::fixed::PrcFmt;
use vstd::prelude::*;

verus! {

/// Samples of several channels over the same time. A channel that is not used is empty.
#[derive(Clone, Debug)]
pub struct AudioChunk {
    pub frames: usize,
    pub channels: usize,
    pub maxval: PrcFmt,
    pub minval: PrcFmt,
    pub valid_frames: usize,
    pub waveforms: Vec<Vec<PrcFmt>>,
}

/// The samples of each channel.
pub open spec fn samples(waveforms: Vec<Vec<PrcFmt>>) -> Seq<Seq<PrcFmt>> {
    Seq::new(waveforms@.len(), |ch: int| waveforms@[ch]@)
}

impl AudioChunk {
    /// The samples of each channel.
    pub open spec fn waves(self) -> Seq<Seq<PrcFmt>> {
        samples(self.waveforms)
    }

    pub fn new(
        waveforms: Vec<Vec<PrcFmt>>,
        maxval: PrcFmt,
        minval: PrcFmt,
        frames: usize,
        valid_frames: usize,
    ) -> (r: Self)
        ensures
            r == (AudioChunk {
                frames,
                channels: waveforms@.len() as usize,
                maxval,
                minval,
                valid_frames,
                waveforms,
            }),
            r.channels == waveforms@.len(),
    {
        let channels: usize = waveforms.len();
        AudioChunk { frames, channels, maxval, minval, valid_frames, waveforms }
    }
}

} // verus!
