//! What the processor learns once per hop: the level, the dialogue confidence and the
//! dialogue reference.
//!
//! A hop is a fixed number of frames. Its sums carry over from chunk to chunk, so a hop is
//! the same however the chunks fall.
use crate::decibels::{level_db_of, POWER_FLOOR};
use crate::filters::Biquad;
use crate::fixed::{
    clamped, diff, magnitude, prod, quot, ramp, root, smoothed, sum, whole, PrcFmt, HALF, ONE,
};
use crate::settings::{Settings, Setup};
use crate::tuning::{
    BAND_FRACTION_MIN, BAND_FRACTION_SPAN, GATE_CLOSE_CONFIDENCE, GATE_OPEN_CONFIDENCE,
    MODULATION_FULL_DB, REFERENCE_MAX_DB, REFERENCE_MIN_DB, RHO_MIN, RHO_SPAN,
};
use vstd::prelude::*;

verus! {

/// One frame of the sidechain: the power of the monitored channels, the power of the full
/// band centre, and the speech band on the left and on the right.
pub struct Frame {
    pub power: PrcFmt,
    pub mid: PrcFmt,
    pub left: PrcFmt,
    pub right: PrcFmt,
}

/// Sums over the frames of the hop that is under way.
pub struct Sums {
    pub count: usize,
    pub broadband: PrcFmt,
    pub mid_full: PrcFmt,
    pub mid_speech: PrcFmt,
    pub lr: PrcFmt,
    pub left: PrcFmt,
    pub right: PrcFmt,
}

impl Sums {
    /// Before the first frame of a hop.
    pub open spec fn empty() -> Sums {
        Sums { count: 0, broadband: 0, mid_full: 0, mid_speech: 0, lr: 0, left: 0, right: 0 }
    }

    /// With one more frame.
    pub open spec fn with(self, frame: Frame) -> Sums {
        let mid = prod(HALF, sum(frame.left, frame.right));
        Sums {
            count: (self.count + 1) as usize,
            broadband: sum(self.broadband, frame.power),
            mid_full: sum(self.mid_full, frame.mid),
            mid_speech: sum(self.mid_speech, prod(mid, mid)),
            lr: sum(self.lr, prod(frame.left, frame.right)),
            left: sum(self.left, prod(frame.left, frame.left)),
            right: sum(self.right, prod(frame.right, frame.right)),
        }
    }

    /// How alike the two sides are in the speech band, from 0 to 1.
    pub open spec fn centred(self) -> PrcFmt {
        ramp(quot(self.lr, root(sum(prod(self.left, self.right), POWER_FLOOR))), RHO_MIN, RHO_SPAN)
    }

    /// How much of the centre lies in the speech band, from 0 to 1.
    pub open spec fn speechlike(self) -> PrcFmt {
        ramp(
            quot(self.mid_speech, sum(self.mid_full, POWER_FLOOR)),
            BAND_FRACTION_MIN,
            BAND_FRACTION_SPAN,
        )
    }

    /// Mean level of a hop, in dB.
    pub open spec fn level_db(self, hop_frames: usize) -> PrcFmt {
        level_db_of(quot(self.broadband, whole(hop_frames as int)))
    }

    /// Mean level of the centre of a hop in the speech band, in dB.
    pub open spec fn speech_db(self, hop_frames: usize) -> PrcFmt {
        level_db_of(quot(self.mid_speech, whole(hop_frames as int)))
    }
}

/// What is known after the last complete hop.
pub struct Estimate {
    /// Level of the last hop, in dB.
    pub level_db: PrcFmt,
    /// Number of complete hops.
    pub hops: usize,
    /// Confidence that what is heard is dialogue, from 0 to 1.
    pub confidence: PrcFmt,
    /// Slow mean of the speech band level, in dB.
    pub speech_db_slow: PrcFmt,
    /// Filter for swings of the speech band level at syllabic rates.
    pub bandpass: Biquad,
    /// Mean size of those swings, in dB.
    pub modulation_energy: PrcFmt,
    /// The tracked dialogue level, in dB.
    pub reference_db: PrcFmt,
    /// Whether levels are trusted as dialogue.
    pub gate_open: bool,
    /// Hops for which that trust lasts in any case.
    pub gate_hold: usize,
}

impl Estimate {
    /// The slow mean that the next swing is measured from. The first hop that is not without
    /// any power starts it.
    pub open spec fn next_speech_db_slow(self, speech_db: PrcFmt, u: Setup) -> PrcFmt {
        smoothed(
            u.modulation_smooth,
            if self.speech_db_slow <= level_db_of(0) {
                speech_db
            } else {
                self.speech_db_slow
            },
            speech_db,
        )
    }

    /// With the speech band level of one more hop.
    pub open spec fn after_swing(self, speech_db: PrcFmt, u: Setup) -> Estimate {
        let slow = self.next_speech_db_slow(speech_db, u);
        let deviation = diff(speech_db, slow);
        Estimate {
            speech_db_slow: slow,
            bandpass: self.bandpass.after(deviation),
            modulation_energy: smoothed(
                u.modulation_smooth,
                self.modulation_energy,
                magnitude(self.bandpass.output(deviation)),
            ),
            ..self
        }
    }

    /// How much the level swings at syllabic rates, from 0 to 1.
    pub open spec fn modulation(self) -> PrcFmt {
        clamped(quot(self.modulation_energy, MODULATION_FULL_DB), 0, ONE)
    }

    /// The three cues together.
    pub open spec fn raw_confidence(self, sums: Sums, weight: PrcFmt) -> PrcFmt {
        prod(
            prod(sums.centred(), sums.speechlike()),
            sum(diff(ONE, weight), prod(weight, self.modulation())),
        )
    }

    /// Moved toward a new opinion: quickly up, slowly down.
    pub open spec fn believing(self, raw: PrcFmt, u: Setup) -> Estimate {
        let coeff = if raw > self.confidence {
            u.confidence_rise
        } else {
            u.confidence_fall
        };
        Estimate { confidence: smoothed(coeff, self.confidence, raw), ..self }
    }

    /// The confidence that trust asks for.
    pub open spec fn gate_threshold(self) -> PrcFmt {
        if self.gate_open {
            GATE_CLOSE_CONFIDENCE
        } else {
            GATE_OPEN_CONFIDENCE
        }
    }

    /// With trust granted, held or withdrawn.
    pub open spec fn gated(self, u: Setup) -> Estimate {
        let hold = if self.gate_hold > 0 {
            (self.gate_hold - 1) as usize
        } else {
            0
        };
        if self.confidence > self.gate_threshold() {
            Estimate {
                gate_open: true,
                gate_hold: if self.gate_open {
                    hold
                } else {
                    u.gate_hold_hops
                },
                ..self
            }
        } else {
            Estimate { gate_open: self.gate_open && hold > 0, gate_hold: hold, ..self }
        }
    }

    /// The reference one bounded step closer to the level.
    pub open spec fn stepped_reference(self, step: PrcFmt) -> PrcFmt {
        let difference = diff(self.level_db, self.reference_db);
        clamped(
            if magnitude(difference) < step {
                self.level_db
            } else if difference >= 0 {
                sum(self.reference_db, step)
            } else {
                diff(self.reference_db, step)
            },
            REFERENCE_MIN_DB,
            REFERENCE_MAX_DB,
        )
    }

    /// With the reference moved, if it is not pinned, levels are trusted, and this one can be
    /// dialogue.
    pub open spec fn tracking(self, s: Settings, u: Setup) -> Estimate {
        if s.reference_pinned is Some {
            self
        } else {
            let gated = self.gated(u);
            if gated.gate_open && REFERENCE_MIN_DB <= self.level_db <= REFERENCE_MAX_DB {
                Estimate { reference_db: self.stepped_reference(s.reference_step), ..gated }
            } else {
                gated
            }
        }
    }

    /// With the level of one more hop, and nothing else.
    pub open spec fn levelled(self, sums: Sums, u: Setup) -> Estimate {
        Estimate {
            level_db: sums.level_db(u.hop_frames),
            hops: self.hops.wrapping_add(1),
            ..self
        }
    }

    /// After one more complete hop. In silence, and where it is switched off, the detector
    /// stands still.
    pub open spec fn after_hop(self, sums: Sums, s: Settings, u: Setup) -> Estimate {
        let levelled = self.levelled(sums, u);
        if s.detecting() && levelled.level_db > s.silence_threshold {
            let swung = levelled.after_swing(sums.speech_db(u.hop_frames), u);
            swung.believing(swung.raw_confidence(sums, s.modulation_weight), u).tracking(s, u)
        } else {
            levelled
        }
    }
}

/// The hop under way, and what the complete ones have told.
pub struct Listener {
    pub sums: Sums,
    pub estimate: Estimate,
}

impl Listener {
    /// After one more frame.
    pub open spec fn after_frame(self, frame: Frame, s: Settings, u: Setup) -> Listener {
        let sums = self.sums.with(frame);
        if sums.count == u.hop_frames {
            Listener { sums: Sums::empty(), estimate: self.estimate.after_hop(sums, s, u) }
        } else {
            Listener { sums, ..self }
        }
    }

    /// After the first `n` of some frames.
    pub open spec fn after_frames(
        self,
        frames: Seq<Frame>,
        n: int,
        s: Settings,
        u: Setup,
    ) -> Listener
        decreases n,
    {
        if n <= 0 {
            self
        } else {
            self.after_frames(frames, n - 1, s, u).after_frame(frames[n - 1], s, u)
        }
    }
}

} // verus!
