//! The gain law: how much to turn down, frame by frame.
//!
//! Two stages in series. The slow one does most of the work, and its reduction is smoothed
//! in dB. The fast one only catches the leading edge that the slow one misses. Confidence in
//! dialogue can take reduction away, and never adds any.
use crate::decibels::{level_db_of, linear_of, POWER_FLOOR};
use crate::fixed::{clamped, diff, negated, prod, quot, ramp, smoothed, sum, PrcFmt, ONE};
use crate::settings::{Settings, Setup};
use crate::tuning::{
    BASS_FULL_AT_DB, FAST_HEADROOM_DB, FAST_SLOPE, PROTECTION_FADE_DB, PROTECTION_FULL_ABOVE_DB,
    RELEASE_CATCHUP_CLEAR_DB, RELEASE_CATCHUP_DB,
};
use vstd::prelude::*;

verus! {

/// What the gain law remembers from frame to frame.
pub struct Followers {
    pub env_slow_power: PrcFmt,
    pub env_fast_power: PrcFmt,
    /// Reduction of the slow stage, in dB.
    pub reduction_db: PrcFmt,
    pub catching_up: bool,
    pub conf_smooth: PrcFmt,
}

/// What is done to one frame.
pub struct Work {
    /// Factor on the samples.
    pub gain: PrcFmt,
    /// Depth of the bass shelf.
    pub bass: PrcFmt,
    /// Depth of the presence lift.
    pub presence: PrcFmt,
}

/// What the last complete hop tells the gain law.
pub struct Guide {
    pub reference_db: PrcFmt,
    pub confidence: PrcFmt,
}

/// A power, or zero where it is below the floor.
pub open spec fn floored(power: PrcFmt) -> PrcFmt {
    if power < POWER_FLOOR {
        0
    } else {
        power
    }
}

/// How much of each dB above the threshold the slow stage takes away.
pub open spec fn slope_of(ratio: PrcFmt) -> PrcFmt {
    quot(diff(ratio, ONE), ratio)
}

/// The reduction of a level above a threshold.
pub open spec fn reduction_above(level_db: PrcFmt, threshold: PrcFmt, slope: PrcFmt) -> PrcFmt {
    if level_db > threshold {
        prod(negated(diff(level_db, threshold)), slope)
    } else {
        0
    }
}

/// The reduction that the slow stage aims for.
pub open spec fn slow_target(slow_db: PrcFmt, s: Settings, reference_db: PrcFmt) -> PrcFmt {
    reduction_above(slow_db, sum(reference_db, s.headroom), slope_of(s.ratio))
}

/// The reduction of the fast stage.
pub open spec fn fast_reduction(fast_db: PrcFmt, s: Settings, reference_db: PrcFmt) -> PrcFmt {
    prod(
        reduction_above(fast_db, sum(reference_db, FAST_HEADROOM_DB), FAST_SLOPE),
        s.transient_softening,
    )
}

/// How plausible a level is as dialogue, from 0 to 1.
pub open spec fn plausible(slow_db: PrcFmt, reference_db: PrcFmt) -> PrcFmt {
    diff(ONE, ramp(slow_db, sum(reference_db, PROTECTION_FULL_ABOVE_DB), PROTECTION_FADE_DB))
}

/// The share of the reduction that confidence leaves.
pub open spec fn protection(
    conf: PrcFmt,
    slow_db: PrcFmt,
    s: Settings,
    reference_db: PrcFmt,
) -> PrcFmt {
    diff(ONE, prod(prod(s.dialogue_protection, conf), plausible(slow_db, reference_db)))
}

impl Followers {
    pub open spec fn slow_db(self) -> PrcFmt {
        level_db_of(self.env_slow_power)
    }

    pub open spec fn fast_db(self) -> PrcFmt {
        level_db_of(self.env_fast_power)
    }

    /// The two envelopes and the confidence after a frame of a given power.
    pub open spec fn following(self, power: PrcFmt, conf: PrcFmt, s: Settings, u: Setup) -> Self {
        let fast_coeff = if power >= self.env_fast_power {
            u.fast_attack
        } else {
            u.fast_release
        };
        Followers {
            env_slow_power: floored(smoothed(s.level_smooth, self.env_slow_power, power)),
            env_fast_power: floored(smoothed(fast_coeff, self.env_fast_power, power)),
            conf_smooth: smoothed(u.confidence_to_gain, self.conf_smooth, conf),
            ..self
        }
    }

    /// The slow stage's reduction moved toward its target. `slow_attack` sets how fast it
    /// deepens and `slow_release` how fast it lets go, unless it is catching up.
    pub open spec fn reducing(self, target: PrcFmt, s: Settings) -> Self {
        let gap = diff(target, self.reduction_db);
        let catching_up = if gap > RELEASE_CATCHUP_DB {
            true
        } else if gap < RELEASE_CATCHUP_CLEAR_DB {
            false
        } else {
            self.catching_up
        };
        let coeff = if target < self.reduction_db {
            s.slow_attack
        } else if catching_up {
            s.scene_release
        } else {
            s.slow_release
        };
        Followers {
            reduction_db: smoothed(coeff, self.reduction_db, target),
            catching_up,
            ..self
        }
    }

    /// After a frame of a given power.
    pub open spec fn after_frame(self, power: PrcFmt, s: Settings, u: Setup, g: Guide) -> Self {
        let followed = self.following(power, g.confidence, s, u);
        followed.reducing(slow_target(followed.slow_db(), s, g.reference_db), s)
    }

    /// After the first `n` of some frames.
    pub open spec fn after_frames(
        self,
        power: Seq<PrcFmt>,
        n: int,
        s: Settings,
        u: Setup,
        g: Guide,
    ) -> Self
        decreases n,
    {
        if n <= 0 {
            self
        } else {
            self.after_frames(power, n - 1, s, u, g).after_frame(power[n - 1], s, u, g)
        }
    }

    /// The reduction of both stages that confidence leaves, in dB.
    pub open spec fn total_db(self, s: Settings, reference_db: PrcFmt) -> PrcFmt {
        prod(
            sum(self.reduction_db, fast_reduction(self.fast_db(), s, reference_db)),
            protection(self.conf_smooth, self.slow_db(), s, reference_db),
        )
    }

    /// The reduction that is applied, in dB: the amount of it that is wanted, held at the
    /// cap.
    pub open spec fn applied_db(self, s: Settings, reference_db: PrcFmt) -> PrcFmt {
        let scaled = prod(self.total_db(s, reference_db), s.amount);
        let cap = negated(s.max_attenuation);
        if scaled < cap {
            cap
        } else {
            scaled
        }
    }

    /// What is done to the frame just heard.
    pub open spec fn work(self, s: Settings, reference_db: PrcFmt) -> Work {
        let applied = self.applied_db(s, reference_db);
        Work {
            gain: linear_of(applied),
            bass: prod(
                s.bass_depth_max,
                clamped(quot(negated(applied), BASS_FULL_AT_DB), 0, ONE),
            ),
            presence: if s.detecting() {
                prod(s.presence_depth_max, self.conf_smooth)
            } else {
                0
            },
        }
    }

    /// What is done to each of some frames.
    pub open spec fn works(
        self,
        power: Seq<PrcFmt>,
        s: Settings,
        u: Setup,
        g: Guide,
    ) -> Seq<Work> {
        Seq::new(
            power.len(),
            |j: int| self.after_frames(power, j + 1, s, u, g).work(s, g.reference_db),
        )
    }
}

} // verus!
