//! Second order filters and the output limiter.
use crate::decibels::{db_to_linear, linear_of};
use crate::fixed::{
    clamped, diff, fx_add, fx_clamp, fx_div, fx_mul, fx_neg, fx_sub, fx_whole, negated, prod, quot,
    stands_for, sum, whole, PrcFmt, HALF, ONE,
};
use crate::trig::{cos_of, fx_cos, fx_sin, fx_tan, sin_of, tan_of};
use vstd::prelude::*;

verus! {

/// Kind and tuning of a filter. Frequencies are in Hz.
#[derive(Clone, Copy, Debug, PartialEq, Eq, Structural)]
pub enum BiquadParameters {
    HighpassFO { freq: PrcFmt },
    LowpassFO { freq: PrcFmt },
    Highpass { freq: PrcFmt, q: PrcFmt },
    Lowpass { freq: PrcFmt, q: PrcFmt },
    Bandpass { freq: PrcFmt, q: PrcFmt },
}

/// Coefficients of the transfer function
/// `(b0 + b1 z^-1 + b2 z^-2) / (1 + a1 z^-1 + a2 z^-2)`.
#[derive(Clone, Copy, Debug, PartialEq, Eq, Structural)]
pub struct BiquadCoefficients {
    pub a1: PrcFmt,
    pub a2: PrcFmt,
    pub b0: PrcFmt,
    pub b1: PrcFmt,
    pub b2: PrcFmt,
}

/// Frequency as a part of the sampling rate.
pub open spec fn turns_of(freq: PrcFmt, samplerate: usize) -> PrcFmt {
    quot(freq, whole(samplerate as int))
}

/// The bilinear transform of a first order corner: the tangent of half the angle that the
/// frequency turns per sample.
pub open spec fn warped(freq: PrcFmt, samplerate: usize) -> PrcFmt {
    tan_of(quot(turns_of(freq, samplerate), whole(2)))
}

/// The bandwidth term of a second order section: sin / 2q.
pub open spec fn bandwidth(freq: PrcFmt, q: PrcFmt, samplerate: usize) -> PrcFmt {
    quot(sin_of(turns_of(freq, samplerate)), prod(whole(2), q))
}

impl BiquadCoefficients {
    /// Coefficients over a common leading coefficient `a0`.
    pub open spec fn over(
        a0: PrcFmt,
        a1: PrcFmt,
        a2: PrcFmt,
        b0: PrcFmt,
        b1: PrcFmt,
        b2: PrcFmt,
    ) -> Self {
        BiquadCoefficients {
            a1: quot(a1, a0),
            a2: quot(a2, a0),
            b0: quot(b0, a0),
            b1: quot(b1, a0),
            b2: quot(b2, a0),
        }
    }

    /// The design of a filter.
    #[verifier::opaque]
    pub open spec fn design(samplerate: usize, parameters: BiquadParameters) -> Self {
        match parameters {
            BiquadParameters::HighpassFO { freq } => {
                let k = warped(freq, samplerate);
                let alpha = sum(ONE, k);
                Self::over(
                    ONE,
                    negated(quot(diff(ONE, k), alpha)),
                    0,
                    quot(ONE, alpha),
                    quot(negated(ONE), alpha),
                    0,
                )
            },
            BiquadParameters::LowpassFO { freq } => {
                let k = warped(freq, samplerate);
                let alpha = sum(ONE, k);
                Self::over(
                    ONE,
                    negated(quot(diff(ONE, k), alpha)),
                    0,
                    quot(k, alpha),
                    quot(k, alpha),
                    0,
                )
            },
            BiquadParameters::Highpass { freq, q } => {
                let cs = cos_of(turns_of(freq, samplerate));
                let alpha = bandwidth(freq, q, samplerate);
                Self::over(
                    sum(ONE, alpha),
                    prod(whole(-2), cs),
                    diff(ONE, alpha),
                    prod(sum(ONE, cs), HALF),
                    negated(sum(ONE, cs)),
                    prod(sum(ONE, cs), HALF),
                )
            },
            BiquadParameters::Lowpass { freq, q } => {
                let cs = cos_of(turns_of(freq, samplerate));
                let alpha = bandwidth(freq, q, samplerate);
                Self::over(
                    sum(ONE, alpha),
                    prod(whole(-2), cs),
                    diff(ONE, alpha),
                    prod(diff(ONE, cs), HALF),
                    diff(ONE, cs),
                    prod(diff(ONE, cs), HALF),
                )
            },
            BiquadParameters::Bandpass { freq, q } => {
                let cs = cos_of(turns_of(freq, samplerate));
                let alpha = bandwidth(freq, q, samplerate);
                Self::over(
                    sum(ONE, alpha),
                    prod(whole(-2), cs),
                    diff(ONE, alpha),
                    alpha,
                    0,
                    negated(alpha),
                )
            },
        }
    }

    fn normalize(
        a0: PrcFmt,
        a1: PrcFmt,
        a2: PrcFmt,
        b0: PrcFmt,
        b1: PrcFmt,
        b2: PrcFmt,
    ) -> (r: Self)
        ensures
            r == Self::over(a0, a1, a2, b0, b1, b2),
    {
        BiquadCoefficients {
            a1: fx_div(a1, a0),
            a2: fx_div(a2, a0),
            b0: fx_div(b0, a0),
            b1: fx_div(b1, a0),
            b2: fx_div(b2, a0),
        }
    }

    /// Designs a filter.
    pub fn from_config(samplerate: usize, parameters: BiquadParameters) -> (r: Self)
        ensures
            r == Self::design(samplerate, parameters),
    {
        reveal(BiquadCoefficients::design);
        let fs: PrcFmt = fx_whole(samplerate);
        match parameters {
            BiquadParameters::HighpassFO { freq } => {
                let k: PrcFmt = fx_tan(fx_div(fx_div(freq, fs), 2 * ONE));
                let alpha: PrcFmt = fx_add(ONE, k);
                Self::normalize(
                    ONE,
                    fx_neg(fx_div(fx_sub(ONE, k), alpha)),
                    0,
                    fx_div(ONE, alpha),
                    fx_div(fx_neg(ONE), alpha),
                    0,
                )
            },
            BiquadParameters::LowpassFO { freq } => {
                let k: PrcFmt = fx_tan(fx_div(fx_div(freq, fs), 2 * ONE));
                let alpha: PrcFmt = fx_add(ONE, k);
                Self::normalize(
                    ONE,
                    fx_neg(fx_div(fx_sub(ONE, k), alpha)),
                    0,
                    fx_div(k, alpha),
                    fx_div(k, alpha),
                    0,
                )
            },
            BiquadParameters::Highpass { freq, q } => {
                let turns: PrcFmt = fx_div(freq, fs);
                let cs: PrcFmt = fx_cos(turns);
                let alpha: PrcFmt = fx_div(fx_sin(turns), fx_mul(2 * ONE, q));
                Self::normalize(
                    fx_add(ONE, alpha),
                    fx_mul(-2 * ONE, cs),
                    fx_sub(ONE, alpha),
                    fx_mul(fx_add(ONE, cs), HALF),
                    fx_neg(fx_add(ONE, cs)),
                    fx_mul(fx_add(ONE, cs), HALF),
                )
            },
            BiquadParameters::Lowpass { freq, q } => {
                let turns: PrcFmt = fx_div(freq, fs);
                let cs: PrcFmt = fx_cos(turns);
                let alpha: PrcFmt = fx_div(fx_sin(turns), fx_mul(2 * ONE, q));
                Self::normalize(
                    fx_add(ONE, alpha),
                    fx_mul(-2 * ONE, cs),
                    fx_sub(ONE, alpha),
                    fx_mul(fx_sub(ONE, cs), HALF),
                    fx_sub(ONE, cs),
                    fx_mul(fx_sub(ONE, cs), HALF),
                )
            },
            BiquadParameters::Bandpass { freq, q } => {
                let turns: PrcFmt = fx_div(freq, fs);
                let cs: PrcFmt = fx_cos(turns);
                let alpha: PrcFmt = fx_div(fx_sin(turns), fx_mul(2 * ONE, q));
                Self::normalize(
                    fx_add(ONE, alpha),
                    fx_mul(-2 * ONE, cs),
                    fx_sub(ONE, alpha),
                    alpha,
                    0,
                    fx_neg(alpha),
                )
            },
        }
    }
}

/// A filter with its history, in the transposed direct form.
#[derive(Clone, Copy, Debug, PartialEq, Eq, Structural)]
pub struct Biquad {
    pub s1: PrcFmt,
    pub s2: PrcFmt,
    pub coeffs: BiquadCoefficients,
}

impl Biquad {
    /// A filter that has heard nothing yet.
    pub open spec fn fresh(coeffs: BiquadCoefficients) -> Self {
        Biquad { s1: 0, s2: 0, coeffs }
    }

    /// What comes out when `input` goes in.
    pub open spec fn output(self, input: PrcFmt) -> PrcFmt {
        sum(self.s1, prod(self.coeffs.b0, input))
    }

    /// The filter after `input`.
    pub open spec fn after(self, input: PrcFmt) -> Self {
        let out = self.output(input);
        Biquad {
            s1: diff(sum(self.s2, prod(self.coeffs.b1, input)), prod(self.coeffs.a1, out)),
            s2: diff(prod(self.coeffs.b2, input), prod(self.coeffs.a2, out)),
            coeffs: self.coeffs,
        }
    }

    /// The filter after the first `n` samples of `wave`.
    pub open spec fn after_wave(self, wave: Seq<PrcFmt>, n: int) -> Self
        decreases n,
    {
        if n <= 0 {
            self
        } else {
            self.after_wave(wave, n - 1).after(wave[n - 1])
        }
    }

    /// What sample `n` of `wave` comes out as.
    pub open spec fn wave_output(self, wave: Seq<PrcFmt>, n: int) -> PrcFmt {
        self.after_wave(wave, n).output(wave[n])
    }

    /// What `wave` comes out as.
    pub open spec fn filtered(self, wave: Seq<PrcFmt>) -> Seq<PrcFmt> {
        Seq::new(wave.len(), |n: int| self.wave_output(wave, n))
    }

    /// The filter after all of `wave`.
    pub open spec fn after_all(self, wave: Seq<PrcFmt>) -> Self {
        self.after_wave(wave, wave.len() as int)
    }

    /// A filter at rest.
    pub fn new(coeffs: BiquadCoefficients) -> (r: Self)
        ensures
            r == Self::fresh(coeffs),
    {
        Biquad { s1: 0, s2: 0, coeffs }
    }

    /// Swap the coefficients and keep the history.
    pub fn set_coefficients(&mut self, coeffs: BiquadCoefficients)
        ensures
            *final(self) == (Biquad { coeffs, ..*old(self) }),
    {
        self.coeffs = coeffs;
    }

    /// Filter one sample.
    pub fn process_single(&mut self, input: PrcFmt) -> (r: PrcFmt)
        ensures
            r == old(self).output(input),
            *final(self) == old(self).after(input),
    {
        let out: PrcFmt = fx_add(self.s1, fx_mul(self.coeffs.b0, input));
        self.s1 = fx_sub(
            fx_add(self.s2, fx_mul(self.coeffs.b1, input)),
            fx_mul(self.coeffs.a1, out),
        );
        self.s2 = fx_sub(fx_mul(self.coeffs.b2, input), fx_mul(self.coeffs.a2, out));
        out
    }

    /// Filter the first `frames` samples of `wave` in place.
    pub fn process_waveform(&mut self, wave: &mut Vec<PrcFmt>, frames: usize)
        requires
            frames <= old(wave)@.len(),
        ensures
            *final(self) == old(self).after_all(old(wave)@.take(frames as int)),
            final(wave)@ == old(self).filtered(old(wave)@.take(frames as int)) + old(wave)@.skip(
                frames as int,
            ),
    {
        let ghost head = wave@.take(frames as int);
        let mut n: usize = 0;
        while n < frames
            invariant
                n <= frames <= old(wave)@.len(),
                wave@.len() == old(wave)@.len(),
                head == old(wave)@.take(frames as int),
                *self == old(self).after_wave(head, n as int),
                forall|j: int|
                    0 <= j < n ==> #[trigger] wave@[j] == old(self).wave_output(head, j),
                forall|j: int|
                    n <= j < old(wave)@.len() ==> #[trigger] wave@[j] == old(wave)@[j],
            decreases frames - n,
        {
            let input: PrcFmt = wave[n];
            assert(input == head[n as int]);
            let out: PrcFmt = self.process_single(input);
            wave.set(n, out);
            n = n + 1;
        }
        assert(wave@ =~= old(self).filtered(head) + old(wave)@.skip(frames as int));
    }
}

/// Share of its cube that the soft clipper takes off a sample: a full-scale curve that
/// turns flat at one and a half times the limit.
pub const CUBE_FACTOR: PrcFmt = 0x25ed_097b_425e_d097_b426;

/// Where the soft clipper's curve turns flat, as a multiple of the limit.
pub const CLIP_EDGE: PrcFmt = 0x1_8000_0000_0000_0000_0000;

/// The cube's share is 4/27, rounded to the nearest step.
pub proof fn law_cube_factor_is_nearest()
    ensures
        stands_for(CUBE_FACTOR, 4, 27),
        stands_for(CLIP_EDGE, 3, 2),
{
}

/// The soft clipping curve, for a limit of one.
pub open spec fn clip_curve(x: PrcFmt) -> PrcFmt {
    let s = clamped(x, negated(CLIP_EDGE), CLIP_EDGE);
    diff(s, prod(CUBE_FACTOR, prod(prod(s, s), s)))
}

/// A soft clipper.
#[derive(Clone, Copy, Debug, PartialEq, Eq, Structural)]
pub struct Limiter {
    pub clip_limit: PrcFmt,
}

impl Limiter {
    /// What the clipper makes of a sample.
    pub open spec fn clipped(self, v: PrcFmt) -> PrcFmt {
        prod(clip_curve(quot(v, self.clip_limit)), self.clip_limit)
    }

    /// A clipper with its limit given in dB.
    pub fn from_config(clip_limit: PrcFmt) -> (r: Self)
        ensures
            r == (Limiter { clip_limit: linear_of(clip_limit) }),
            r.clip_limit >= 0,
    {
        Limiter { clip_limit: db_to_linear(clip_limit) }
    }

    fn clip_sample(&self, v: PrcFmt) -> (r: PrcFmt)
        ensures
            r == self.clipped(v),
    {
        let s: PrcFmt = fx_clamp(fx_div(v, self.clip_limit), -CLIP_EDGE, CLIP_EDGE);
        fx_mul(fx_sub(s, fx_mul(CUBE_FACTOR, fx_mul(fx_mul(s, s), s))), self.clip_limit)
    }

    /// Shape the first `frames` samples of `wave`, every one of them.
    pub fn apply_clip(&self, wave: &mut Vec<PrcFmt>, frames: usize)
        requires
            frames <= old(wave)@.len(),
        ensures
            final(wave)@.len() == old(wave)@.len(),
            forall|j: int|
                0 <= j < frames ==> #[trigger] final(wave)@[j] == self.clipped(old(wave)@[j]),
            forall|j: int|
                frames <= j < old(wave)@.len() ==> #[trigger] final(wave)@[j] == old(wave)@[j],
    {
        let mut n: usize = 0;
        while n < frames
            invariant
                n <= frames <= old(wave)@.len(),
                wave@.len() == old(wave)@.len(),
                forall|j: int|
                    0 <= j < n ==> #[trigger] wave@[j] == self.clipped(old(wave)@[j]),
                forall|j: int|
                    n <= j < old(wave)@.len() ==> #[trigger] wave@[j] == old(wave)@[j],
            decreases frames - n,
        {
            let shaped: PrcFmt = self.clip_sample(wave[n]);
            wave.set(n, shaped);
            n = n + 1;
        }
    }
}

} // verus!
