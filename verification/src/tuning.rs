//! Constants of the processor.
use crate::fixed::{stands_for, PrcFmt, ONE};
use vstd::prelude::*;

verus! {

/// Rate at which the slow, statistical part of the sidechain runs, in Hz. Fixed in time
/// rather than in chunks, so that behaviour does not change with the chunk size.
pub const HOP_RATE_HZ: usize = 400;

/// Dialogue level assumed before any has been measured, in dB above full scale.
pub const INITIAL_REFERENCE_DB: PrcFmt = -27 * ONE;

/// Lower end of the window that the dialogue reference may track in. Levels outside it are
/// not film dialogue and are rejected rather than followed.
pub const REFERENCE_MIN_DB: PrcFmt = -45 * ONE;

/// Upper end of that window.
pub const REFERENCE_MAX_DB: PrcFmt = -12 * ONE;

/// Corner of the sidechain highpass, in Hz. Keeps rumble from dominating the level
/// estimate, since the bass shelf already deals with low frequencies.
pub const SIDECHAIN_HIGHPASS_HZ: PrcFmt = 60 * ONE;

/// Level reported before anything has been measured, in dB.
pub const SILENT_LEVEL_DB: PrcFmt = -200 * ONE;

/// Window used to measure level for the slow stage, in seconds. Short on purpose: `attack`
/// and `release` smooth the gain, not the measurement.
pub const LEVEL_WINDOW_S: PrcFmt = 0x7ae_147a_e147_ae14_7ae1;

/// Gap between wanted and applied reduction, in dB, beyond which the gain may recover at
/// the faster scene rate.
pub const RELEASE_CATCHUP_DB: PrcFmt = 6 * ONE;

/// Gap at which catching up stops, in dB, so that the switch has hysteresis.
pub const RELEASE_CATCHUP_CLEAR_DB: PrcFmt = 0x8000_0000_0000_0000_0000;

/// Time constants of the fast stage, in seconds.
pub const FAST_ATTACK_S: PrcFmt = 0x83_126e_978d_4fdf_3b64;

/// See [`FAST_ATTACK_S`].
pub const FAST_RELEASE_S: PrcFmt = 0x147a_e147_ae14_7ae1_47ae;

/// The fast stage only looks at what sits this far above the reference, in dB.
pub const FAST_HEADROOM_DB: PrcFmt = 18 * ONE;

/// Slope of the fast stage, equivalent to a ratio of ten to one.
pub const FAST_SLOPE: PrcFmt = 0xe666_6666_6666_6666_6666;

/// Band that the dialogue detector listens to, in Hz.
pub const SPEECH_LOW_HZ: PrcFmt = 300 * ONE;

/// See [`SPEECH_LOW_HZ`].
pub const SPEECH_HIGH_HZ: PrcFmt = 3500 * ONE;

/// Q of the two filters that cut out the speech band.
pub const SPEECH_Q: PrcFmt = 0xb4fd_f3b6_45a1_cac0_8312;

/// Correlation below which content counts as spread over the stereo image.
pub const RHO_MIN: PrcFmt = 0x4ccc_cccc_cccc_cccc_cccd;

/// How much more correlation makes content count as centred.
pub const RHO_SPAN: PrcFmt = 0x9999_9999_9999_9999_999a;

/// Speech-band share of the power below which content does not sound like speech.
pub const BAND_FRACTION_MIN: PrcFmt = 0x3333_3333_3333_3333_3333;

/// How much more of it makes content sound like speech.
pub const BAND_FRACTION_SPAN: PrcFmt = 0x6666_6666_6666_6666_6666;

/// Confidence believes dialogue quickly, in seconds.
pub const CONFIDENCE_RISE_S: PrcFmt = 0x2666_6666_6666_6666_6666;

/// Confidence stops believing dialogue slowly, in seconds.
pub const CONFIDENCE_FALL_S: PrcFmt = 0x1_3333_3333_3333_3333_3333;

/// How far above the reference content can sit and still be fully protected, in dB.
pub const PROTECTION_FULL_ABOVE_DB: PrcFmt = 15 * ONE;

/// Range over which that protection fades to nothing, in dB.
pub const PROTECTION_FADE_DB: PrcFmt = 10 * ONE;

/// Release used while catching up, in seconds.
pub const SCENE_RELEASE_S: PrcFmt = 0x4000_0000_0000_0000_0000;

/// Gain reduction at which the bass shelf reaches its full depth, in dB.
pub const BASS_FULL_AT_DB: PrcFmt = 12 * ONE;

/// Confidence needed to start trusting a level as dialogue.
pub const GATE_OPEN_CONFIDENCE: PrcFmt = 0xb333_3333_3333_3333_3333;

/// The lower confidence it must fall to before that trust is withdrawn.
pub const GATE_CLOSE_CONFIDENCE: PrcFmt = 0x8000_0000_0000_0000_0000;

/// Trust, once granted, lasts at least this long, in seconds.
pub const GATE_HOLD_S: PrcFmt = 0x4ccc_cccc_cccc_cccc_cccd;

/// Centre of the syllabic modulation bandpass, in Hz.
pub const MODULATION_FREQ_HZ: PrcFmt = 0x5_8000_0000_0000_0000_0000;

/// Width of the syllabic modulation bandpass.
pub const MODULATION_Q: PrcFmt = 0x1_3333_3333_3333_3333_3333;

/// Modulation depth treated as unmistakably speech-like, in dB.
pub const MODULATION_FULL_DB: PrcFmt = 2 * ONE;

/// Smoothing of the speech-band level and of the modulation estimate, in seconds.
pub const MODULATION_SMOOTH_S: PrcFmt = 0xb333_3333_3333_3333_3333;

/// Time constant between confidence and gain, in seconds. Must stay at or above one second,
/// or the detector would turn into an audible tremolo.
pub const CONFIDENCE_TO_GAIN_S: PrcFmt = 1 * ONE;

/// All of something, in percent.
pub const HUNDRED_PERCENT: PrcFmt = 100 * ONE;

/// The constants that are no whole numbers are the decimal fractions that they stand for,
/// rounded to the nearest step.
pub proof fn law_fractions_are_nearest()
    ensures
        stands_for(LEVEL_WINDOW_S, 3, 100),
        stands_for(RELEASE_CATCHUP_CLEAR_DB, 5, 10),
        stands_for(FAST_ATTACK_S, 2, 1000),
        stands_for(FAST_RELEASE_S, 8, 100),
        stands_for(FAST_SLOPE, 9, 10),
        stands_for(SPEECH_Q, 707, 1000),
        stands_for(RHO_MIN, 3, 10),
        stands_for(RHO_SPAN, 6, 10),
        stands_for(BAND_FRACTION_MIN, 2, 10),
        stands_for(BAND_FRACTION_SPAN, 4, 10),
        stands_for(CONFIDENCE_RISE_S, 15, 100),
        stands_for(CONFIDENCE_FALL_S, 12, 10),
        stands_for(SCENE_RELEASE_S, 25, 100),
        stands_for(GATE_OPEN_CONFIDENCE, 7, 10),
        stands_for(GATE_CLOSE_CONFIDENCE, 5, 10),
        stands_for(GATE_HOLD_S, 3, 10),
        stands_for(MODULATION_FREQ_HZ, 55, 10),
        stands_for(MODULATION_Q, 12, 10),
        stands_for(MODULATION_SMOOTH_S, 7, 10),
{
}

/// The others are these whole numbers.
pub proof fn law_whole_numbers()
    ensures
        HOP_RATE_HZ == 400,
        INITIAL_REFERENCE_DB == -27 * ONE,
        REFERENCE_MIN_DB == -45 * ONE,
        REFERENCE_MAX_DB == -12 * ONE,
        SIDECHAIN_HIGHPASS_HZ == 60 * ONE,
        SILENT_LEVEL_DB == -200 * ONE,
        RELEASE_CATCHUP_DB == 6 * ONE,
        FAST_HEADROOM_DB == 18 * ONE,
        SPEECH_LOW_HZ == 300 * ONE,
        SPEECH_HIGH_HZ == 3500 * ONE,
        PROTECTION_FULL_ABOVE_DB == 15 * ONE,
        PROTECTION_FADE_DB == 10 * ONE,
        BASS_FULL_AT_DB == 12 * ONE,
        MODULATION_FULL_DB == 2 * ONE,
        CONFIDENCE_TO_GAIN_S == ONE,
        HUNDRED_PERCENT == 100 * ONE,
{
}

} // verus!
