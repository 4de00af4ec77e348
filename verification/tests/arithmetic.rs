//! The numbers: arithmetic, decibels, angles, filters and the clipper.
use nightmode::decibels::{
    db_to_linear, fx_exp2, fx_log2, level_db, smoothing_coeff, POWER_FLOOR,
};
use nightmode::filters::{Biquad, BiquadCoefficients, BiquadParameters, Limiter};
use nightmode::fixed::{
    fx_abs, fx_add, fx_clamp, fx_div, fx_mul, fx_neg, fx_ramp, fx_round, fx_smooth, fx_sqrt,
    fx_sub, fx_whole, PrcFmt, HALF, ONE,
};
use nightmode::trig::{fx_cos, fx_sin, fx_tan};

const STEPS: f64 = 1208925819614629174706176.0;

fn fx(v: f64) -> PrcFmt {
    (v * STEPS) as PrcFmt
}

fn to_real(v: PrcFmt) -> f64 {
    v as f64 / STEPS
}

fn assert_near(got: PrcFmt, wanted: f64, tolerance: f64) {
    let got = to_real(got);
    assert!(
        (got - wanted).abs() <= tolerance,
        "got {got}, wanted {wanted}"
    );
}

#[test]
fn sums_are_exact_and_saturate() {
    assert_eq!(fx_add(3 * ONE, HALF), 3 * ONE + HALF);
    assert_eq!(fx_add(i128::MAX, 1), i128::MAX);
    assert_eq!(fx_add(i128::MIN, -1), i128::MIN);
    assert_eq!(fx_sub(ONE, 3 * ONE), -2 * ONE);
    assert_eq!(fx_sub(i128::MIN, 1), i128::MIN);
    assert_eq!(fx_sub(i128::MAX, -1), i128::MAX);
    assert_eq!(fx_neg(5), -5);
    assert_eq!(fx_neg(i128::MIN), i128::MAX);
    assert_eq!(fx_abs(-7), 7);
    assert_eq!(fx_abs(i128::MIN), i128::MAX);
}

#[test]
fn products_are_cut_toward_zero() {
    assert_eq!(fx_mul(3 * ONE, HALF), ONE + HALF);
    assert_eq!(fx_mul(-3 * ONE, HALF), -ONE - HALF);
    assert_eq!(fx_mul(3, HALF), 1);
    assert_eq!(fx_mul(-3, HALF), -1);
    assert_eq!(fx_mul(i128::MAX, ONE), i128::MAX);
    assert_eq!(fx_mul(i128::MIN, ONE), i128::MIN);
    assert_eq!(fx_mul(i128::MAX, 2 * ONE), i128::MAX);
    assert_eq!(fx_mul(i128::MAX, -2 * ONE), i128::MIN);
    assert_eq!(fx_mul(i128::MIN, i128::MIN), i128::MAX);
}

#[test]
fn quotients_are_cut_toward_zero() {
    assert_eq!(fx_div(3 * ONE, 2 * ONE), ONE + HALF);
    assert_eq!(fx_div(-3 * ONE, 2 * ONE), -ONE - HALF);
    assert_eq!(fx_div(3, 2 * ONE), 1);
    assert_eq!(fx_div(-3, 2 * ONE), -1);
    assert_eq!(fx_div(ONE, 3 * ONE), ONE / 3);
    assert_eq!(fx_div(i128::MAX, HALF), i128::MAX);
    assert_eq!(fx_div(ONE, 0), i128::MAX);
    assert_eq!(fx_div(-ONE, 0), i128::MIN);
    assert_eq!(fx_div(0, 0), 0);
}

#[test]
fn roots_are_the_largest_that_fit() {
    assert_eq!(fx_sqrt(4 * ONE), 2 * ONE);
    assert_eq!(fx_sqrt(ONE / 4), HALF);
    assert_eq!(fx_sqrt(0), 0);
    assert_eq!(fx_sqrt(-ONE), 0);
    let root = fx_sqrt(2 * ONE);
    assert!(fx_mul(root, root) <= 2 * ONE);
    assert!(fx_mul(root + 1, root + 1) > 2 * ONE);
    assert_near(root, 2.0_f64.sqrt(), 1e-15);
}

#[test]
fn clamps_ramps_and_means() {
    assert_eq!(fx_clamp(-1, 0, ONE), 0);
    assert_eq!(fx_clamp(2 * ONE, 0, ONE), ONE);
    assert_eq!(fx_clamp(HALF, 0, ONE), HALF);
    assert_eq!(fx_ramp(15 * ONE, 10 * ONE, 10 * ONE), HALF);
    assert_eq!(fx_ramp(9 * ONE, 10 * ONE, 10 * ONE), 0);
    assert_eq!(fx_ramp(25 * ONE, 10 * ONE, 10 * ONE), ONE);
    assert_eq!(fx_smooth(HALF, 2 * ONE, 4 * ONE), 3 * ONE);
    assert_eq!(fx_smooth(ONE, 2 * ONE, 4 * ONE), 2 * ONE);
    assert_eq!(fx_smooth(0, 2 * ONE, 4 * ONE), 4 * ONE);
}

#[test]
fn whole_numbers_and_rounding() {
    assert_eq!(fx_whole(48000), 48000 * ONE);
    assert_eq!(fx_whole(usize::MAX), i128::MAX);
    assert_eq!(fx_round(400 * ONE), 400);
    assert_eq!(fx_round(2 * ONE + HALF), 3);
    assert_eq!(fx_round(2 * ONE + HALF - 1), 2);
    assert_eq!(fx_round(-5 * ONE), 0);
}

#[test]
fn logarithms_of_powers_of_two_are_exact() {
    assert_eq!(fx_log2(ONE), 0);
    assert_eq!(fx_log2(8 * ONE), 3 * ONE);
    assert_eq!(fx_log2(ONE / 4), -2 * ONE);
    assert_near(fx_log2(10 * ONE), 10.0_f64.log2(), 1e-13);
    assert_near(fx_log2(fx(0.3)), 0.3_f64.log2(), 1e-13);
}

#[test]
fn exponentials_of_whole_numbers_are_exact() {
    assert_eq!(fx_exp2(0), ONE);
    assert_eq!(fx_exp2(3 * ONE), 8 * ONE);
    assert_eq!(fx_exp2(-2 * ONE), ONE / 4);
    assert_near(fx_exp2(HALF), 2.0_f64.sqrt(), 1e-13);
    assert_near(fx_exp2(fx(-1.37)), (-1.37_f64).exp2(), 1e-13);
    assert_eq!(fx_exp2(-200 * ONE), 0);
    assert_eq!(fx_exp2(200 * ONE), i128::MAX);
}

#[test]
fn decibels_of_power_and_amplitude() {
    assert_eq!(db_to_linear(0), ONE);
    assert_near(db_to_linear(20 * ONE), 10.0, 1e-12);
    assert_near(db_to_linear(-20 * ONE), 0.1, 1e-13);
    assert_near(db_to_linear(-6 * ONE), 10.0_f64.powf(-0.3), 1e-13);
    assert_near(level_db(ONE), 0.0, 1e-12);
    assert_near(level_db(100 * ONE), 20.0, 1e-11);
    assert_near(level_db(fx(0.001)), -30.0, 1e-11);
    assert_near(level_db(0), -200.0, 1e-3);
    assert!(level_db(0) <= -200 * ONE);
    assert_near(POWER_FLOOR, 1e-20, 1e-24);
}

#[test]
fn more_power_is_a_higher_level() {
    let mut last = level_db(0);
    let mut power: PrcFmt = 1;
    while power < i128::MAX / 2 {
        power *= 2;
        let level = level_db(power);
        assert!(level >= last);
        last = level;
    }
}

#[test]
fn smoothing_coefficients() {
    assert_near(
        smoothing_coeff(fx(0.15), 48000 * ONE),
        (-1.0_f64 / 48000.0 / 0.15).exp(),
        1e-13,
    );
    assert_near(
        smoothing_coeff(fx(1.2), 400 * ONE),
        (-1.0_f64 / 400.0 / 1.2).exp(),
        1e-13,
    );
    let coeff = smoothing_coeff(fx(0.002), 48000 * ONE);
    assert!(0 < coeff && coeff < ONE);
}

#[test]
fn sines_cosines_and_tangents_of_turns() {
    assert_eq!(fx_sin(0), 0);
    assert_eq!(fx_cos(0), ONE);
    assert_eq!(fx_tan(0), 0);
    for turns in [0.001, 0.03, 0.125, 0.2, 0.24, 0.3, 0.45] {
        let angle = 2.0 * std::f64::consts::PI * turns;
        assert_near(fx_sin(fx(turns)), angle.sin(), 1e-14);
        assert_near(fx_cos(fx(turns)), angle.cos(), 1e-14);
    }
    assert_near(fx_tan(ONE / 8), 1.0, 1e-14);
    assert_near(fx_tan(fx(0.05)), (0.1 * std::f64::consts::PI).tan(), 1e-14);
}

fn gain_at(coeffs: BiquadCoefficients, samplerate: f64, freq: f64) -> f64 {
    let w = 2.0 * std::f64::consts::PI * freq / samplerate;
    let (b0, b1, b2) = (to_real(coeffs.b0), to_real(coeffs.b1), to_real(coeffs.b2));
    let (a1, a2) = (to_real(coeffs.a1), to_real(coeffs.a2));
    let top_re = b0 + b1 * w.cos() + b2 * (2.0 * w).cos();
    let top_im = -b1 * w.sin() - b2 * (2.0 * w).sin();
    let low_re = 1.0 + a1 * w.cos() + a2 * (2.0 * w).cos();
    let low_im = -a1 * w.sin() - a2 * (2.0 * w).sin();
    ((top_re * top_re + top_im * top_im) / (low_re * low_re + low_im * low_im)).sqrt()
}

#[test]
fn first_order_filters_pass_half_the_power_at_the_corner() {
    let low = BiquadCoefficients::from_config(
        48000,
        BiquadParameters::LowpassFO { freq: 120 * ONE },
    );
    let high = BiquadCoefficients::from_config(
        48000,
        BiquadParameters::HighpassFO { freq: 60 * ONE },
    );
    assert!((gain_at(low, 48000.0, 120.0) - 0.5_f64.sqrt()).abs() < 1e-9);
    assert!((gain_at(low, 48000.0, 0.0) - 1.0).abs() < 1e-9);
    assert!((gain_at(high, 48000.0, 60.0) - 0.5_f64.sqrt()).abs() < 1e-9);
    assert!(gain_at(high, 48000.0, 0.0) < 1e-9);
    assert_eq!((low.a2, low.b2, high.a2, high.b2), (0, 0, 0, 0));
}

#[test]
fn second_order_filters_have_their_gain_at_the_corner() {
    let q = fx(0.707);
    let low = BiquadCoefficients::from_config(
        48000,
        BiquadParameters::Lowpass { freq: 3500 * ONE, q },
    );
    let high = BiquadCoefficients::from_config(
        48000,
        BiquadParameters::Highpass { freq: 300 * ONE, q },
    );
    let band = BiquadCoefficients::from_config(
        48000,
        BiquadParameters::Bandpass { freq: 2500 * ONE, q: fx(0.7) },
    );
    assert!((gain_at(low, 48000.0, 3500.0) - 0.707).abs() < 1e-9);
    assert!((gain_at(low, 48000.0, 0.0) - 1.0).abs() < 1e-9);
    assert!((gain_at(high, 48000.0, 300.0) - 0.707).abs() < 1e-9);
    assert!(gain_at(high, 48000.0, 0.0) < 1e-9);
    assert!((gain_at(band, 48000.0, 2500.0) - 1.0).abs() < 1e-9);
    assert!(gain_at(band, 48000.0, 0.0) < 1e-9);
}

#[test]
fn a_filter_runs_in_the_transposed_form() {
    let coeffs = BiquadCoefficients {
        a1: -HALF,
        a2: ONE / 4,
        b0: ONE,
        b1: 2 * ONE,
        b2: 3 * ONE,
    };
    let mut filter = Biquad::new(coeffs);
    assert_eq!(filter.process_single(ONE), ONE);
    assert_eq!((filter.s1, filter.s2), (2 * ONE + HALF, 3 * ONE - ONE / 4));
    assert_eq!(filter.process_single(0), 2 * ONE + HALF);

    let mut whole = Biquad::new(coeffs);
    let mut wave = vec![ONE, 0, 7 * ONE];
    whole.process_waveform(&mut wave, 2);
    assert_eq!(wave, vec![ONE, 2 * ONE + HALF, 7 * ONE]);
    assert_eq!((whole.s1, whole.s2), (filter.s1, filter.s2));
}

#[test]
fn retuning_a_filter_keeps_its_history() {
    let tuning = |freq: PrcFmt| {
        BiquadCoefficients::from_config(48000, BiquadParameters::LowpassFO { freq })
    };
    let mut filter = Biquad::new(tuning(120 * ONE));
    filter.process_single(ONE);
    let history = (filter.s1, filter.s2);
    filter.set_coefficients(tuning(80 * ONE));
    assert_eq!((filter.s1, filter.s2), history);
    assert_eq!(filter.coeffs, tuning(80 * ONE));
}

#[test]
fn the_clipper_is_a_cubic_below_its_edge_and_flat_above() {
    let limiter = Limiter::from_config(0);
    assert_eq!(limiter.clip_limit, ONE);
    let mut wave = vec![0, HALF, -HALF, 10 * ONE, -10 * ONE, 9 * ONE];
    limiter.apply_clip(&mut wave, 5);
    assert_eq!(wave[0], 0);
    assert_near(wave[1], 0.5 - 0.125 * 4.0 / 27.0, 1e-15);
    assert_eq!(wave[2], -wave[1]);
    assert_eq!(wave[3], ONE);
    assert_eq!(wave[4], -ONE);
    assert_eq!(wave[5], 9 * ONE);
}

#[test]
fn the_clipper_never_exceeds_its_limit() {
    let limiter = Limiter::from_config(-ONE);
    let mut wave: Vec<PrcFmt> = (0..4000).map(|n| fx(n as f64 / 1000.0 - 2.0)).collect();
    let frames = wave.len();
    limiter.apply_clip(&mut wave, frames);
    for v in wave {
        assert!(fx_abs(v) <= limiter.clip_limit);
    }
}
