//! Logarithms, exponentials and decibels.
//!
//! Both directions work on a mantissa scaled by 2^62 and resolve 2^-48 of an octave. The
//! logarithm is read off digit by digit by repeated squaring, the exponential is a product
//! of the repeated square roots of two.
use crate::fixed::{
    fx_add, fx_div, fx_mul, fx_neg, lemma_prod_ordered, lemma_prod_zero, lemma_quot_sign, negated,
    prod, quot, sum, PrcFmt, ONE,
};
use vstd::arithmetic::power2::{
    lemma2_to64, lemma_pow2_adds, lemma_pow2_pos, lemma_pow2_unfold, pow2,
};
use vstd::prelude::*;

verus! {

/// Floor added to every mean square before converting to dB: 1e-20.
pub const POWER_FLOOR: PrcFmt = 12089;

/// Decibels per doubling of a power: ten times the decimal logarithm of two.
pub const POWER_DB_PER_OCTAVE: PrcFmt = 0x302a30498eb0fd5facdaf;

/// Octaves of amplitude per decibel: a twentieth of the binary logarithm of ten.
pub const OCTAVES_PER_DB: PrcFmt = 0x2a854b425c38b5660ea2;

/// The binary logarithm of e.
pub const LOG2_E: PrcFmt = 0x171547652b82fe1777d10;

/// The position of the highest binary digit of a positive `x`.
pub open spec fn exponent(x: int) -> int
    decreases x,
{
    if x < 2 {
        0
    } else {
        1 + exponent(x / 2)
    }
}

/// `x` scaled by a power of two into 2^62..2^63, cut off.
pub open spec fn mantissa(x: int) -> int {
    x * pow2((126 - exponent(x)) as nat) / 0x1_0000_0000_0000_0000
}

/// The first `n` binary digits of the logarithm of `m / 2^62`, for a mantissa `m`: squaring
/// a number doubles its logarithm, so its size after each squaring is the next digit.
pub open spec fn log2_digits(m: int, n: nat) -> int
    decreases n,
{
    if n == 0 {
        0
    } else {
        let square = m * m / 0x4000_0000_0000_0000;
        if square >= 0x8000_0000_0000_0000 {
            pow2((n - 1) as nat) + log2_digits(square / 2, (n - 1) as nat)
        } else {
            log2_digits(square, (n - 1) as nat)
        }
    }
}

/// The binary logarithm. What has none gets the lower end of the range.
#[verifier::opaque]
pub open spec fn log2_of(x: PrcFmt) -> PrcFmt {
    if x <= 0 {
        i128::MIN
    } else {
        (((exponent(x as int) - 80) * 0x1_0000_0000_0000 + log2_digits(mantissa(x as int), 48))
            * 0x1_0000_0000) as PrcFmt
    }
}

/// `r` is the square root of `x`, cut off to an integer.
pub open spec fn is_floor_root(r: int, x: int) -> bool {
    0 <= r && r * r <= x < (r + 1) * (r + 1)
}

pub open spec fn floor_root(x: int) -> int {
    choose|r: int| is_floor_root(r, x)
}

/// The root of two that is `i` square roots deep, scaled by 2^62 and cut off at each root.
pub open spec fn two_root(i: nat) -> int
    decreases i,
{
    if i == 0 {
        0x8000_0000_0000_0000
    } else {
        floor_root(two_root((i - 1) as nat) * 0x4000_0000_0000_0000)
    }
}

/// `y` times two to the power `rest / 2^48`, by the digits of `rest` from the one of weight
/// 2^-(i + 1) on.
pub open spec fn exp2_digits(y: int, rest: int, i: int) -> int
    decreases 48 - i,
{
    if i >= 48 {
        y
    } else if rest >= 0x8000_0000_0000 {
        exp2_digits(
            y * two_root((i + 1) as nat) / 0x4000_0000_0000_0000,
            (rest - 0x8000_0000_0000) * 2,
            i + 1,
        )
    } else {
        exp2_digits(y, rest * 2, i + 1)
    }
}

/// Two to the power of the fraction of `t`, scaled by 2^62.
pub open spec fn exp2_fraction(t: PrcFmt) -> int {
    exp2_digits(0x4000_0000_0000_0000, (t as int % ONE as int) / 0x1_0000_0000, 0)
}

/// Two to the power `t`.
#[verifier::opaque]
pub open spec fn exp2_of(t: PrcFmt) -> PrcFmt {
    let octave = t as int / ONE as int;
    if octave >= 47 {
        i128::MAX
    } else if octave >= -18 {
        (exp2_fraction(t) * pow2((octave + 18) as nat)) as PrcFmt
    } else {
        (exp2_fraction(t) / pow2((-18 - octave) as nat) as int) as PrcFmt
    }
}

/// The level of a power, in dB above full scale.
pub open spec fn level_db_of(power: PrcFmt) -> PrcFmt {
    prod(log2_of(sum(power, POWER_FLOOR)), POWER_DB_PER_OCTAVE)
}

/// The amplitude factor of a gain in dB.
pub open spec fn linear_of(db: PrcFmt) -> PrcFmt {
    exp2_of(prod(db, OCTAVES_PER_DB))
}

/// One-pole smoothing coefficient for a time constant in seconds: e to the power
/// `-1 / (rate * time_constant)`.
pub open spec fn coeff_of(time_constant: PrcFmt, rate: PrcFmt) -> PrcFmt {
    exp2_of(prod(quot(quot(negated(ONE), rate), time_constant), LOG2_E))
}

proof fn lemma_next_root(i: nat, before: int, here: int)
    requires
        i > 0,
        two_root((i - 1) as nat) == before,
        is_floor_root(here, before * 0x4000_0000_0000_0000),
    ensures
        two_root(i) == here,
{
    let other = two_root(i);
    let x = before * 0x4000_0000_0000_0000;
    assert(is_floor_root(other, x));
    assert(other == here) by (nonlinear_arith)
        requires
            0 <= here && here * here <= x < (here + 1) * (here + 1),
            0 <= other && other * other <= x < (other + 1) * (other + 1),
    ;
}

/// The first 48 repeated square roots of two.
pub proof fn lemma_two_roots()
    ensures
        two_root(0) == 0x8000_0000_0000_0000,
        two_root(1) == 0x5a82_7999_fcef_3242,
        two_root(2) == 0x4c1b_f828_c6dc_54b7,
        two_root(3) == 0x45ca_e0f1_f545_eb73,
        two_root(4) == 0x42d5_61b3_e624_3d8a,
        two_root(5) == 0x4166_c34c_5615_d0eb,
        two_root(6) == 0x40b2_68f9_de01_83b9,
        two_root(7) == 0x4058_f6a7_eccc_d5b5,
        two_root(8) == 0x402c_6be9_6af2_fb57,
        two_root(9) == 0x4016_321b_6870_27a7,
        two_root(10) == 0x400b_1817_8ba3_3b13,
        two_root(11) == 0x4005_8bce_4101_47e7,
        two_root(12) == 0x4002_c5d7_bff7_1dad,
        two_root(13) == 0x4001_62e8_07ee_7e5a,
        two_root(14) == 0x4000_b173_0df6_a523,
        two_root(15) == 0x4000_58b9_497b_8151,
        two_root(16) == 0x4000_2c5c_955d_d700,
        two_root(17) == 0x4000_162e_46d6_f26b,
        two_root(18) == 0x4000_0b17_2275_7b1a,
        two_root(19) == 0x4000_058b_90fd_3e0b,
        two_root(20) == 0x4000_02c5_c86f_3f25,
        two_root(21) == 0x4000_0162_e433_c79a,
        two_root(22) == 0x4000_00b1_7218_edcf,
        two_root(23) == 0x4000_0058_b90c_3968,
        two_root(24) == 0x4000_002c_5c86_0d54,
        two_root(25) == 0x4000_0016_2e43_02d2,
        two_root(26) == 0x4000_000b_1721_8073,
        two_root(27) == 0x4000_0005_8b90_bffc,
        two_root(28) == 0x4000_0002_c5c8_5fee,
        two_root(29) == 0x4000_0001_62e4_2ff3,
        two_root(30) == 0x4000_0000_b172_17f8,
        two_root(31) == 0x4000_0000_58b9_0bfb,
        two_root(32) == 0x4000_0000_2c5c_85fd,
        two_root(33) == 0x4000_0000_162e_42fe,
        two_root(34) == 0x4000_0000_0b17_217e,
        two_root(35) == 0x4000_0000_058b_90be,
        two_root(36) == 0x4000_0000_02c5_c85e,
        two_root(37) == 0x4000_0000_0162_e42e,
        two_root(38) == 0x4000_0000_00b1_7216,
        two_root(39) == 0x4000_0000_0058_b90a,
        two_root(40) == 0x4000_0000_002c_5c84,
        two_root(41) == 0x4000_0000_0016_2e41,
        two_root(42) == 0x4000_0000_000b_1720,
        two_root(43) == 0x4000_0000_0005_8b8f,
        two_root(44) == 0x4000_0000_0002_c5c7,
        two_root(45) == 0x4000_0000_0001_62e3,
        two_root(46) == 0x4000_0000_0000_b171,
        two_root(47) == 0x4000_0000_0000_58b8,
        two_root(48) == 0x4000_0000_0000_2c5b,
{
    lemma_next_root(1, 0x8000_0000_0000_0000, 0x5a82_7999_fcef_3242);
    lemma_next_root(2, 0x5a82_7999_fcef_3242, 0x4c1b_f828_c6dc_54b7);
    lemma_next_root(3, 0x4c1b_f828_c6dc_54b7, 0x45ca_e0f1_f545_eb73);
    lemma_next_root(4, 0x45ca_e0f1_f545_eb73, 0x42d5_61b3_e624_3d8a);
    lemma_next_root(5, 0x42d5_61b3_e624_3d8a, 0x4166_c34c_5615_d0eb);
    lemma_next_root(6, 0x4166_c34c_5615_d0eb, 0x40b2_68f9_de01_83b9);
    lemma_next_root(7, 0x40b2_68f9_de01_83b9, 0x4058_f6a7_eccc_d5b5);
    lemma_next_root(8, 0x4058_f6a7_eccc_d5b5, 0x402c_6be9_6af2_fb57);
    lemma_next_root(9, 0x402c_6be9_6af2_fb57, 0x4016_321b_6870_27a7);
    lemma_next_root(10, 0x4016_321b_6870_27a7, 0x400b_1817_8ba3_3b13);
    lemma_next_root(11, 0x400b_1817_8ba3_3b13, 0x4005_8bce_4101_47e7);
    lemma_next_root(12, 0x4005_8bce_4101_47e7, 0x4002_c5d7_bff7_1dad);
    lemma_next_root(13, 0x4002_c5d7_bff7_1dad, 0x4001_62e8_07ee_7e5a);
    lemma_next_root(14, 0x4001_62e8_07ee_7e5a, 0x4000_b173_0df6_a523);
    lemma_next_root(15, 0x4000_b173_0df6_a523, 0x4000_58b9_497b_8151);
    lemma_next_root(16, 0x4000_58b9_497b_8151, 0x4000_2c5c_955d_d700);
    lemma_next_root(17, 0x4000_2c5c_955d_d700, 0x4000_162e_46d6_f26b);
    lemma_next_root(18, 0x4000_162e_46d6_f26b, 0x4000_0b17_2275_7b1a);
    lemma_next_root(19, 0x4000_0b17_2275_7b1a, 0x4000_058b_90fd_3e0b);
    lemma_next_root(20, 0x4000_058b_90fd_3e0b, 0x4000_02c5_c86f_3f25);
    lemma_next_root(21, 0x4000_02c5_c86f_3f25, 0x4000_0162_e433_c79a);
    lemma_next_root(22, 0x4000_0162_e433_c79a, 0x4000_00b1_7218_edcf);
    lemma_next_root(23, 0x4000_00b1_7218_edcf, 0x4000_0058_b90c_3968);
    lemma_next_root(24, 0x4000_0058_b90c_3968, 0x4000_002c_5c86_0d54);
    lemma_next_root(25, 0x4000_002c_5c86_0d54, 0x4000_0016_2e43_02d2);
    lemma_next_root(26, 0x4000_0016_2e43_02d2, 0x4000_000b_1721_8073);
    lemma_next_root(27, 0x4000_000b_1721_8073, 0x4000_0005_8b90_bffc);
    lemma_next_root(28, 0x4000_0005_8b90_bffc, 0x4000_0002_c5c8_5fee);
    lemma_next_root(29, 0x4000_0002_c5c8_5fee, 0x4000_0001_62e4_2ff3);
    lemma_next_root(30, 0x4000_0001_62e4_2ff3, 0x4000_0000_b172_17f8);
    lemma_next_root(31, 0x4000_0000_b172_17f8, 0x4000_0000_58b9_0bfb);
    lemma_next_root(32, 0x4000_0000_58b9_0bfb, 0x4000_0000_2c5c_85fd);
    lemma_next_root(33, 0x4000_0000_2c5c_85fd, 0x4000_0000_162e_42fe);
    lemma_next_root(34, 0x4000_0000_162e_42fe, 0x4000_0000_0b17_217e);
    lemma_next_root(35, 0x4000_0000_0b17_217e, 0x4000_0000_058b_90be);
    lemma_next_root(36, 0x4000_0000_058b_90be, 0x4000_0000_02c5_c85e);
    lemma_next_root(37, 0x4000_0000_02c5_c85e, 0x4000_0000_0162_e42e);
    lemma_next_root(38, 0x4000_0000_0162_e42e, 0x4000_0000_00b1_7216);
    lemma_next_root(39, 0x4000_0000_00b1_7216, 0x4000_0000_0058_b90a);
    lemma_next_root(40, 0x4000_0000_0058_b90a, 0x4000_0000_002c_5c84);
    lemma_next_root(41, 0x4000_0000_002c_5c84, 0x4000_0000_0016_2e41);
    lemma_next_root(42, 0x4000_0000_0016_2e41, 0x4000_0000_000b_1720);
    lemma_next_root(43, 0x4000_0000_000b_1720, 0x4000_0000_0005_8b8f);
    lemma_next_root(44, 0x4000_0000_0005_8b8f, 0x4000_0000_0002_c5c7);
    lemma_next_root(45, 0x4000_0000_0002_c5c7, 0x4000_0000_0001_62e3);
    lemma_next_root(46, 0x4000_0000_0001_62e3, 0x4000_0000_0000_b171);
    lemma_next_root(47, 0x4000_0000_0000_b171, 0x4000_0000_0000_58b8);
    lemma_next_root(48, 0x4000_0000_0000_58b8, 0x4000_0000_0000_2c5b);
}

/// The repeated square roots of two, tabulated.
fn two_root_table(i: u32) -> (r: u64)
    requires
        i <= 48,
    ensures
        r == two_root(i as nat),
{
    proof {
        lemma_two_roots();
    }
    match i {
        0 => 0x8000_0000_0000_0000,
        1 => 0x5a82_7999_fcef_3242,
        2 => 0x4c1b_f828_c6dc_54b7,
        3 => 0x45ca_e0f1_f545_eb73,
        4 => 0x42d5_61b3_e624_3d8a,
        5 => 0x4166_c34c_5615_d0eb,
        6 => 0x40b2_68f9_de01_83b9,
        7 => 0x4058_f6a7_eccc_d5b5,
        8 => 0x402c_6be9_6af2_fb57,
        9 => 0x4016_321b_6870_27a7,
        10 => 0x400b_1817_8ba3_3b13,
        11 => 0x4005_8bce_4101_47e7,
        12 => 0x4002_c5d7_bff7_1dad,
        13 => 0x4001_62e8_07ee_7e5a,
        14 => 0x4000_b173_0df6_a523,
        15 => 0x4000_58b9_497b_8151,
        16 => 0x4000_2c5c_955d_d700,
        17 => 0x4000_162e_46d6_f26b,
        18 => 0x4000_0b17_2275_7b1a,
        19 => 0x4000_058b_90fd_3e0b,
        20 => 0x4000_02c5_c86f_3f25,
        21 => 0x4000_0162_e433_c79a,
        22 => 0x4000_00b1_7218_edcf,
        23 => 0x4000_0058_b90c_3968,
        24 => 0x4000_002c_5c86_0d54,
        25 => 0x4000_0016_2e43_02d2,
        26 => 0x4000_000b_1721_8073,
        27 => 0x4000_0005_8b90_bffc,
        28 => 0x4000_0002_c5c8_5fee,
        29 => 0x4000_0001_62e4_2ff3,
        30 => 0x4000_0000_b172_17f8,
        31 => 0x4000_0000_58b9_0bfb,
        32 => 0x4000_0000_2c5c_85fd,
        33 => 0x4000_0000_162e_42fe,
        34 => 0x4000_0000_0b17_217e,
        35 => 0x4000_0000_058b_90be,
        36 => 0x4000_0000_02c5_c85e,
        37 => 0x4000_0000_0162_e42e,
        38 => 0x4000_0000_00b1_7216,
        39 => 0x4000_0000_0058_b90a,
        40 => 0x4000_0000_002c_5c84,
        41 => 0x4000_0000_0016_2e41,
        42 => 0x4000_0000_000b_1720,
        43 => 0x4000_0000_0005_8b8f,
        44 => 0x4000_0000_0002_c5c7,
        45 => 0x4000_0000_0001_62e3,
        46 => 0x4000_0000_0000_b171,
        47 => 0x4000_0000_0000_58b8,
        _ => 0x4000_0000_0000_2c5b,
    }
}

/// Every number that is not negative has a root.
pub proof fn lemma_floor_root_exists(x: int)
    requires
        x >= 0,
    ensures
        is_floor_root(floor_root(x), x),
    decreases x,
{
    if x == 0 {
        assert(is_floor_root(0, 0));
    } else {
        lemma_floor_root_exists(x - 1);
        let r = floor_root(x - 1);
        if x < (r + 1) * (r + 1) {
            assert(is_floor_root(r, x));
        } else {
            assert((r + 1) * (r + 1) < (r + 2) * (r + 2)) by (nonlinear_arith)
                requires
                    r >= 0,
            ;
            assert(is_floor_root(r + 1, x));
        }
    }
}

/// Each repeated root of two is smaller than the one before it, and its square does not
/// exceed that one.
pub proof fn lemma_root_chain(i: nat)
    ensures
        0x4000_0000_0000_0000 <= two_root(i) <= 0x8000_0000_0000_0000,
        i > 0 ==> two_root(i) <= two_root((i - 1) as nat),
        i > 0 ==> two_root(i) * two_root(i) <= two_root((i - 1) as nat) * 0x4000_0000_0000_0000,
    decreases i,
{
    if i > 0 {
        lemma_root_chain((i - 1) as nat);
        let before = two_root((i - 1) as nat);
        let here = two_root(i);
        lemma_floor_root_exists(before * 0x4000_0000_0000_0000);
        assert(0x4000_0000_0000_0000 <= here <= before) by (nonlinear_arith)
            requires
                0x4000_0000_0000_0000 <= before,
                0 <= here,
                here * here <= before * 0x4000_0000_0000_0000 < (here + 1) * (here + 1),
        ;
    }
}

/// One more factor keeps the partial product of roots clear of two.
pub proof fn lemma_exp2_step(y: int, i: nat)
    requires
        0x4000_0000_0000_0000 <= y,
        y * two_root(i) <= 0x2000_0000_0000_0000_0000_0000_0000_0000,
    ensures
        y * two_root(i + 1) <= 0x2000_0000_0000_0000_0000_0000_0000_0000,
        y <= y * two_root(i + 1) / 0x4000_0000_0000_0000,
        (y * two_root(i + 1) / 0x4000_0000_0000_0000) * two_root(i + 1) <= y * two_root(i),
        y * two_root(i + 1) <= y * two_root(i),
{
    lemma_root_chain(i + 1);
    let before = two_root(i);
    let here = two_root(i + 1);
    assert(y * here <= y * before) by (nonlinear_arith)
        requires
            0 <= y,
            here <= before,
    ;
    assert(y * here >= y * 0x4000_0000_0000_0000) by (nonlinear_arith)
        requires
            0 <= y,
            here >= 0x4000_0000_0000_0000,
    ;
    let z = y * here / 0x4000_0000_0000_0000;
    assert(z * 0x4000_0000_0000_0000 <= y * here);
    assert(z * here <= y * before) by (nonlinear_arith)
        requires
            z * 0x4000_0000_0000_0000 <= y * here,
            here * here <= before * 0x4000_0000_0000_0000,
            0 <= y,
            0 <= here,
    ;
}

/// Powers of two with a fractional exponent lie between one and two.
pub proof fn lemma_exp2_digits(y: int, rest: int, i: nat)
    requires
        i <= 48,
        0x4000_0000_0000_0000 <= y,
        y * two_root(i) <= 0x2000_0000_0000_0000_0000_0000_0000_0000,
    ensures
        y <= exp2_digits(y, rest, i as int) < 0x8000_0000_0000_0000,
    decreases 48 - i,
{
    if i == 48 {
        lemma_two_roots();
    } else {
        lemma_exp2_step(y, i);
        if rest >= 0x8000_0000_0000 {
            lemma_exp2_digits(
                y * two_root(i + 1) / 0x4000_0000_0000_0000,
                (rest - 0x8000_0000_0000) * 2,
                i + 1,
            );
        } else {
            lemma_exp2_digits(y, rest * 2, i + 1);
        }
    }
}

/// Two to the power of a fraction given by its 48 binary digits, scaled by 2^62.
fn exp2_mantissa(fraction: u64) -> (r: u64)
    requires
        fraction < 0x1_0000_0000_0000,
    ensures
        r == exp2_digits(0x4000_0000_0000_0000, fraction as int, 0),
        0x4000_0000_0000_0000 <= r < 0x8000_0000_0000_0000,
{
    let mut y: u64 = 0x4000_0000_0000_0000;
    let mut rest: u64 = fraction;
    let mut i: u32 = 0;
    proof {
        lemma_exp2_digits(y as int, rest as int, 0);
    }
    while i < 48
        invariant
            i <= 48,
            rest < 0x1_0000_0000_0000,
            0x4000_0000_0000_0000 <= y < 0x8000_0000_0000_0000,
            y * two_root(i as nat) <= 0x2000_0000_0000_0000_0000_0000_0000_0000,
            exp2_digits(y as int, rest as int, i as int) == exp2_digits(
                0x4000_0000_0000_0000,
                fraction as int,
                0,
            ),
        decreases 48 - i,
    {
        let root: u64 = two_root_table(i + 1);
        proof {
            lemma_exp2_step(y as int, i as nat);
            lemma_exp2_digits(y as int, rest as int, i as nat);
        }
        if rest >= 0x8000_0000_0000 {
            proof {
                lemma_exp2_digits(
                    y * two_root((i + 1) as nat) / 0x4000_0000_0000_0000,
                    (rest - 0x8000_0000_0000) * 2,
                    (i + 1) as nat,
                );
            }
            let product: u128 = y as u128 * root as u128;
            assert(product >> 62 == product / 0x4000_0000_0000_0000) by (bit_vector);
            y = (product >> 62) as u64;
            rest = (rest - 0x8000_0000_0000) * 2;
        } else {
            rest = rest * 2;
        }
        i = i + 1;
    }
    y
}

pub fn fx_exp2(t: PrcFmt) -> (r: PrcFmt)
    ensures
        r == exp2_of(t),
        r >= 0,
{
    reveal(exp2_of);
    let shifted: u128 = if t >= 0 {
        t as u128 + 0x8000_0000_0000_0000_0000_0000_0000_0000
    } else {
        (t + i128::MAX + 1) as u128
    };
    let low: u128 = shifted & 0xffff_ffff_ffff_ffff_ffff;
    proof {
        assert(shifted >> 80 == shifted / 0x1_0000_0000_0000_0000_0000) by (bit_vector);
        assert(shifted & 0xffff_ffff_ffff_ffff_ffff == shifted % 0x1_0000_0000_0000_0000_0000)
            by (bit_vector);
        assert(low >> 32 == low / 0x1_0000_0000) by (bit_vector);
        lemma2_to64();
    }
    let octave: i64 = (shifted >> 80) as i64 - 0x8000_0000_0000;
    let fraction: u64 = (low >> 32) as u64;
    proof {
        assert(shifted == t + 0x8000_0000_0000_0000_0000_0000_0000_0000);
        assert(octave == t as int / ONE as int);
        assert(low == t as int % ONE as int);
    }
    if octave >= 47 {
        return i128::MAX;
    }
    let y: u64 = exp2_mantissa(fraction);
    if octave >= -18 {
        let mut wide: u128 = y as u128;
        let mut k: i64 = -18;
        proof {
            assert(y * pow2(0) == y) by (nonlinear_arith)
                requires
                    pow2(0) == 1,
            ;
        }
        while k < octave
            invariant
                -18 <= k <= octave < 47,
                y < 0x8000_0000_0000_0000,
                wide == y * pow2((k + 18) as nat),
                wide < 0x8000_0000_0000_0000_0000_0000_0000_0000,
            decreases octave - k,
        {
            proof {
                lemma_pow2_unfold((k + 19) as nat);
                lemma_pow2_small((k + 19) as nat);
                let p = pow2((k + 18) as nat) as int;
                assert(y * (2 * p) == (y * p) * 2 && y * (2 * p) < 0x8000_0000_0000_0000_0000_0000_0000_0000)
                    by (nonlinear_arith)
                    requires
                        0 <= y < 0x8000_0000_0000_0000,
                        0 <= 2 * p <= 0x1_0000_0000_0000_0000,
                ;
            }
            wide = wide * 2;
            k = k + 1;
        }
        wide as i128
    } else {
        let shift: i64 = -18 - octave;
        if shift >= 64 {
            proof {
                lemma_pow2_large(shift as nat);
                assert(y as int / pow2(shift as nat) as int == 0) by {
                    vstd::arithmetic::div_mod::lemma_basic_div(y as int, pow2(shift as nat) as int);
                }
            }
            0
        } else {
            proof {
                vstd::bits::lemma_u64_shr_is_div(y, shift as u64);
            }
            (y >> (shift as u64)) as i128
        }
    }
}

proof fn lemma_pow2_small(e: nat)
    requires
        e <= 64,
    ensures
        0 < pow2(e) <= 0x1_0000_0000_0000_0000,
{
    lemma2_to64();
    lemma_pow2_pos(e);
    if e < 64 {
        vstd::arithmetic::power2::lemma_pow2_strictly_increases(e, 64);
    }
}

proof fn lemma_pow2_large(e: nat)
    requires
        e >= 64,
    ensures
        pow2(e) >= 0x1_0000_0000_0000_0000,
{
    lemma2_to64();
    if e > 64 {
        vstd::arithmetic::power2::lemma_pow2_strictly_increases(64, e);
    }
}

/// The exponent is the place of the highest digit.
/// A number between two neighbouring powers of two has the exponent of the lower one.
pub proof fn lemma_exponent(x: int, e: nat)
    requires
        pow2(e) <= x < pow2(e + 1),
    ensures
        exponent(x) == e,
    decreases e,
{
    lemma2_to64();
    lemma_pow2_unfold(e + 1);
    if e > 0 {
        lemma_pow2_unfold(e);
        lemma_pow2_pos((e - 1) as nat);
        lemma_exponent(x / 2, (e - 1) as nat);
    }
}

proof fn lemma_shift_up(x: int, m: int, k: nat, by: nat, factor: int)
    requires
        m == x * pow2(k),
        factor == pow2(by),
    ensures
        m * factor == x * pow2(k + by),
{
    lemma_pow2_adds(k, by);
    let p = pow2(k) as int;
    assert(m * factor == x * (p * factor)) by (nonlinear_arith)
        requires
            m == x * p,
    ;
}

/// The digits of the logarithm of a mantissa.
fn log2_mantissa(start: u64) -> (r: u64)
    requires
        0x4000_0000_0000_0000 <= start < 0x8000_0000_0000_0000,
    ensures
        r == log2_digits(start as int, 48),
        r < 0x1_0000_0000_0000,
{
    let mut m: u64 = start;
    let mut digits: u64 = 0;
    let mut i: u32 = 0;
    proof {
        lemma2_to64();
    }
    while i < 48
        invariant
            i <= 48,
            0x4000_0000_0000_0000 <= m < 0x8000_0000_0000_0000,
            digits < pow2(i as nat),
            pow2(i as nat) <= 0x1_0000_0000_0000,
            digits * pow2((48 - i) as nat) + log2_digits(m as int, (48 - i) as nat) == log2_digits(
                start as int,
                48,
            ),
        decreases 48 - i,
    {
        proof {
            assert(0x1000_0000_0000_0000_0000_0000_0000_0000 <= m * m
                < 0x4000_0000_0000_0000_0000_0000_0000_0000) by (nonlinear_arith)
                requires
                    0x4000_0000_0000_0000 <= m < 0x8000_0000_0000_0000,
            ;
            lemma_pow2_unfold((i + 1) as nat);
            lemma_pow2_unfold((48 - i) as nat);
            vstd::arithmetic::power2::lemma2_to64_rest();
            if i < 47 {
                vstd::arithmetic::power2::lemma_pow2_strictly_increases((i + 1) as nat, 48);
            }
            let p = pow2((47 - i) as nat) as int;
            assert(digits * (2 * p) == (digits * 2) * p && (digits * 2) * p + p == (digits * 2 + 1)
                * p) by (nonlinear_arith);
        }
        let wide: u128 = m as u128 * m as u128;
        assert(wide >> 62 == wide / 0x4000_0000_0000_0000) by (bit_vector);
        let square: u64 = (wide >> 62) as u64;
        if square >= 0x8000_0000_0000_0000 {
            m = square / 2;
            digits = digits * 2 + 1;
        } else {
            m = square;
            digits = digits * 2;
        }
        i = i + 1;
    }
    proof {
        assert(digits * pow2(0) == digits) by (nonlinear_arith)
            requires
                pow2(0) == 1,
        ;
    }
    digits
}

#[verifier::rlimit(30)]
pub fn fx_log2(x: PrcFmt) -> (r: PrcFmt)
    ensures
        r == log2_of(x),
{
    reveal(log2_of);
    if x <= 0 {
        return i128::MIN;
    }
    let mut m: u128 = x as u128;
    let mut e: i128 = 126;
    proof {
        lemma2_to64();
        assert(x * pow2(0) == x) by (nonlinear_arith)
            requires
                pow2(0) == 1,
        ;
    }
    if m < 0x8000_0000_0000_0000 {
        proof {
            lemma_shift_up(x as int, m as int, (126 - e) as nat, 64, 0x1_0000_0000_0000_0000);
        }
        m = m * 0x1_0000_0000_0000_0000;
        e = e - 64;
    }
    if m < 0x8000_0000_0000_0000_0000_0000 {
        proof {
            lemma_shift_up(x as int, m as int, (126 - e) as nat, 32, 0x1_0000_0000);
        }
        m = m * 0x1_0000_0000;
        e = e - 32;
    }
    if m < 0x8000_0000_0000_0000_0000_0000_0000 {
        proof {
            lemma_shift_up(x as int, m as int, (126 - e) as nat, 16, 0x1_0000);
        }
        m = m * 0x1_0000;
        e = e - 16;
    }
    if m < 0x80_0000_0000_0000_0000_0000_0000_0000 {
        proof {
            lemma_shift_up(x as int, m as int, (126 - e) as nat, 8, 0x100);
        }
        m = m * 0x100;
        e = e - 8;
    }
    if m < 0x800_0000_0000_0000_0000_0000_0000_0000 {
        proof {
            lemma_shift_up(x as int, m as int, (126 - e) as nat, 4, 0x10);
        }
        m = m * 0x10;
        e = e - 4;
    }
    if m < 0x2000_0000_0000_0000_0000_0000_0000_0000 {
        proof {
            lemma_shift_up(x as int, m as int, (126 - e) as nat, 2, 0x4);
        }
        m = m * 0x4;
        e = e - 2;
    }
    if m < 0x4000_0000_0000_0000_0000_0000_0000_0000 {
        proof {
            lemma_shift_up(x as int, m as int, (126 - e) as nat, 1, 0x2);
        }
        m = m * 0x2;
        e = e - 1;
    }
    proof {
        lemma_highest_digit(x as int, m as int, e as nat);
        assert(m >> 64 == m / 0x1_0000_0000_0000_0000) by (bit_vector);
    }
    let digits: u64 = log2_mantissa((m >> 64) as u64);
    ((e - 80) * 0x1_0000_0000_0000 + digits as i128) * 0x1_0000_0000
}

proof fn lemma_highest_digit(x: int, m: int, e: nat)
    requires
        e <= 126,
        m == x * pow2((126 - e) as nat),
        0x4000_0000_0000_0000_0000_0000_0000_0000 <= m < 0x8000_0000_0000_0000_0000_0000_0000_0000,
    ensures
        exponent(x) == e,
        mantissa(x) == m / 0x1_0000_0000_0000_0000,
{
    lemma2_to64();
    vstd::arithmetic::power2::lemma2_to64_rest();
    lemma_pow2_adds(64, 62);
    lemma_pow2_adds(64, 63);
    lemma_pow2_adds(e, (126 - e) as nat);
    lemma_pow2_unfold(e + 1);
    lemma_pow2_pos((126 - e) as nat);
    let p = pow2((126 - e) as nat) as int;
    let q = pow2(e) as int;
    assert(q <= x < 2 * q) by (nonlinear_arith)
        requires
            q * p <= x * p < 2 * (q * p),
            p > 0,
    ;
    lemma_exponent(x, e);
}

/// The level of a power, in dB above full scale.
pub fn level_db(power: PrcFmt) -> (r: PrcFmt)
    ensures
        r == level_db_of(power),
{
    fx_mul(fx_log2(fx_add(power, POWER_FLOOR)), POWER_DB_PER_OCTAVE)
}

/// The amplitude factor of a gain in dB.
pub fn db_to_linear(db: PrcFmt) -> (r: PrcFmt)
    ensures
        r == linear_of(db),
        r >= 0,
{
    fx_exp2(fx_mul(db, OCTAVES_PER_DB))
}

/// One-pole smoothing coefficient for a time constant in seconds.
pub fn smoothing_coeff(time_constant: PrcFmt, rate: PrcFmt) -> (r: PrcFmt)
    ensures
        r == coeff_of(time_constant, rate),
        r >= 0,
{
    fx_exp2(fx_mul(fx_div(fx_div(fx_neg(ONE), rate), time_constant), LOG2_E))
}

/// A power of two by its remaining digits is at most what the next root allows.
proof fn lemma_exp2_digits_bound(y: int, rest: int, i: nat)
    requires
        i <= 48,
        0x4000_0000_0000_0000 <= y,
        y * two_root(i) <= 0x2000_0000_0000_0000_0000_0000_0000_0000,
    ensures
        exp2_digits(y, rest, i as int) * 0x4000_0000_0000_0000 <= y * two_root(i),
    decreases 48 - i,
{
    if i == 48 {
        lemma_root_chain(48);
        assert(y * 0x4000_0000_0000_0000 <= y * two_root(48)) by (nonlinear_arith)
            requires
                0 <= y,
                0x4000_0000_0000_0000 <= two_root(48),
        ;
    } else {
        lemma_exp2_step(y, i);
        if rest >= 0x8000_0000_0000 {
            lemma_exp2_digits_bound(
                y * two_root(i + 1) / 0x4000_0000_0000_0000,
                (rest - 0x8000_0000_0000) * 2,
                i + 1,
            );
        } else {
            lemma_exp2_digits_bound(y, rest * 2, i + 1);
        }
    }
}

/// Larger digits make a larger power of two.
proof fn lemma_exp2_digits_ordered(y: int, low: int, high: int, i: nat)
    requires
        i <= 48,
        low <= high,
        0x4000_0000_0000_0000 <= y,
        y * two_root(i) <= 0x2000_0000_0000_0000_0000_0000_0000_0000,
    ensures
        exp2_digits(y, low, i as int) <= exp2_digits(y, high, i as int),
    decreases 48 - i,
{
    if i < 48 {
        lemma_exp2_step(y, i);
        let next = y * two_root(i + 1) / 0x4000_0000_0000_0000;
        if low >= 0x8000_0000_0000 {
            lemma_exp2_digits_ordered(
                next,
                (low - 0x8000_0000_0000) * 2,
                (high - 0x8000_0000_0000) * 2,
                i + 1,
            );
        } else if high < 0x8000_0000_0000 {
            lemma_exp2_digits_ordered(y, low * 2, high * 2, i + 1);
        } else {
            lemma_exp2_digits_bound(y, low * 2, i + 1);
            lemma_exp2_digits(next, (high - 0x8000_0000_0000) * 2, i + 1);
        }
    }
}

pub proof fn lemma_exp2_fraction(t: PrcFmt)
    ensures
        0x4000_0000_0000_0000 <= exp2_fraction(t) < 0x8000_0000_0000_0000,
{
    lemma_exp2_digits(0x4000_0000_0000_0000, (t as int % ONE as int) / 0x1_0000_0000, 0);
}

/// Quotients of powers of two, compared crosswise.
proof fn lemma_quotients_ordered(m: int, d: int, n: int, e: int)
    requires
        m >= 0,
        d > 0,
        e > 0,
        m * e <= n * d,
    ensures
        m / d <= n / e,
{
    let q = m / d;
    vstd::arithmetic::div_mod::lemma_fundamental_div_mod(m, d);
    assert(q * e <= n) by (nonlinear_arith)
        requires
            q * d <= m,
            m * e <= n * d,
            d > 0,
            e > 0,
    {
        assert((q * d) * e <= m * e);
        assert((q * e) * d <= n * d);
    }
    vstd::arithmetic::div_mod::lemma_div_is_ordered(q * e, n, e);
    vstd::arithmetic::div_mod::lemma_div_multiples_vanish(q, e);
    vstd::arithmetic::mul::lemma_mul_is_commutative(q, e);
}

/// A power of two is not negative, and grows with its exponent.
pub proof fn lemma_exp2_ordered(t: PrcFmt, v: PrcFmt)
    requires
        t <= v,
    ensures
        0 <= exp2_of(t) <= exp2_of(v),
{
    reveal(exp2_of);
    let o = t as int / ONE as int;
    let p = v as int / ONE as int;
    let y = exp2_fraction(t);
    let z = exp2_fraction(v);
    lemma_exp2_fraction(t);
    lemma_exp2_fraction(v);
    lemma2_to64();
    if o < 47 {
        lemma_exp2_in_range(t);
    }
    if p < 47 {
        lemma_exp2_in_range(v);
        if o == p {
            lemma_exp2_digits_ordered(
                0x4000_0000_0000_0000,
                (t as int % ONE as int) / 0x1_0000_0000,
                (v as int % ONE as int) / 0x1_0000_0000,
                0,
            );
            if o >= -18 {
                assert(y * pow2((o + 18) as nat) <= z * pow2((o + 18) as nat)) by (nonlinear_arith)
                    requires
                        y <= z,
                        pow2((o + 18) as nat) >= 0,
                ;
            } else {
                lemma_pow2_pos((-18 - o) as nat);
                vstd::arithmetic::div_mod::lemma_div_is_ordered(
                    y,
                    z,
                    pow2((-18 - o) as nat) as int,
                );
            }
        } else if o >= -18 {
            let a = pow2((o + 18) as nat) as int;
            let b = pow2((p + 18) as nat) as int;
            lemma_pow2_unfold((o + 19) as nat);
            lemma_pow2_pos((o + 18) as nat);
            if o + 19 < p + 18 {
                vstd::arithmetic::power2::lemma_pow2_strictly_increases(
                    (o + 19) as nat,
                    (p + 18) as nat,
                );
            }
            assert(y * a <= z * b) by (nonlinear_arith)
                requires
                    0 <= y <= 2 * z,
                    0 < 2 * a <= b,
            ;
        } else if p >= -18 {
            let d = pow2((-18 - o) as nat) as int;
            lemma_pow2_unfold((-18 - o) as nat);
            lemma_pow2_pos((-19 - o) as nat);
            lemma_pow2_pos((p + 18) as nat);
            assert(y * 1 <= z * d) by (nonlinear_arith)
                requires
                    0 <= y <= 2 * z,
                    d >= 2,
            ;
            lemma_quotients_ordered(y, d, z, 1);
            assert(z <= z * pow2((p + 18) as nat)) by (nonlinear_arith)
                requires
                    0 <= z,
                    pow2((p + 18) as nat) >= 1,
            ;
        } else {
            let d = pow2((-18 - o) as nat) as int;
            let e = pow2((-18 - p) as nat) as int;
            lemma_pow2_pos((-18 - o) as nat);
            lemma_pow2_pos((-18 - p) as nat);
            lemma_pow2_unfold((-18 - p + 1) as nat);
            if -18 - p + 1 < -18 - o {
                vstd::arithmetic::power2::lemma_pow2_strictly_increases(
                    (-18 - p + 1) as nat,
                    (-18 - o) as nat,
                );
            }
            assert(y * e <= z * d) by (nonlinear_arith)
                requires
                    0 <= y <= 2 * z,
                    0 < 2 * e <= d,
            ;
            lemma_quotients_ordered(y, d, z, e);
        }
    }
}

/// Below 2^47, a power of two is a number.
pub proof fn lemma_exp2_in_range(t: PrcFmt)
    requires
        t as int / (ONE as int) < 47,
    ensures
        ({
            let o = t as int / (ONE as int);
            &&& o >= -18 ==> 0 <= exp2_fraction(t) * pow2((o + 18) as nat) <= i128::MAX
            &&& o < -18 ==> 0 <= exp2_fraction(t) / pow2((-18 - o) as nat) as int <= i128::MAX
        }),
{
    let o = t as int / ONE as int;
    let y = exp2_fraction(t);
    lemma_exp2_fraction(t);
    if o >= -18 {
        lemma_pow2_small((o + 18) as nat);
        let p = pow2((o + 18) as nat) as int;
        assert(0 <= y * p < 0x8000_0000_0000_0000_0000_0000_0000_0000) by (nonlinear_arith)
            requires
                0 <= y < 0x8000_0000_0000_0000,
                0 <= p <= 0x1_0000_0000_0000_0000,
        ;
    } else {
        lemma_pow2_pos((-18 - o) as nat);
        let d = pow2((-18 - o) as nat) as int;
        vstd::arithmetic::div_mod::lemma_div_pos_is_pos(y, d);
        assert(y * 1 <= y * d) by (nonlinear_arith)
            requires
                y >= 0,
                d >= 1,
        ;
        lemma_quotients_ordered(y, d, y, 1);
    }
}

proof fn lemma_exp2_no_digits(y: int, i: nat)
    requires
        i <= 48,
    ensures
        exp2_digits(y, 0, i as int) == y,
    decreases 48 - i,
{
    if i < 48 {
        lemma_exp2_no_digits(y, i + 1);
    }
}

/// Whole powers of two are exact.
pub proof fn lemma_exp2_whole(k: int)
    requires
        -80 <= k < 47,
    ensures
        exp2_of((k * ONE) as PrcFmt) == pow2((k + 80) as nat),
        pow2((k + 80) as nat) <= i128::MAX,
{
    reveal(exp2_of);
    let t = (k * ONE) as PrcFmt;
    assert(t as int / ONE as int == k);
    assert(t as int % ONE as int == 0);
    lemma_exp2_no_digits(0x4000_0000_0000_0000, 0);
    lemma2_to64();
    vstd::arithmetic::power2::lemma2_to64_rest();
    lemma_pow2_adds(63, 64);
    if k < 46 {
        vstd::arithmetic::power2::lemma_pow2_strictly_increases((k + 80) as nat, 127);
    } else {
        lemma_pow2_unfold(127);
        lemma_pow2_pos(126);
    }
    if k >= -18 {
        lemma_pow2_adds(62, (k + 18) as nat);
    } else {
        lemma_pow2_adds((k + 80) as nat, (-18 - k) as nat);
        lemma_pow2_pos((-18 - k) as nat);
        vstd::arithmetic::div_mod::lemma_div_multiples_vanish(
            pow2((k + 80) as nat) as int,
            pow2((-18 - k) as nat) as int,
        );
        vstd::arithmetic::mul::lemma_mul_is_commutative(
            pow2((k + 80) as nat) as int,
            pow2((-18 - k) as nat) as int,
        );
    }
}

/// No gain is a factor of one.
pub proof fn lemma_linear_zero()
    ensures
        linear_of(0) == ONE,
{
    lemma_prod_zero(OCTAVES_PER_DB);
    lemma_exp2_whole(0);
    lemma2_to64();
    lemma_pow2_adds(64, 16);
}

/// More gain is a larger factor.
pub proof fn lemma_linear_ordered(a: PrcFmt, b: PrcFmt)
    requires
        a <= b,
    ensures
        0 <= linear_of(a) <= linear_of(b),
{
    lemma_prod_ordered(a, b, OCTAVES_PER_DB);
    lemma_exp2_ordered(prod(a, OCTAVES_PER_DB), prod(b, OCTAVES_PER_DB));
}

/// Smoothing coefficients lie between zero and one.
pub proof fn lemma_coeff_share(time_constant: PrcFmt, rate: PrcFmt)
    requires
        time_constant >= 0,
        rate >= 0,
    ensures
        0 <= coeff_of(time_constant, rate) <= ONE,
{
    let x = quot(negated(ONE), rate);
    let y = quot(x, time_constant);
    lemma_quot_sign(negated(ONE), rate);
    lemma_quot_sign(x, time_constant);
    lemma_prod_ordered(y, 0, LOG2_E);
    lemma_exp2_ordered(prod(y, LOG2_E), 0);
    lemma_exp2_whole(0);
    lemma2_to64();
    lemma_pow2_adds(64, 16);
}

/// The place of the highest digit.
proof fn lemma_exponent_bounds(x: int)
    requires
        x > 0,
    ensures
        exponent(x) >= 0,
        pow2(exponent(x) as nat) <= x < pow2((exponent(x) + 1) as nat),
    decreases x,
{
    lemma2_to64();
    if x >= 2 {
        lemma_exponent_bounds(x / 2);
        lemma_pow2_unfold(exponent(x) as nat);
        lemma_pow2_unfold((exponent(x) + 1) as nat);
    }
}

pub proof fn lemma_mantissa_bounds(x: PrcFmt)
    requires
        x > 0,
    ensures
        0 <= exponent(x as int) <= 126,
        0x4000_0000_0000_0000 <= mantissa(x as int) < 0x8000_0000_0000_0000,
{
    let e = exponent(x as int);
    lemma_exponent_bounds(x as int);
    lemma2_to64();
    vstd::arithmetic::power2::lemma2_to64_rest();
    lemma_pow2_adds(63, 64);
    if e > 126 {
        if e > 127 {
            vstd::arithmetic::power2::lemma_pow2_strictly_increases(127, e as nat);
        }
        assert(false);
    }
    lemma_pow2_adds(e as nat, (126 - e) as nat);
    lemma_pow2_adds((e + 1) as nat, (126 - e) as nat);
    lemma_pow2_adds(62, 64);
    lemma_pow2_pos((126 - e) as nat);
    let p = pow2((126 - e) as nat) as int;
    assert(pow2(e as nat) * p <= x * p < pow2((e + 1) as nat) * p) by (nonlinear_arith)
        requires
            pow2(e as nat) <= x < pow2((e + 1) as nat),
            p > 0,
    ;
}

pub proof fn lemma_log2_digits_bounds(m: int, n: nat)
    requires
        0x4000_0000_0000_0000 <= m < 0x8000_0000_0000_0000,
    ensures
        0 <= log2_digits(m, n) < pow2(n),
    decreases n,
{
    lemma2_to64();
    if n > 0 {
        lemma_square_bounds(m);
        lemma_pow2_unfold(n);
        let square = m * m / 0x4000_0000_0000_0000;
        if square >= 0x8000_0000_0000_0000 {
            lemma_log2_digits_bounds(square / 2, (n - 1) as nat);
        } else {
            lemma_log2_digits_bounds(square, (n - 1) as nat);
        }
    }
}

pub proof fn lemma_square_bounds(m: int)
    requires
        0x4000_0000_0000_0000 <= m < 0x8000_0000_0000_0000,
    ensures
        0x4000_0000_0000_0000 <= m * m / 0x4000_0000_0000_0000 < 0x1_0000_0000_0000_0000,
{
    assert(0x1000_0000_0000_0000_0000_0000_0000_0000 <= m * m
        < 0x4000_0000_0000_0000_0000_0000_0000_0000) by (nonlinear_arith)
        requires
            0x4000_0000_0000_0000 <= m < 0x8000_0000_0000_0000,
    ;
}

proof fn lemma_log2_digits_ordered(m: int, k: int, n: nat)
    requires
        0x4000_0000_0000_0000 <= m <= k < 0x8000_0000_0000_0000,
    ensures
        log2_digits(m, n) <= log2_digits(k, n),
    decreases n,
{
    if n > 0 {
        lemma_square_bounds(m);
        lemma_square_bounds(k);
        assert(m * m <= k * k) by (nonlinear_arith)
            requires
                0 <= m <= k,
        ;
        let a = m * m / 0x4000_0000_0000_0000;
        let b = k * k / 0x4000_0000_0000_0000;
        if a >= 0x8000_0000_0000_0000 {
            lemma_log2_digits_ordered(a / 2, b / 2, (n - 1) as nat);
        } else if b < 0x8000_0000_0000_0000 {
            lemma_log2_digits_ordered(a, b, (n - 1) as nat);
        } else {
            lemma_log2_digits_bounds(a, (n - 1) as nat);
            lemma_log2_digits_bounds(b / 2, (n - 1) as nat);
        }
    }
}

/// A logarithm grows with its argument.
pub proof fn lemma_log2_ordered(x: PrcFmt, y: PrcFmt)
    requires
        x <= y,
    ensures
        log2_of(x) <= log2_of(y),
{
    reveal(log2_of);
    lemma2_to64();
    vstd::arithmetic::power2::lemma2_to64_rest();
    if y > 0 {
        lemma_mantissa_bounds(y);
        lemma_log2_digits_bounds(mantissa(y as int), 48);
    }
    if x > 0 {
        lemma_mantissa_bounds(x);
        lemma_log2_digits_bounds(mantissa(x as int), 48);
        lemma_exponent_bounds(x as int);
        lemma_exponent_bounds(y as int);
        let e = exponent(x as int);
        let f = exponent(y as int);
        if f < e {
            if f + 1 < e {
                vstd::arithmetic::power2::lemma_pow2_strictly_increases((f + 1) as nat, e as nat);
            }
            assert(false);
        }
        if e == f {
            let p = pow2((126 - e) as nat) as int;
            assert(x * p <= y * p) by (nonlinear_arith)
                requires
                    x <= y,
                    p >= 0,
            ;
            lemma_log2_digits_ordered(mantissa(x as int), mantissa(y as int), 48);
        }
    }
}

/// Logarithms of powers of two are exact: `2^e` steps are `2^(e - 80)`.
pub proof fn law_log2_is_exact_on_powers_of_two(e: nat)
    requires
        e <= 126,
    ensures
        pow2(e) <= i128::MAX,
        log2_of(pow2(e) as PrcFmt) == (e - 80) * ONE,
{
    reveal(log2_of);
    lemma2_to64();
    vstd::arithmetic::power2::lemma2_to64_rest();
    lemma_pow2_unfold(e + 1);
    lemma_pow2_pos(e);
    lemma_pow2_adds(63, 64);
    vstd::arithmetic::power2::lemma_pow2_strictly_increases(e, 127);
    lemma_exponent(pow2(e) as int, e);
    lemma_pow2_adds(e, (126 - e) as nat);
    lemma_pow2_adds(62, 64);
    lemma_log2_of_one(48);
}

proof fn lemma_log2_of_one(n: nat)
    ensures
        log2_digits(0x4000_0000_0000_0000, n) == 0,
    decreases n,
{
    if n > 0 {
        lemma_log2_of_one((n - 1) as nat);
    }
}

/// More power is a higher level.
pub proof fn law_level_grows_with_power(a: PrcFmt, b: PrcFmt)
    requires
        a <= b,
    ensures
        level_db_of(a) <= level_db_of(b),
{
    lemma_log2_ordered(sum(a, POWER_FLOOR), sum(b, POWER_FLOOR));
    lemma_prod_ordered(
        log2_of(sum(a, POWER_FLOOR)),
        log2_of(sum(b, POWER_FLOOR)),
        POWER_DB_PER_OCTAVE,
    );
}

} // verus!
