//! The numbers that the formulas of the curves are written with.
use crate::double::{lemma_magnitude_increases, one_step, Double, HIDDEN, INFINITE};
use vstd::arithmetic::power2::*;
use vstd::prelude::*;

verus! {

/// Zero.
pub const ZERO: u64 = 0;

/// 0.000000001
pub const BILLIONTH: u64 = 0x3e11_2e0b_e826_d695;

/// 0.000001
pub const MILLIONTH: u64 = 0x3eb0_c6f7_a0b5_ed8d;

/// 0.001
pub const THOUSANDTH: u64 = 0x3f50_624d_d2f1_a9fc;

/// 0.05
pub const TWENTIETH: u64 = 0x3fa9_9999_9999_999a;

/// 0.5
pub const HALF: u64 = 0x3fe0_0000_0000_0000;

/// 0.999
pub const ALMOST_ONE: u64 = 0x3fef_f7ce_d916_872b;

/// 1
pub const ONE: u64 = 0x3ff0_0000_0000_0000;

/// 2
pub const TWO: u64 = 0x4000_0000_0000_0000;

/// 3
pub const THREE: u64 = 0x4008_0000_0000_0000;

/// The ratio of a circle's circumference to its diameter.
pub const PI: u64 = 0x4009_21fb_5444_2d18;

/// 4
pub const FOUR: u64 = 0x4010_0000_0000_0000;

/// 8
pub const EIGHT: u64 = 0x4020_0000_0000_0000;

/// 65535
pub const MOST_POINTS: u64 = 0x40ef_ffe0_0000_0000;

/// The number with the given bit pattern.
pub open spec fn number(bits: u64) -> Double {
    Double { bits }
}

/// Positive numbers are ordered as their patterns.
pub proof fn lemma_number_order(a: u64, b: u64)
    requires
        a <= b <= INFINITE,
    ensures
        number(a).at_most(number(b)),
        a < b ==> number(a).less(number(b)),
{
    if a < b {
        lemma_magnitude_increases(a as nat, b as nat);
    }
}

/// One is one unit.
pub proof fn lemma_one()
    ensures
        number(ONE).finite(),
        !number(ONE).negative(),
        number(ONE).magnitude() == one_step(),
{
    lemma2_to64_rest();
    lemma_pow2_adds(52, 1022);
    assert(number(ONE).pattern() == ONE);
    assert(number(ONE).shift() == 1022);
    assert(number(ONE).significand() == HIDDEN);
}

/// Two is two units.
pub proof fn lemma_two()
    ensures
        number(TWO).finite(),
        !number(TWO).negative(),
        number(TWO).magnitude() == 2 * one_step(),
{
    lemma2_to64_rest();
    lemma_pow2_adds(52, 1023);
    lemma_pow2_unfold(1075);
    assert(number(TWO).shift() == 1023);
    assert(number(TWO).significand() == HIDDEN);
}

} // verus!
