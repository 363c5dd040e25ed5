//! The IEEE 754 binary64 layout: sign, biased exponent and fraction fields of
//! a bit pattern, and the exact value they denote, expressed as an integer in
//! units of 2^-1074 (the weight of the least significant subnormal bit).

use vstd::prelude::*;
use vstd::arithmetic::power2::pow2;

verus! {

/// Bit pattern of the 64-bit epsilon, 1.0e-12: the smallest magnitude treated
/// as meaningfully different from zero.
pub const EPSILON_BITS: u64 = 0x3D71_9799_812D_EA11;

/// Bit pattern of the 64-bit precision threshold, 1.0e15: above this
/// magnitude no precision adjustment is attempted when formatting.
pub const DECIMAL_PRECISION_BITS: u64 = 0x430C_6BF5_2634_0000;

/// Number of trustworthy significant decimal digits for a 64-bit value at the
/// neutral exponent; a conservative figure below the width's true capacity.
pub const DECIMAL_PRECISION_DIGITS: u16 = 15;

/// Smallest unbiased binary exponent of a 64-bit value.
pub const MIN_EXPONENT: i16 = -1023;

/// Largest unbiased binary exponent of a 64-bit value.
pub const MAX_EXPONENT: i16 = 1024;

/// Number of distinct unbiased exponents, the length of the lookup tables.
pub const EXPONENT_RANGE: usize = 2048;

/// Mantissa of the epsilon: EPSILON_BITS denotes exactly
/// 4951760157141521 * 2^-92.
pub const EPSILON_MANTISSA: u64 = 4951760157141521;

/// Scale of the epsilon's mantissa in units of 2^-1074.
pub const EPSILON_SCALE: u64 = 982;

/// Sign bit of a pattern: set for negative values.
pub open spec fn spec_sign(bits: u64) -> bool {
    bits >> 63 == 1
}

/// The 11-bit biased exponent field.
pub open spec fn spec_biased_exp(bits: u64) -> u64 {
    (bits >> 52) & 0x7FF
}

/// The 52-bit fraction field.
pub open spec fn spec_frac(bits: u64) -> u64 {
    bits & 0x000F_FFFF_FFFF_FFFF
}

/// A pattern is NaN when the exponent field is saturated and the fraction is
/// not zero.
pub open spec fn spec_is_nan(bits: u64) -> bool {
    spec_biased_exp(bits) == 0x7FF && spec_frac(bits) != 0
}

/// A pattern is infinite when the exponent field is saturated and the
/// fraction is zero.
pub open spec fn spec_is_inf(bits: u64) -> bool {
    spec_biased_exp(bits) == 0x7FF && spec_frac(bits) == 0
}

/// A pattern denotes a finite value when the exponent field is not saturated.
pub open spec fn spec_is_finite(bits: u64) -> bool {
    spec_biased_exp(bits) != 0x7FF
}

/// A valid value is a finite one: neither NaN nor infinite.
pub open spec fn spec_is_valid(bits: u64) -> bool {
    spec_is_finite(bits)
}

/// Mantissa of a pattern, with the implicit leading bit for normal values;
/// always below 2^53.
pub open spec fn spec_mantissa(bits: u64) -> u64 {
    if spec_biased_exp(bits) == 0 {
        spec_frac(bits)
    } else {
        (spec_frac(bits) + 0x0010_0000_0000_0000) as u64
    }
}

/// Power of two that weights the mantissa, in units of 2^-1074: zero for
/// subnormals, the biased exponent less one for normal values.
pub open spec fn spec_scale(bits: u64) -> nat {
    if spec_biased_exp(bits) == 0 {
        0
    } else {
        (spec_biased_exp(bits) - 1) as nat
    }
}

/// Magnitude of the denoted value in units of 2^-1074.
pub open spec fn spec_mag(bits: u64) -> nat {
    (spec_mantissa(bits) as nat) * pow2(spec_scale(bits))
}

/// Exact signed value denoted by a finite pattern, in units of 2^-1074.
pub open spec fn spec_val(bits: u64) -> int {
    if spec_sign(bits) {
        -(spec_mag(bits) as int)
    } else {
        spec_mag(bits) as int
    }
}

/// Splits a pattern into sign, mantissa and scale, with the bounds that the
/// field widths force.
pub fn decompose(bits: u64) -> (r: (bool, u64, u64))
    ensures
        r.0 == spec_sign(bits),
        r.1 == spec_mantissa(bits),
        r.2 == spec_scale(bits),
        r.1 < 0x20_0000_0000_0000,
        r.2 <= 2046,
        spec_biased_exp(bits) == 0 ==> r.1 < 0x10_0000_0000_0000,
        spec_biased_exp(bits) != 0 ==> r.1 >= 0x10_0000_0000_0000,
        spec_is_finite(bits) ==> r.2 <= 2045,
{
    let sign = bits >> 63 == 1;
    let be = (bits >> 52) & 0x7FF;
    let fr = bits & 0x000F_FFFF_FFFF_FFFF;
    assert(fr < 0x10_0000_0000_0000 && be <= 0x7FF) by (bit_vector)
        requires
            be == (bits >> 52) & 0x7FF,
            fr == bits & 0x000F_FFFF_FFFF_FFFF,
    ;
    if be == 0 {
        (sign, fr, 0)
    } else {
        (sign, fr + 0x0010_0000_0000_0000, be - 1)
    }
}

/// Whether the pattern is NaN.
pub fn exec_is_nan(bits: u64) -> (r: bool)
    ensures
        r == spec_is_nan(bits),
{
    (bits >> 52) & 0x7FF == 0x7FF && bits & 0x000F_FFFF_FFFF_FFFF != 0
}

/// Whether the pattern is infinite.
pub fn exec_is_inf(bits: u64) -> (r: bool)
    ensures
        r == spec_is_inf(bits),
{
    (bits >> 52) & 0x7FF == 0x7FF && bits & 0x000F_FFFF_FFFF_FFFF == 0
}

/// Whether the pattern denotes a finite value.
pub fn exec_is_valid(bits: u64) -> (r: bool)
    ensures
        r == spec_is_valid(bits),
{
    (bits >> 52) & 0x7FF != 0x7FF
}

} // verus!
