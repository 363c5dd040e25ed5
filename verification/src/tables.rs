//! The exponent-driven precision model: how many decimal digits a binary
//! exponent consumes, and how many trustworthy digits remain. The tables are
//! pure functions of the exponent range and the digit budget, computed in
//! fixed-point integer arithmetic so every build produces the same entries.

use vstd::prelude::*;
use crate::bits::{DECIMAL_PRECISION_DIGITS, MIN_EXPONENT, spec_biased_exp};

verus! {

/// log10(2) in millionths, rounded up: enough precision that no exponent in
/// the supported range lands on the wrong side of a ceiling.
pub const LOG10_2_FIXED: i32 = 301030;

/// The fixed-point scale of `LOG10_2_FIXED`.
pub const FIXED_POINT_SCALE: i32 = 1000000;

/// Decimal digits consumed by the binary exponent: the ceiling of
/// exp * log10(2) in fixed point, never below zero.
pub open spec fn spec_extra_digits(exp: int) -> nat {
    if exp <= 0 {
        0
    } else {
        ((exp * 301030 + 999999) / 1000000) as nat
    }
}

/// Decimal digits left for the value once the exponent has taken its share.
pub open spec fn spec_precision(exp: int) -> nat {
    if spec_extra_digits(exp) > 15 {
        0
    } else {
        (15 - spec_extra_digits(exp)) as nat
    }
}

/// The unbiased binary exponent of a pattern, read from the exponent field.
pub open spec fn spec_exponent(bits: u64) -> int {
    spec_biased_exp(bits) - 1023
}

/// For positive exponents the ceiling is positive and at most 309.
pub proof fn lemma_extra_digits_bounds(exp: int)
    requires
        exp <= 1024,
    ensures
        spec_extra_digits(exp) <= 309,
        exp > 0 ==> spec_extra_digits(exp) >= 1,
{
    if exp > 0 {
        assert((exp * 301030 + 999999) / 1000000 >= 1) by {
            assert(exp * 301030 >= 301030) by {
                vstd::arithmetic::mul::lemma_mul_inequality(1, exp, 301030);
            }
        }
        assert((exp * 301030 + 999999) / 1000000 <= 309) by {
            assert(exp * 301030 <= 1024 * 301030) by {
                vstd::arithmetic::mul::lemma_mul_inequality(exp, 1024, 301030);
            }
        }
    }
}

/// Extra digits for an unbiased exponent, by the fixed-point formula.
pub fn extra_digits_of_exponent(exp: i16) -> (r: u16)
    requires
        -1023 <= exp <= 1024,
    ensures
        r == spec_extra_digits(exp as int),
        r <= 309,
{
    proof {
        lemma_extra_digits_bounds(exp as int);
    }
    if exp <= 0 {
        0
    } else {
        let num: i32 = (exp as i32) * LOG10_2_FIXED + 999999;
        (num / FIXED_POINT_SCALE) as u16
    }
}

/// Effective precision for an unbiased exponent.
pub fn precision_of_exponent(exp: i16) -> (r: usize)
    requires
        -1023 <= exp <= 1024,
    ensures
        r == spec_precision(exp as int),
        r <= 15,
{
    let extra = extra_digits_of_exponent(exp);
    if extra > DECIMAL_PRECISION_DIGITS {
        0
    } else {
        (DECIMAL_PRECISION_DIGITS - extra) as usize
    }
}

/// The table of extra decimal digits, one entry per unbiased exponent,
/// indexed from the smallest exponent up.
pub fn generate_extra_digits_table() -> (r: Vec<u16>)
    ensures
        r@.len() == 2048,
        forall|i: int| 0 <= i < 2048 ==> r@[i] == spec_extra_digits(i + MIN_EXPONENT as int),
{
    let mut table: Vec<u16> = Vec::new();
    let mut i: usize = 0;
    while i < 2048
        invariant
            i <= 2048,
            table@.len() == i,
            forall|k: int| 0 <= k < i ==> table@[k] == spec_extra_digits(k - 1023),
        decreases 2048 - i,
    {
        let exp: i16 = (i as i16) - 1023i16;
        table.push(extra_digits_of_exponent(exp));
        i = i + 1;
    }
    table
}

/// The table of effective precision, one entry per unbiased exponent,
/// indexed from the smallest exponent up.
pub fn generate_precision_table() -> (r: Vec<usize>)
    ensures
        r@.len() == 2048,
        forall|i: int| 0 <= i < 2048 ==> r@[i] == spec_precision(i + MIN_EXPONENT as int),
{
    let extra = generate_extra_digits_table();
    let mut table: Vec<usize> = Vec::new();
    let mut i: usize = 0;
    while i < 2048
        invariant
            i <= 2048,
            table@.len() == i,
            extra@.len() == 2048,
            forall|k: int| 0 <= k < 2048 ==> extra@[k] == spec_extra_digits(k - 1023),
            forall|k: int| 0 <= k < i ==> table@[k] == spec_precision(k - 1023),
        decreases 2048 - i,
    {
        let ex = extra[i];
        if ex > DECIMAL_PRECISION_DIGITS {
            table.push(0);
        } else {
            table.push((DECIMAL_PRECISION_DIGITS - ex) as usize);
        }
        i = i + 1;
    }
    table
}

/// The unbiased binary exponent of the stored pattern, read from the bit
/// field; always inside the supported range.
pub fn exponent_of_bits(bits: u64) -> (r: i16)
    ensures
        r == spec_exponent(bits),
        -1023 <= r <= 1024,
{
    let be = (bits >> 52) & 0x7FF;
    proof {
        assert((bits >> 52) & 0x7FF <= 0x7FF) by (bit_vector);
    }
    (be as i16) - 1023i16
}

/// Extra decimal digits of a pattern's exponent.
pub fn extra_digits_of_bits(bits: u64) -> (r: u16)
    ensures
        r == spec_extra_digits(spec_exponent(bits)),
{
    extra_digits_of_exponent(exponent_of_bits(bits))
}

/// Effective decimal precision of a pattern's exponent.
pub fn precision_of_bits(bits: u64) -> (r: usize)
    ensures
        r == spec_precision(spec_exponent(bits)),
        r <= 15,
{
    precision_of_exponent(exponent_of_bits(bits))
}

} // verus!
