//! The per-width capability policy: epsilon, exponent extraction and the
//! precision model behind one floating-point width, offered as a trait so a
//! width is picked at compile time. The 64-bit width implements it on the
//! raw bit pattern; the contracts live on the named functions the
//! implementation calls.

use vstd::prelude::*;
use crate::bits::{EPSILON_BITS, DECIMAL_PRECISION_BITS, DECIMAL_PRECISION_DIGITS};
use crate::extended_float::ExtendedFloat;
use crate::tables::{exponent_of_bits, extra_digits_of_bits, precision_of_bits};

verus! {

/// The capability policy of a floating-point width: its epsilon and
/// threshold, and the precision model driven by the binary exponent.
pub trait Float where Self: core::marker::Sized {
    /// The smallest magnitude treated as meaningfully different from zero.
    fn epsilon() -> Self;

    /// The unbiased binary exponent, read from the bit pattern.
    fn exponent(&self) -> i16;

    /// The magnitude above which no precision adjustment is attempted.
    fn decimal_precision() -> Self;

    /// The trustworthy significant decimal digits at the neutral exponent.
    fn decimal_precision_digits() -> u16;

    /// The decimal digits the binary exponent consumes.
    fn extra_digits(&self) -> u16;

    /// The decimal digits left for the value itself.
    fn precision(&self) -> usize;
}

impl Float for u64 {
    fn epsilon() -> Self {
        EPSILON_BITS
    }

    fn exponent(&self) -> i16 {
        exponent_of_bits(*self)
    }

    fn decimal_precision() -> Self {
        DECIMAL_PRECISION_BITS
    }

    fn decimal_precision_digits() -> u16 {
        DECIMAL_PRECISION_DIGITS
    }

    fn extra_digits(&self) -> u16 {
        extra_digits_of_bits(*self)
    }

    fn precision(&self) -> usize {
        precision_of_bits(*self)
    }
}

/// A width whose values can spell themselves out faithfully.
pub trait DisplayableFloat: Float {
    /// The faithful decimal rendering of the pattern.
    fn display_value(&self) -> String;
}

impl DisplayableFloat for u64 {
    fn display_value(&self) -> String {
        ExtendedFloat::new_unchecked(*self).format()
    }
}

} // verus!
