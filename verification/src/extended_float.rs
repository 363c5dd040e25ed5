//! The validated value: a wrapper around one binary64 bit pattern whose
//! checked constructors and mutators refuse NaN and infinities.

use vstd::prelude::*;
use crate::bits::{
    spec_is_nan, spec_is_inf, spec_is_valid, spec_sign,
    exec_is_nan, exec_is_inf,
};

verus! {

/// Why a raw value was refused: it was NaN, or it was infinite.
#[derive(Debug, Clone, Copy, PartialEq, Eq, Structural)]
pub enum ConversionError {
    NaN,
    Infinite,
}

/// Why a string was refused: it did not denote a finite number.
#[derive(Debug, Clone, Copy, PartialEq, Eq, Structural)]
pub enum FromStrError {
    Invalid,
}

/// A binary64 value held as its bit pattern. The checked constructors and
/// mutators keep it finite; `new_unchecked` and `update_unchecked` can store
/// any pattern, and the comparison and formatting paths stay defensive about
/// NaN and infinities on that account.
#[derive(Debug, Clone, Copy)]
pub struct ExtendedFloat {
    pub bits: u64,
}

impl ExtendedFloat {
    /// The stored pattern is neither NaN nor infinite.
    pub open spec fn is_valid(&self) -> bool {
        spec_is_valid(self.bits)
    }

    /// Creates a value from a raw pattern. Refusing NaN and infinite input is
    /// the caller's burden here; `try_new` reports it instead.
    pub fn new(bits: u64) -> (r: Self)
        requires
            spec_is_valid(bits),
        ensures
            r.bits == bits,
    {
        ExtendedFloat { bits }
    }

    /// Creates a value from a raw pattern, or nothing when the pattern is NaN
    /// or infinite.
    pub fn try_new(bits: u64) -> (r: Option<Self>)
        ensures
            r is Some <==> spec_is_valid(bits),
            r is Some ==> r->0.bits == bits,
    {
        match Self::try_from_value(bits) {
            Ok(v) => Some(v),
            Err(_) => None,
        }
    }

    /// Creates a value from a raw pattern, telling NaN and infinite input
    /// apart in the error.
    pub fn try_from_value(bits: u64) -> (r: Result<Self, ConversionError>)
        ensures
            r is Ok <==> spec_is_valid(bits),
            r is Ok ==> r->Ok_0.bits == bits,
            spec_is_nan(bits) ==> r == Result::<Self, ConversionError>::Err(ConversionError::NaN),
            spec_is_inf(bits) ==> r == Result::<Self, ConversionError>::Err(ConversionError::Infinite),
    {
        if exec_is_nan(bits) {
            Err(ConversionError::NaN)
        } else if exec_is_inf(bits) {
            Err(ConversionError::Infinite)
        } else {
            Ok(ExtendedFloat { bits })
        }
    }

    /// Stores a raw pattern without validation. The caller is expected to
    /// have validated it; an invalid pattern makes comparison and formatting
    /// fall back to their defensive paths.
    pub fn new_unchecked(bits: u64) -> (r: Self)
        ensures
            r.bits == bits,
    {
        ExtendedFloat { bits }
    }

    /// Hands back the raw pattern.
    pub fn downgrade(&self) -> (r: u64)
        ensures
            r == self.bits,
    {
        self.bits
    }

    /// Replaces the stored pattern. Refusing NaN and infinite input is the
    /// caller's burden here.
    pub fn update(&mut self, bits: u64)
        requires
            spec_is_valid(bits),
        ensures
            final(self).bits == bits,
    {
        self.bits = bits;
    }

    /// Replaces the stored pattern without validation.
    pub fn update_unchecked(&mut self, bits: u64)
        ensures
            final(self).bits == bits,
    {
        self.bits = bits;
    }

    /// Whether the stored pattern is infinite; false for every value built by
    /// a checked constructor.
    pub fn is_infinite(&self) -> (r: bool)
        ensures
            r == spec_is_inf(self.bits),
    {
        exec_is_inf(self.bits)
    }

    /// Whether the stored pattern is NaN; false for every value built by a
    /// checked constructor.
    pub fn is_nan(&self) -> (r: bool)
        ensures
            r == spec_is_nan(self.bits),
    {
        exec_is_nan(self.bits)
    }

    /// Whether the sign bit is clear.
    pub fn is_sign_positive(&self) -> (r: bool)
        ensures
            r == !spec_sign(self.bits),
    {
        !self.is_sign_negative()
    }

    /// Whether the sign bit is set.
    pub fn is_sign_negative(&self) -> (r: bool)
        ensures
            r == spec_sign(self.bits),
    {
        let r = self.bits >> 63 == 1;
        r
    }
}

impl Default for ExtendedFloat {
    /// The default value is positive zero.
    fn default() -> (r: Self)
        ensures
            r.bits == 0,
    {
        ExtendedFloat { bits: 0 }
    }
}

} // verus!
