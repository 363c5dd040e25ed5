//! A safe wrapper around IEEE 754 binary64 values, modelled by their bit
//! patterns: construction rejects NaN and infinities, comparison is tolerant
//! (absolute near zero, relative away from it), and formatting renders the
//! shortest decimal string that is faithful to the value's effective
//! precision.

pub mod bigfmt;
pub mod bits;
pub mod compare;
pub mod dyadic;
pub mod extended_float;
pub mod fmt;
pub mod ops;
pub mod ord;
pub mod round;
pub mod tables;
pub mod traits;

pub use bits::EPSILON_BITS;
pub use bits::DECIMAL_PRECISION_BITS;
pub use bits::DECIMAL_PRECISION_DIGITS;
pub use bits::MIN_EXPONENT;
pub use bits::MAX_EXPONENT;
pub use bits::EXPONENT_RANGE;
pub use extended_float::ExtendedFloat;
pub use extended_float::ConversionError;
pub use extended_float::FromStrError;
pub use ops::CheckedFloatOps;
pub use ord::equal_option;
pub use ord::sort;
pub use traits::Float;
pub use traits::DisplayableFloat;
pub use tables::generate_extra_digits_table;
pub use tables::generate_precision_table;
