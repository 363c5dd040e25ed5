use extended_float::{ConversionError, DisplayableFloat, ExtendedFloat, Float};

fn ef(x: f64) -> ExtendedFloat {
    ExtendedFloat::new(x.to_bits())
}

#[test]
fn test_try_new_validation() {
    // Valid values should be accepted
    assert!(ExtendedFloat::try_new(1.0f64.to_bits()).is_some());
    assert!(ExtendedFloat::try_new((-1.0f64).to_bits()).is_some());
    assert!(ExtendedFloat::try_new(0.0f64.to_bits()).is_some());

    // Invalid values should be rejected
    assert!(ExtendedFloat::try_new(f64::NAN.to_bits()).is_none());
    assert!(ExtendedFloat::try_new(f64::INFINITY.to_bits()).is_none());
    assert!(ExtendedFloat::try_new(f64::NEG_INFINITY.to_bits()).is_none());
}

#[test]
fn test_default() {
    let item = ExtendedFloat::default();
    assert_eq!(item.downgrade(), 0.0f64.to_bits());
}

#[test]
fn test_try_from_value() {
    assert!(ExtendedFloat::try_from_value(1.0f64.to_bits()).is_ok());
    assert!(ExtendedFloat::try_from_value((-100.5f64).to_bits()).is_ok());
    assert!(ExtendedFloat::try_from_value(0.0f64.to_bits()).is_ok());

    assert_eq!(
        ExtendedFloat::try_from_value(f64::NAN.to_bits()).unwrap_err(),
        ConversionError::NaN
    );
    assert_eq!(
        ExtendedFloat::try_from_value(f64::INFINITY.to_bits()).unwrap_err(),
        ConversionError::Infinite
    );
    assert_eq!(
        ExtendedFloat::try_from_value(f64::NEG_INFINITY.to_bits()).unwrap_err(),
        ConversionError::Infinite
    );
}

#[test]
fn test_from_valid_values() {
    let value = 123.456f64;
    let extended = ef(value);
    assert_eq!(extended.downgrade(), value.to_bits());

    let value = -123.456f64;
    let extended = ef(value);
    assert_eq!(extended.downgrade(), value.to_bits());

    let extended = ef(std::f64::consts::PI);
    assert_eq!(extended.downgrade(), std::f64::consts::PI.to_bits());

    let extended = ef(0.0);
    assert_eq!(extended.downgrade(), 0.0f64.to_bits());
}

#[test]
fn test_into_f64() {
    let extended = ef(123.456);
    let value = f64::from_bits(extended.downgrade());
    assert_eq!(value, 123.456);

    let extended = ef(-123.456);
    let value = f64::from_bits(extended.downgrade());
    assert_eq!(value, -123.456);
}

#[test]
fn test_update_and_predicates() {
    let mut v = ef(2.5);
    v.update(7.25f64.to_bits());
    assert_eq!(v.downgrade(), 7.25f64.to_bits());
    assert!(!v.is_nan());
    assert!(!v.is_infinite());
    assert!(v.is_sign_positive());
    assert!(!v.is_sign_negative());

    let mut w = ExtendedFloat::new_unchecked(f64::NAN.to_bits());
    assert!(w.is_nan());
    assert!(!w.is_infinite());
    w.update_unchecked(f64::NEG_INFINITY.to_bits());
    assert!(w.is_infinite());
    assert!(w.is_sign_negative());
}

#[test]
fn test_constants_match_platform() {
    assert_eq!(extended_float::EPSILON_BITS, 1.0e-12f64.to_bits());
    assert_eq!(extended_float::DECIMAL_PRECISION_BITS, 1.0e15f64.to_bits());
    assert_eq!(extended_float::DECIMAL_PRECISION_DIGITS, 15u16);
    assert_eq!(extended_float::MIN_EXPONENT, -1023i16);
    assert_eq!(extended_float::MAX_EXPONENT, 1024i16);
    assert_eq!(extended_float::EXPONENT_RANGE, 2048usize);
}

#[test]
fn test_from_str_valid() {
    let v: f64 = fast_float::parse("42.42").unwrap();
    let ef_v = ExtendedFloat::try_new(v.to_bits()).unwrap();
    assert_eq!(ef_v.downgrade(), 42.42f64.to_bits());

    let v: f64 = fast_float::parse("42").unwrap();
    let ef_v = ExtendedFloat::try_new(v.to_bits()).unwrap();
    assert_eq!(ef_v.downgrade(), 42.0f64.to_bits());

    // Scientific notation
    let v: f64 = fast_float::parse("1.5e3").unwrap();
    let ef_v = ExtendedFloat::try_new(v.to_bits()).unwrap();
    assert_eq!(ef_v.downgrade(), 1500.0f64.to_bits());

    let v: f64 = fast_float::parse("1.5E-3").unwrap();
    let ef_v = ExtendedFloat::try_new(v.to_bits()).unwrap();
    assert_eq!(ef_v.downgrade(), 0.0015f64.to_bits());

    // Negative numbers
    let v: f64 = fast_float::parse("-123.456").unwrap();
    let ef_v = ExtendedFloat::try_new(v.to_bits()).unwrap();
    assert_eq!(ef_v.downgrade(), (-123.456f64).to_bits());

    // Edge cases
    let v: f64 = fast_float::parse("0.0").unwrap();
    let ef_v = ExtendedFloat::try_new(v.to_bits()).unwrap();
    assert_eq!(ef_v.downgrade(), 0.0f64.to_bits());

    let v: f64 = fast_float::parse("0").unwrap();
    let ef_v = ExtendedFloat::try_new(v.to_bits()).unwrap();
    assert_eq!(ef_v.downgrade(), 0.0f64.to_bits());

    let v: f64 = fast_float::parse("9007199254740992").unwrap();
    let ef_v = ExtendedFloat::try_new(v.to_bits()).unwrap();
    assert_eq!(ef_v.downgrade(), 9007199254740992.0f64.to_bits());
}

#[test]
fn test_from_str_invalid() {
    fn parse_checked(s: &str) -> Option<ExtendedFloat> {
        let v: f64 = fast_float::parse(s).ok()?;
        ExtendedFloat::try_new(v.to_bits())
    }

    assert!(parse_checked("not_a_number").is_none());
    assert!(parse_checked("").is_none());
    assert!(parse_checked("-").is_none());
    assert!(parse_checked("+").is_none());
    assert!(parse_checked("1/1").is_none());

    // Special floating point values are parsed but then rejected
    assert!(parse_checked("NaN").is_none());
    assert!(parse_checked("Infinity").is_none());
    assert!(parse_checked("-Infinity").is_none());

    // Malformed numbers
    assert!(parse_checked("1.2.3").is_none());
    assert!(parse_checked("1e").is_none());
    assert!(parse_checked("e10").is_none());
    assert!(parse_checked("123abc").is_none());
    assert!(parse_checked("0x123").is_none());

    // Whitespace is not accepted around numbers
    assert!(parse_checked("  42.5  ").is_none());
}

#[test]
fn test_float_capability_policy() {
    assert_eq!(<u64 as Float>::epsilon(), 1.0e-12f64.to_bits());
    assert_eq!(<u64 as Float>::decimal_precision(), 1.0e15f64.to_bits());
    assert_eq!(<u64 as Float>::decimal_precision_digits(), 15);
    let four = 4.0f64.to_bits();
    assert_eq!(four.exponent(), 2);
    assert_eq!(four.extra_digits(), 1);
    assert_eq!(four.precision(), 14);
    let half = 0.5f64.to_bits();
    assert_eq!(half.exponent(), -1);
    assert_eq!(half.extra_digits(), 0);
    assert_eq!(half.precision(), 15);
    assert_eq!(123.456f64.to_bits().display_value(), "123.456");
}
