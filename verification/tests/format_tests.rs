use extended_float::{generate_extra_digits_table, generate_precision_table, ExtendedFloat};

const EPSILON_F64: f64 = 1.0e-12;
const DECIMAL_PRECISION_F64: f64 = 1.0e15;

fn ef_raw(x: f64) -> ExtendedFloat {
    ExtendedFloat::new_unchecked(x.to_bits())
}

#[test]
fn test_zero_formatting() {
    // Test values near zero are formatted as "0"
    assert_eq!(ef_raw(EPSILON_F64).format(), "0");
    assert_eq!(ef_raw(-EPSILON_F64).format(), "0");
    assert_eq!(ef_raw(0.0000000000000001).format(), "0");
}

#[test]
fn test_special_values() {
    // Test NaN and infinity formatting
    assert_eq!(ef_raw(f64::NAN).format(), "NaN");
    assert_eq!(ef_raw(f64::INFINITY).format(), "inf");
    assert_eq!(ef_raw(f64::NEG_INFINITY).format(), "-inf");
}

#[test]
fn test_trailing_zeros_removal() {
    // Test trailing zeros and decimal point are removed correctly
    assert_eq!(ef_raw(123.4560).format(), "123.456");
    assert_eq!(ef_raw(123.0000).format(), "123");
    assert_eq!(ef_raw(0.00100).format(), "0.001");
    assert_eq!(ef_raw(1234.50).format(), "1234.5");
}

#[test]
fn test_decimal_precision() {
    // Test regular decimals with different precision
    assert_eq!(ef_raw(0.1).format(), "0.1");
    assert_eq!(ef_raw(0.01).format(), "0.01");
    assert_eq!(ef_raw(0.001).format(), "0.001");
    assert_eq!(ef_raw(0.0001).format(), "0.0001");
    assert_eq!(ef_raw(0.12345678).format(), "0.12345678");
    assert_eq!(ef_raw(1234.56).format(), "1234.56");
}

#[test]
fn test_rounding_behavior() {
    // Test rounding behavior at precision boundaries
    assert_eq!(ef_raw(0.5000000000000001).format(), "0.5");
    assert_eq!(ef_raw(0.4999999999999999).format(), "0.5");
    assert_eq!(ef_raw(1.5000000000000001).format(), "1.5");
}

#[test]
fn test_precision_boundary() {
    // Test values at the precision boundary (14-15 digits)
    assert_eq!(ef_raw(4.00000000000001).format(), "4.00000000000001");
    assert_eq!(ef_raw(4.000000000000001).format(), "4");
    assert_eq!(ef_raw(-4.00000000000001).format(), "-4.00000000000001");
    assert_eq!(ef_raw(-4.000000000000001).format(), "-4");
}

#[test]
fn test_constants() {
    // Test mathematical constants
    assert_eq!(ef_raw(std::f64::consts::PI).format(), "3.14159265358979");
    assert_eq!(ef_raw(std::f64::consts::E).format(), "2.71828182845905");
}

#[test]
fn test_values_near_one() {
    // Test values near 1.0 with different precision
    assert_eq!(ef_raw(0.999999999999999).format(), "0.999999999999999");
    assert_eq!(ef_raw(0.9999999999999999).format(), "1");
    assert_eq!(ef_raw(-0.999999999999999).format(), "-0.999999999999999");
    assert_eq!(ef_raw(-0.9999999999999999).format(), "-1");
    assert_eq!(ef_raw(0.99999999999999).format(), "0.99999999999999");
    assert_eq!(ef_raw(0.999999999999995).format(), "0.999999999999995");
    assert_eq!(ef_raw(0.9999999999999995).format(), "0.999999999999999");
    assert_eq!(ef_raw(0.999999999999991).format(), "0.999999999999991");
    assert_eq!(ef_raw(0.9999999999999991).format(), "0.999999999999999");
}

#[test]
fn test_dynamic_precision() {
    // Test dynamically calculated precision cases
    for i in 0..(DECIMAL_PRECISION_F64.log10().abs().ceil() + 5.) as usize {
        let precision = if i >= 15 { 0 } else { i };

        for j in 1..5 {
            let value = 4.0 + (j as f64) / 10.0_f64.powf(i as f64);
            let expected = format!("{:.*}", precision, value);
            let actual = ef_raw(value).format();
            assert_eq!(actual, expected, "Failed for precision {} value {}", i, value);
        }
    }
}

#[test]
fn test_parse_format_equivalence() {
    // Test that parsing the formatted string back to f64 gives equivalent results
    let test_values = vec![
        1.23456789,
        0.0000123456789,
        123456.789,
        -1.23456789,
        0.999999999999999,
        1.0,
        0.1,
        0.01,
        0.001,
    ];

    for value in test_values {
        let formatted = ef_raw(value).format();
        let parsed: f64 = formatted.parse().unwrap();

        // Check that difference is within epsilon
        assert!(
            (value - parsed).abs() <= EPSILON_F64 * 10.0,
            "Failed equivalence for value: {}, formatted: {}, parsed: {}, diff: {}",
            value,
            formatted,
            parsed,
            (value - parsed).abs()
        );
    }
}

#[test]
fn test_format_idempotent_round_trip() {
    // parsing the rendered string re-renders to the same string
    let values = [0.1, 123.456, -9876.5432101, 4.00000000000001, 1.5e3, 2.0e-12];
    for &v in values.iter() {
        let printed = ef_raw(v).format();
        let back: f64 = printed.parse().unwrap();
        assert_eq!(ef_raw(back).format(), printed);
        // and the parsed value is tolerant-equal to the original
        assert_eq!(ExtendedFloat::new(back.to_bits()), ExtendedFloat::new(v.to_bits()));
    }
}

#[test]
fn test_sample_end_to_end() {
    // parsing "1.5e3" gives a value tolerant-equal to 1500.0
    let v: f64 = fast_float::parse("1.5e3").unwrap();
    let parsed = ExtendedFloat::try_new(v.to_bits()).unwrap();
    assert_eq!(parsed, ExtendedFloat::new(1500.0f64.to_bits()));

    // while these inputs are all rejected
    fn parse_checked(s: &str) -> Option<ExtendedFloat> {
        let v: f64 = fast_float::parse(s).ok()?;
        ExtendedFloat::try_new(v.to_bits())
    }
    assert!(parse_checked("NaN").is_none());
    assert!(parse_checked("").is_none());
    assert!(parse_checked("1/1").is_none());
    assert!(parse_checked("  42.5  ").is_none());
}

#[test]
fn test_tables() {
    let extra = generate_extra_digits_table();
    let precision = generate_precision_table();
    assert_eq!(extra.len(), 2048);
    assert_eq!(precision.len(), 2048);
    // the neutral exponent costs nothing; positive exponents cost digits
    assert_eq!(extra[1023], 0);
    assert_eq!(precision[1023], 15);
    assert_eq!(extra[1024], 1); // exponent 1: ceil(0.30103) == 1
    assert_eq!(precision[1024], 14);
    assert_eq!(extra[1023 + 10], 4); // exponent 10: ceil(3.0103) == 4
    assert_eq!(precision[1023 + 10], 11);
    assert_eq!(extra[1023 - 10], 0); // negative exponents cost nothing
    assert_eq!(precision[1023 - 10], 15);
    // the largest exponent eats the whole budget
    assert_eq!(extra[2047], 309); // ceil(1024 * log10(2)) == 309
    assert_eq!(precision[2047], 0);
}

#[test]
fn test_border_cases() {
    // Border cases, should be formatted as is
    assert_eq!(ef_raw(f64::MAX).format(), f64::MAX.to_string());
    assert_eq!(ef_raw(f64::MIN).format(), f64::MIN.to_string());

    // Sub-border cases which can lead to inf
    let max_sub_border_plus = f64::MAX / DECIMAL_PRECISION_F64 + 1.0;
    let min_sub_border_minus = f64::MIN / DECIMAL_PRECISION_F64 - 1.0;
    assert_eq!(
        ef_raw(max_sub_border_plus).format(),
        max_sub_border_plus.to_string()
    );
    assert_eq!(
        ef_raw(min_sub_border_minus).format(),
        min_sub_border_minus.to_string()
    );

    // Sub-border cases which almost can lead to inf
    let max_sub_border_minus = f64::MAX / DECIMAL_PRECISION_F64 - 1.0;
    let min_sub_border_plus = f64::MIN / DECIMAL_PRECISION_F64 + 1.0;
    assert_eq!(
        ef_raw(max_sub_border_minus).format(),
        max_sub_border_minus.to_string()
    );
    assert_eq!(
        ef_raw(min_sub_border_plus).format(),
        min_sub_border_plus.to_string()
    );
}

#[test]
fn test_large_magnitude_passthrough() {
    // values above the precision threshold print as the platform does
    let values = [
        1.0e16,
        2.5e16,
        9007199254740992.0,
        1234567890123456.8,
        6.02214076e23,
        -3.14e300,
        1.7976931348623157e308,
        1000000000000000.1,
    ];
    for &v in values.iter() {
        assert_eq!(ef_raw(v).format(), v.to_string());
    }
}
