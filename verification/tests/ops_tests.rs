use extended_float::{CheckedFloatOps, ConversionError, ExtendedFloat};

const EPSILON_F64: f64 = 1.0e-12;

fn ef(x: f64) -> ExtendedFloat {
    ExtendedFloat::new(x.to_bits())
}

#[test]
fn test_checked_operations() {
    // Regular cases should succeed
    let a = ef(10.0);
    let b = ef(2.0);

    assert_eq!(a.checked_add(b).unwrap(), ef(12.0));
    assert_eq!(a.checked_sub(b).unwrap(), ef(8.0));
    assert_eq!(a.checked_mul(b).unwrap(), ef(20.0));
    assert_eq!(a.checked_div(b).unwrap(), ef(5.0));
    assert_eq!(a.checked_rem(b).unwrap(), ef(0.0));

    // Division by zero should return None
    let zero = ef(0.0);
    assert!(a.checked_div(zero).is_none());
    assert!(a.checked_rem(zero).is_none());

    // Overflow cases
    let huge = ef(f64::MAX / 2.0);
    assert!(huge.checked_mul(ef(3.0)).is_none());
}

#[test]
fn test_try_operations() {
    // Regular cases should succeed
    let a = ef(10.0);
    let b = ef(2.0);

    assert_eq!(a.try_add(b).unwrap(), ef(12.0));
    assert_eq!(a.try_sub(b).unwrap(), ef(8.0));
    assert_eq!(a.try_mul(b).unwrap(), ef(20.0));
    assert_eq!(a.try_div(b).unwrap(), ef(5.0));
    assert_eq!(a.try_rem(b).unwrap(), ef(0.0));

    // Division by zero should return an error
    let zero = ef(0.0);
    assert_eq!(a.try_div(zero).unwrap_err(), ConversionError::Infinite);
    assert_eq!(a.try_rem(zero).unwrap_err(), ConversionError::NaN);

    // Overflow cases
    let huge = ef(f64::MAX / 2.0);
    assert_eq!(huge.try_mul(ef(3.0)).unwrap_err(), ConversionError::Infinite);
}

#[test]
fn test_addition() {
    assert_eq!(ef(5.0).try_add(ef(3.0)).unwrap(), ef(8.0));
    assert_eq!(ef(-5.0).try_add(ef(3.0)).unwrap(), ef(-2.0));
    assert_eq!(ef(0.1).try_add(ef(0.2)).unwrap(), ef(0.3));

    let small = EPSILON_F64 / 2.0;
    assert_eq!(ef(0.0).try_add(ef(small)).unwrap(), ef(small));

    assert_eq!(ef(1e15).try_add(ef(1.0)).unwrap(), ef(1e15 + 1.0));

    assert_eq!(
        ef(std::f64::consts::PI).try_add(ef(std::f64::consts::E)).unwrap(),
        ef(std::f64::consts::PI + std::f64::consts::E)
    );
}

#[test]
fn test_subtraction() {
    // Basic subtraction
    assert_eq!(ef(5.0).try_sub(ef(3.0)).unwrap(), ef(2.0));
    assert_eq!(ef(-5.0).try_sub(ef(3.0)).unwrap(), ef(-8.0));

    // Test with decimals
    assert_eq!(ef(0.3).try_sub(ef(0.1)).unwrap(), ef(0.2));

    // Test with very small numbers
    let small = EPSILON_F64 / 2.0;
    assert_eq!(ef(small).try_sub(ef(small)).unwrap(), ef(0.0));

    // Test with large numbers
    assert_eq!(ef(1e15).try_sub(ef(1.0)).unwrap(), ef(1e15 - 1.0));

    // Test with special constants
    assert_eq!(
        ef(std::f64::consts::PI).try_sub(ef(std::f64::consts::E)).unwrap(),
        ef(std::f64::consts::PI - std::f64::consts::E)
    );
}

#[test]
fn test_multiplication() {
    // Basic multiplication
    assert_eq!(ef(5.0).try_mul(ef(3.0)).unwrap(), ef(15.0));
    assert_eq!(ef(-5.0).try_mul(ef(3.0)).unwrap(), ef(-15.0));
    assert_eq!(ef(-5.0).try_mul(ef(-3.0)).unwrap(), ef(15.0));

    // Test with decimals
    assert_eq!(ef(0.1).try_mul(ef(0.2)).unwrap(), ef(0.02));

    // Test with very small numbers
    let small = EPSILON_F64 / 2.0;
    assert_eq!(ef(small).try_mul(ef(2.0)).unwrap(), ef(EPSILON_F64));

    // Test with large numbers
    assert_eq!(ef(1e7).try_mul(ef(1e7)).unwrap(), ef(1e14));

    // Test with special constants
    assert_eq!(
        ef(std::f64::consts::PI).try_mul(ef(std::f64::consts::E)).unwrap(),
        ef(std::f64::consts::PI * std::f64::consts::E)
    );

    // Test with zero
    assert_eq!(ef(5.0).try_mul(ef(0.0)).unwrap(), ef(0.0));
}

#[test]
fn test_division() {
    // Basic division
    assert_eq!(ef(15.0).try_div(ef(3.0)).unwrap(), ef(5.0));
    assert_eq!(ef(-15.0).try_div(ef(3.0)).unwrap(), ef(-5.0));
    assert_eq!(ef(-15.0).try_div(ef(-3.0)).unwrap(), ef(5.0));

    // Test with decimals
    assert_eq!(ef(0.1).try_div(ef(0.5)).unwrap(), ef(0.2));

    // Test with very small numbers
    let small = EPSILON_F64 * 2.0;
    assert_eq!(ef(small).try_div(ef(2.0)).unwrap(), ef(EPSILON_F64));

    // Test with large numbers
    assert_eq!(ef(1e14).try_div(ef(1e7)).unwrap(), ef(1e7));

    // Test with special constants
    assert_eq!(
        ef(std::f64::consts::PI).try_div(ef(std::f64::consts::E)).unwrap(),
        ef(std::f64::consts::PI / std::f64::consts::E)
    );

    // Test division by 1
    assert_eq!(ef(5.0).try_div(ef(1.0)).unwrap(), ef(5.0));
}

#[test]
fn test_chain_operations() {
    // Test chaining of multiple operations
    let result = ef(10.0).try_add(ef(5.0).try_mul(ef(2.0)).unwrap()).unwrap();
    assert_eq!(result, ef(20.0));

    let result = ef(10.0).try_add(ef(5.0)).unwrap().try_mul(ef(2.0)).unwrap();
    assert_eq!(result, ef(30.0));

    let result = ef(20.0).try_sub(ef(5.0).try_div(ef(5.0)).unwrap()).unwrap();
    assert_eq!(result, ef(19.0));

    let result = ef(20.0).try_sub(ef(5.0)).unwrap().try_div(ef(5.0)).unwrap();
    assert_eq!(result, ef(3.0));
}

#[test]
fn test_add_assign() {
    let mut a = ef(5.0);
    a = a.try_add(ef(3.0)).unwrap();
    assert_eq!(a, ef(8.0));

    // Test with negative values
    let mut a = ef(5.0);
    a = a.try_add(ef(-3.0)).unwrap();
    assert_eq!(a, ef(2.0));

    // Test with decimals
    let mut a = ef(0.1);
    a = a.try_add(ef(0.2)).unwrap();
    assert_eq!(a, ef(0.3));

    // Test with very small numbers
    let small = EPSILON_F64 / 2.0;
    let mut a = ef(0.0);
    a = a.try_add(ef(small)).unwrap();
    assert_eq!(a, ef(small));

    // Test with large numbers
    let mut a = ef(1e15);
    a = a.try_add(ef(1.0)).unwrap();
    assert_eq!(a, ef(1e15 + 1.0));
}

#[test]
fn test_sub_assign() {
    let mut a = ef(5.0);
    a = a.try_sub(ef(3.0)).unwrap();
    assert_eq!(a, ef(2.0));

    // Test with negative values
    let mut a = ef(5.0);
    a = a.try_sub(ef(-3.0)).unwrap();
    assert_eq!(a, ef(8.0));

    // Test with decimals
    let mut a = ef(0.3);
    a = a.try_sub(ef(0.1)).unwrap();
    assert_eq!(a, ef(0.2));

    // Test with very small numbers
    let small = EPSILON_F64 / 2.0;
    let mut a = ef(small);
    a = a.try_sub(ef(small)).unwrap();
    assert_eq!(a, ef(0.0));

    // Test with large numbers
    let mut a = ef(1e15);
    a = a.try_sub(ef(1.0)).unwrap();
    assert_eq!(a, ef(1e15 - 1.0));
}

#[test]
fn test_mul_assign() {
    let mut a = ef(5.0);
    a = a.try_mul(ef(3.0)).unwrap();
    assert_eq!(a, ef(15.0));

    // Test with negative values
    let mut a = ef(5.0);
    a = a.try_mul(ef(-3.0)).unwrap();
    assert_eq!(a, ef(-15.0));

    let mut a = ef(-5.0);
    a = a.try_mul(ef(-3.0)).unwrap();
    assert_eq!(a, ef(15.0));

    // Test with decimals
    let mut a = ef(0.1);
    a = a.try_mul(ef(0.2)).unwrap();
    assert_eq!(a, ef(0.02));

    // Test with very small numbers
    let small = EPSILON_F64 / 2.0;
    let mut a = ef(small);
    a = a.try_mul(ef(2.0)).unwrap();
    assert_eq!(a, ef(EPSILON_F64));

    // Test with large numbers
    let mut a = ef(1e7);
    a = a.try_mul(ef(1e7)).unwrap();
    assert_eq!(a, ef(1e14));

    // Test with zero
    let mut a = ef(5.0);
    a = a.try_mul(ef(0.0)).unwrap();
    assert_eq!(a, ef(0.0));
}

#[test]
fn test_div_assign() {
    let mut a = ef(15.0);
    a = a.try_div(ef(3.0)).unwrap();
    assert_eq!(a, ef(5.0));

    // Test with negative values
    let mut a = ef(-15.0);
    a = a.try_div(ef(3.0)).unwrap();
    assert_eq!(a, ef(-5.0));

    let mut a = ef(-15.0);
    a = a.try_div(ef(-3.0)).unwrap();
    assert_eq!(a, ef(5.0));

    // Test with decimals
    let mut a = ef(0.1);
    a = a.try_div(ef(0.5)).unwrap();
    assert_eq!(a, ef(0.2));

    // Test with very small numbers
    let small = EPSILON_F64 * 2.0;
    let mut a = ef(small);
    a = a.try_div(ef(2.0)).unwrap();
    assert_eq!(a, ef(EPSILON_F64));

    // Test with large numbers
    let mut a = ef(1e14);
    a = a.try_div(ef(1e7)).unwrap();
    assert_eq!(a, ef(1e7));

    // Test division by 1
    let mut a = ef(5.0);
    a = a.try_div(ef(1.0)).unwrap();
    assert_eq!(a, ef(5.0));
}

#[test]
fn test_remainder() {
    // Basic remainder
    assert_eq!(ef(7.0).try_rem(ef(3.0)).unwrap(), ef(1.0));
    assert_eq!(ef(8.0).try_rem(ef(2.5)).unwrap(), ef(0.5));

    // Test with negative values - the remainder keeps the dividend's sign
    assert_eq!(ef(-7.0).try_rem(ef(3.0)).unwrap(), ef(-1.0));
    assert_eq!(ef(7.0).try_rem(ef(-3.0)).unwrap(), ef(1.0));
    assert_eq!(ef(-7.0).try_rem(ef(-3.0)).unwrap(), ef(-1.0));

    // Test with decimals
    assert_eq!(ef(0.7).try_rem(ef(0.3)).unwrap(), ef(0.1));

    // Test with very small numbers
    let small = EPSILON_F64 * 5.0;
    assert_eq!(ef(small).try_rem(ef(EPSILON_F64 * 2.0)).unwrap(), ef(EPSILON_F64));

    // Test with large numbers
    assert_eq!(ef(1e14 + 3.0).try_rem(ef(5.0)).unwrap(), ef(3.0));
}

#[test]
fn test_remainder_assign() {
    // Basic remainder assignment
    let mut a = ef(7.0);
    a = a.try_rem(ef(3.0)).unwrap();
    assert_eq!(a, ef(1.0));

    // Test with negative values
    let mut a = ef(-7.0);
    a = a.try_rem(ef(3.0)).unwrap();
    assert_eq!(a, ef(-1.0));

    let mut a = ef(7.0);
    a = a.try_rem(ef(-3.0)).unwrap();
    assert_eq!(a, ef(1.0));

    // Test with decimals
    let mut a = ef(0.7);
    a = a.try_rem(ef(0.3)).unwrap();
    assert_eq!(a, ef(0.1));

    // Test with very small numbers
    let small = EPSILON_F64 * 5.0;
    let mut a = ef(small);
    a = a.try_rem(ef(EPSILON_F64 * 2.0)).unwrap();
    assert_eq!(a, ef(EPSILON_F64));

    // Test with large numbers
    let mut a = ef(1e14 + 3.0);
    a = a.try_rem(ef(5.0)).unwrap();
    assert_eq!(a, ef(3.0));
}

#[test]
fn test_negation() {
    // Basic negation
    assert_eq!(ef(5.0).neg(), ef(-5.0));
    assert_eq!(ef(-5.0).neg(), ef(5.0));
    assert_eq!(ef(0.0).neg(), ef(-0.0));

    // Test with decimals
    assert_eq!(ef(0.1).neg(), ef(-0.1));

    // Test with very small numbers
    let small = EPSILON_F64 / 2.0;
    assert_eq!(ef(small).neg(), ef(-small));

    // Test with large numbers
    assert_eq!(ef(1e15).neg(), ef(-1e15));

    // Test with special constants
    assert_eq!(ef(std::f64::consts::PI).neg(), ef(-std::f64::consts::PI));
}

#[test]
fn test_ops_match_hardware() {
    // spot checks that the rounded results are bit-identical with the
    // platform's own arithmetic
    let pairs = [
        (0.1, 0.2),
        (1.5, -2.25),
        (std::f64::consts::PI, std::f64::consts::E),
        (1.0e-300, 7.0e300),
        (123456.789, 0.001),
        (5.0e-324, 2.0),
        (9007199254740993.0, 1.0),
    ];
    for (x, y) in pairs {
        assert_eq!(
            ef(x).try_add(ef(y)).unwrap().downgrade(),
            (x + y).to_bits(),
        );
        assert_eq!(
            ef(x).try_sub(ef(y)).unwrap().downgrade(),
            (x - y).to_bits(),
        );
        assert_eq!(
            ef(x).try_mul(ef(y)).unwrap().downgrade(),
            (x * y).to_bits(),
        );
        assert_eq!(
            ef(x).try_div(ef(y)).unwrap().downgrade(),
            (x / y).to_bits(),
        );
        assert_eq!(
            ef(x).try_rem(ef(y)).unwrap().downgrade(),
            (x % y).to_bits(),
        );
    }
}

#[test]
fn test_error_variants() {
    let a = ef(5.0);
    let zero = ef(0.0);
    assert_eq!(a.try_div(zero).unwrap_err(), ConversionError::Infinite);
    assert_eq!(zero.try_div(zero).unwrap_err(), ConversionError::NaN);
    assert_eq!(a.try_rem(zero).unwrap_err(), ConversionError::NaN);
    assert_eq!(
        ef(f64::MAX).try_add(ef(f64::MAX)).unwrap_err(),
        ConversionError::Infinite
    );
    assert_eq!(
        ef(f64::MAX).try_sub(ef(f64::MIN)).unwrap_err(),
        ConversionError::Infinite
    );
    assert_eq!(
        ef(1.0).try_div(ef(5.0e-324)).unwrap_err(),
        ConversionError::Infinite
    );
}
