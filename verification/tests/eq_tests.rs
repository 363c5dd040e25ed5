use std::rc::Rc;
use extended_float::ExtendedFloat;

const EPSILON_F64: f64 = 1.0e-12;

const ITERATIONS: i32 = 10_000_000;

fn ef(x: f64) -> ExtendedFloat {
    ExtendedFloat::new(x.to_bits())
}

fn calculate_f64(start: f64, decrement: f64, count: i32) -> ExtendedFloat {
    let mut start = start;
    for _ in 0..count {
        start -= decrement;
    }
    ef(start)
}

#[test]
fn test_equal_f64() {
    let total = ITERATIONS;
    let mut count = 0;
    for i in 0..total {
        let expected = (i as f64) / 10.0;
        let actual = calculate_f64(9.0 + expected, 0.2, 45);
        if actual == ef(expected) {
            count += 1;
        }
    }
    assert_eq!(count, total);
}

#[test]
fn test_equal_table_f64() {
    let cases: [(f64, f64, bool); 50] = [
        (0.0000000000001, 0.0000000000001, true),
        (0.000000000001, 0.000000000001, true),
        (0.00000000001, 0.00000000001, true),
        (0.0000000001, 0.0000000001, true),
        (0.000000001, 0.000000001, true),
        (0.00000001, 0.00000001, true),
        (0.0000001, 0.0000001, true),
        (0.000001, 0.000001, true),
        (0.00001, 0.00001, true),
        (0.0001, 0.0001, true),
        (0.001, 0.001, true),
        (0.1, 0.1, true),
        (0.0, 0.0, true),
        (10.0, 10.0, true),
        (100.0, 100.0, true),
        (1_000.0, 1_000.0, true),
        (10_000.0, 10_000.0, true),
        (100_000.0, 100_000.0, true),
        (1_000_000.0, 1_000_000.0, true),
        (10_000_000.0, 10_000_000.0, true),
        (100_000_000.0, 100_000_000.0, true),
        (1_000_000_000.0, 1_000_000_000.0, true),
        (10_000_000_000.0, 10_000_000_000.0, true),
        (100_000_000_000.0, 100_000_000_000.0, true),
        (1_000_000_000_000.0, 1_000_000_000_000.0, true),
        // differences within the absolute tolerance count as equal
        (0.0000000000001, 0.0000000000002, true),
        (0.000000000001, 0.000000000002, true),
        (0.00000000001, 0.00000000002, false),
        (0.0000000001, 0.0000000002, false),
        (0.000000001, 0.000000002, false),
        (0.00000001, 0.00000002, false),
        (0.0000001, 0.0000002, false),
        (0.000001, 0.000002, false),
        (0.00001, 0.00002, false),
        (0.0001, 0.0002, false),
        (0.001, 0.002, false),
        (0.1, 0.2, false),
        (0.0, 1.0, false),
        (10.0, 11.0, false),
        (100.0, 101.0, false),
        (1_000.0, 1_001.0, false),
        (10_000.0, 10_001.0, false),
        (100_000.0, 100_001.0, false),
        (1_000_000.0, 1_000_001.0, false),
        (10_000_000.0, 10_000_001.0, false),
        (100_000_000.0, 100_000_001.0, false),
        (1_000_000_000.0, 1_000_000_001.0, false),
        (10_000_000_000.0, 10_000_000_001.0, false),
        (100_000_000_000.0, 100_000_000_001.0, false),
        (1_000_000_000_000.0, 1_000_000_000_001.0, false),
    ];

    for (a, b, equal) in cases {
        assert_eq!(ef(a) == ef(b), equal);
    }

    // the relative tolerance takes over at larger magnitudes
    assert_eq!(ef(10_000_000_000_000.0) == ef(10_000_000_000_001.0), true);
    assert_eq!(ef(100_000_000_000_000.0) == ef(100_000_000_000_001.0), true);
}

#[test]
fn test_zero_equality() {
    // Test zero equality
    assert_eq!(ef(0.0), ef(0.0));
    assert_eq!(ef(0.0), ef(-0.0));

    // Numbers very close to zero should be equal to zero
    assert_eq!(ef(0.0), ef(EPSILON_F64 * 0.5));
    assert_eq!(ef(0.0), ef(-EPSILON_F64 * 0.5));

    // Numbers just at epsilon boundary
    assert_eq!(ef(0.0), ef(EPSILON_F64));
    assert_eq!(ef(0.0), ef(-EPSILON_F64));

    // Numbers beyond epsilon boundary
    assert_ne!(ef(0.0), ef(EPSILON_F64 * 10.0));
    assert_ne!(ef(0.0), ef(-EPSILON_F64 * 10.0));
}

#[test]
fn test_eq_trait_usage() {
    let values = [(ef(1.0), "one"), (ef(2.0), "two")];

    let found = values.iter().find(|(k, _)| *k == ef(1.0));
    assert_eq!(found, Some(&(ef(1.0), "one")));

    let found = values.iter().find(|(k, _)| *k == ef(1.0 + EPSILON_F64 * 0.5));
    assert_eq!(found, Some(&(ef(1.0), "one")));

    let found = values.iter().find(|(k, _)| *k == ef(1.0 + EPSILON_F64 * 10.0));
    assert_eq!(found, None);
}

#[test]
fn test_transitivity() {
    // Chained tolerant comparisons on these values all come out equal
    let a = ef(1.0);
    let b = ef(1.0 + EPSILON_F64 * 0.3);
    let c = ef(1.0 + EPSILON_F64 * 0.6);

    assert_eq!(a, b);
    assert_eq!(b, c);
    assert_eq!(a, c);
}

#[test]
fn test_option_equality() {
    let none_f64: Option<ExtendedFloat> = None;
    assert_eq!(none_f64, none_f64);

    assert_eq!(Some(ef(1.0)), Some(ef(1.0)));

    assert_eq!(Some(ef(1.0)), Some(ef(1.0 + EPSILON_F64 * 0.5)));

    assert_ne!(none_f64, Some(ef(1.0)));
    assert_ne!(Some(ef(1.0)), none_f64);

    assert_ne!(Some(ef(1.0)), Some(ef(2.0)));
    assert_ne!(Some(ef(1.0)), Some(ef(1.0 + EPSILON_F64 * 10.0)));

    let opt1 = Some(ef(1.0));
    let opt2 = Some(ef(1.0));
    let none_opt: Option<ExtendedFloat> = None;

    let ref1 = &opt1;
    let ref2 = &opt2;
    let ref_none = &none_opt;

    assert_eq!(ref1, ref2);
    assert_ne!(ref1, ref_none);
}

#[test]
fn test_smart_pointers_equality() {
    let opt1 = Some(ef(1.0));
    let opt2 = Some(ef(1.0));
    let none_opt: Option<ExtendedFloat> = None;

    let rc1 = Rc::new(opt1);
    let rc2 = Rc::new(opt2);
    let rc_none = Rc::new(none_opt);

    assert_eq!(*rc1, *rc2);
    assert_ne!(*rc1, *rc_none);
}

#[test]
fn test_equality_reflexive_symmetric_samples() {
    let values = [0.0, -0.0, 1.0, -1.0, 1.0e-12, 1.0e13, 123.456, -9.75e300];
    for &x in values.iter() {
        let a = ef(x);
        assert_eq!(a, a);
        for &y in values.iter() {
            let b = ef(y);
            assert_eq!(a == b, b == a);
        }
    }
}

#[test]
fn test_tolerance_boundary() {
    // at the epsilon: equal; half the epsilon: equal; ten times: not equal
    assert_eq!(ef(0.0), ef(EPSILON_F64 / 2.0));
    assert_eq!(ef(0.0), ef(EPSILON_F64));
    assert_ne!(ef(0.0), ef(EPSILON_F64 * 10.0));
}

#[test]
fn test_relative_tolerance_scaling() {
    // precision degrades with magnitude: at 1e13 a difference of one is
    // within tolerance, at 1e12 it is not
    assert_eq!(ef(1.0e13), ef(1.0e13 + 1.0));
    assert_ne!(ef(1.0e12), ef(1.0e12 + 1.0));
}

#[test]
fn test_unchecked_special_patterns() {
    // bit-identical patterns are equal, even the unchecked special ones;
    // distinct special patterns are not equal to anything else
    let nan = ExtendedFloat::new_unchecked(f64::NAN.to_bits());
    let inf = ExtendedFloat::new_unchecked(f64::INFINITY.to_bits());
    let ninf = ExtendedFloat::new_unchecked(f64::NEG_INFINITY.to_bits());
    assert_eq!(nan, nan);
    assert_ne!(nan, ef(0.0));
    assert_ne!(nan, ef(1.0));
    assert_eq!(inf, inf);
    assert_eq!(ninf, ninf);
    assert_ne!(inf, ninf);
    assert_ne!(inf, ef(0.0));
    assert_ne!(ninf, ef(f64::MAX));
}
