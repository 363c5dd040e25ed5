use std::cmp::Ordering;
use extended_float::{sort, ExtendedFloat};

const EPSILON: f64 = 1.0e-12;

fn ef(x: f64) -> ExtendedFloat {
    ExtendedFloat::new(x.to_bits())
}

#[test]
fn test_ordering_basics() {
    assert!(ef(2.0) > ef(1.0));
    assert!(ef(1.0) < ef(2.0));
    assert!(ef(1.0) <= ef(1.0));
    assert!(ef(1.0) >= ef(1.0));

    assert!(ef(1.0) == ef(1.0 + EPSILON * 0.5));
    assert!(ef(1.0) < ef(1.0 + EPSILON * 50.0));
    assert!(ef(1.0 + EPSILON * 50.0) > ef(1.0));
}

#[test]
fn test_sorting() {
    let mut values = vec![ef(5.0), ef(2.0), ef(3.0), ef(1.0), ef(4.0)];

    sort(&mut values);

    assert_eq!(values[0], ef(1.0));
    assert_eq!(values[1], ef(2.0));
    assert_eq!(values[2], ef(3.0));
    assert_eq!(values[3], ef(4.0));
    assert_eq!(values[4], ef(5.0));
}

#[test]
fn test_cmp_matches_equality() {
    assert_eq!(ef(1.0).cmp(&ef(1.0 + EPSILON * 0.5)), Ordering::Equal);
    assert_eq!(ef(2.0).cmp(&ef(1.0)), Ordering::Greater);
    assert_eq!(ef(1.0).cmp(&ef(2.0)), Ordering::Less);
    assert_eq!(ef(-1.0).cmp(&ef(1.0)), Ordering::Less);
    assert_eq!(ef(0.0).cmp(&ef(-0.0)), Ordering::Equal);
}

#[test]
fn test_sort_keeps_elements() {
    let mut values = vec![ef(-2.5), ef(1e13), ef(-2.5), ef(0.0), ef(7.75)];
    sort(&mut values);
    assert_eq!(values.len(), 5);
    assert_eq!(values[0], ef(-2.5));
    assert_eq!(values[1], ef(-2.5));
    assert_eq!(values[2], ef(0.0));
    assert_eq!(values[3], ef(7.75));
    assert_eq!(values[4], ef(1e13));
    for k in 0..4 {
        assert!(values[k] <= values[k + 1]);
    }
}
