use extended_float::{equal_option, ExtendedFloat};

const EPSILON_F64: f64 = 1.0e-12;

fn ef(x: f64) -> ExtendedFloat {
    ExtendedFloat::new(x.to_bits())
}

#[test]
fn impl_option_eq_test_option_equality() {
    let none_f64: Option<ExtendedFloat> = None;
    assert!(equal_option(&none_f64, &none_f64));

    assert!(equal_option(&Some(ef(1.0)), &Some(ef(1.0))));

    assert!(equal_option(&Some(ef(1.0)), &Some(ef(1.0 + EPSILON_F64 * 0.5))));

    assert!(!equal_option(&none_f64, &Some(ef(1.0))));
    assert!(!equal_option(&Some(ef(1.0)), &none_f64));

    assert!(!equal_option(&Some(ef(1.0)), &Some(ef(2.0))));
    assert!(!equal_option(&Some(ef(1.0)), &Some(ef(1.0 + EPSILON_F64 * 10.0))));
}
