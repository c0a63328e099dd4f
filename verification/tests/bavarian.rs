use cgrade::{bavarian_from_de, bavarian_to_de, format_grade};

#[test]
fn degenerate_and_non_finite_inputs_yield_nothing() {
    assert_eq!(bavarian_to_de(4000, 4000, 4000), None);
    assert_eq!(bavarian_from_de(4000, 4000, 2000), None);
    assert_eq!(format_grade(6000, 4), None);
}

#[test]
fn formula_examples() {
    assert_eq!(bavarian_to_de(6000, 4000, 5500), Some(17));
    assert_eq!(bavarian_to_de(6000, 4000, 6000), Some(10));
    assert_eq!(bavarian_to_de(6000, 4000, 4000), Some(40));
    assert_eq!(bavarian_to_de(1000, 4000, 2350), Some(23));
    assert_eq!(bavarian_to_de(6000, 4000, 3999), None);
    assert_eq!(bavarian_to_de(6000, 4000, 6001), None);
    assert_eq!(bavarian_from_de(20000, 10000, 3400), Some(1200));
    assert_eq!(bavarian_from_de(6000, 4000, 1000), Some(600));
    assert_eq!(bavarian_from_de(6000, 4000, 4000), Some(400));
    assert_eq!(bavarian_from_de(1000, 4000, 2500), Some(250));
    assert_eq!(bavarian_from_de(6000, 4000, 999), None);
    assert_eq!(bavarian_from_de(6000, 4000, 4001), None);
}

#[test]
fn inverse_truncates_negative_results() {
    // Bounds 0.0 and -2.0, German 2.0: exactly -0.666..., truncated to -0.66.
    assert_eq!(bavarian_from_de(0, -2000, 2000), Some(-66));
    // 1.0 maps back to the best grade -0.005, truncated to -0.00.
    assert_eq!(bavarian_from_de(-5, 1000, 1000), Some(0));
}

#[test]
fn large_inputs_do_not_overflow() {
    assert_eq!(bavarian_to_de(i64::MAX, i64::MIN, 0), Some(24));
    assert_eq!(bavarian_to_de(i64::MIN, i64::MAX, i64::MIN), Some(10));
    assert_eq!(bavarian_from_de(i64::MAX, i64::MIN, 1000), Some(i64::MAX / 10));
    assert_eq!(bavarian_from_de(i64::MAX, i64::MIN, 4000), Some(i64::MIN / 10));
}

#[test]
fn german_grades_never_rise_for_better_foreign_grades() {
    let mut previous = 40;
    let mut v = 4000;
    while v <= 6000 {
        let t = bavarian_to_de(6000, 4000, v).unwrap();
        assert!(t <= previous);
        previous = t;
        v += 7;
    }
}
