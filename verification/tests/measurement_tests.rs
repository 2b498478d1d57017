use thermobug::measurement::Measurement;

#[test]
fn new_scales_nothing_and_keeps_the_raw_reading() {
    // a raw reading of 215 is 21.5 degrees, carried as 215 tenths
    let m = Measurement::new(215, 1_000);
    assert_eq!(m.deci_deg_c, 215);
    assert_eq!(m.timestamp, 1_000);
}

#[test]
fn equality_needs_both_fields() {
    let a = Measurement::new(10, 5);
    let b = Measurement::new(20, 5);
    let c = Measurement::new(10, 5);
    assert_ne!(a, b);
    assert_eq!(a, c);
}

#[test]
fn timestamp_order_ignores_the_value() {
    let early_hot = Measurement::new(300, 1);
    let late_cold = Measurement::new(10, 2);
    let tied = Measurement::new(999, 1);
    assert!(early_hot.at_or_before(&late_cold));
    assert!(!late_cold.at_or_before(&early_hot));
    // ties on timestamp order either way, though the values differ
    assert!(early_hot.at_or_before(&tied));
    assert!(tied.at_or_before(&early_hot));
}
