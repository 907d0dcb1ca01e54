use poe_items::decimal::Decimal;

fn le(a: &str, b: &str) -> bool {
    Decimal::parse(a).f64_key() <= Decimal::parse(b).f64_key()
}

#[test]
fn decimal_order() {
    assert!(le("1", "2"));
    assert!(!le("2", "1"));
    assert!(le("1.5", "1.50"));
    assert!(le("1.50", "1.5"));
    assert!(le("-2", "1"));
    assert!(!le("1", "-2"));
    assert!(le("-3", "-2.5"));
    assert!(!le("-2.5", "-3"));
    assert!(le("0", "-0"));
    assert!(le("-0", "0"));
    assert!(le("9.99", "10"));
    assert!(!le("10", "9.99"));
    assert!(le("007", "7"));
    assert!(le("7", "007"));
    assert!(le("0.05", "0.5"));
    assert!(!le("0.5", "0.05"));
    assert!(le("2.00000000000000001", "2"));
}

#[test]
fn decimal_order_agrees_with_floats() {
    let texts = ["0", "1", "-1", "2.5", "-2.5", "10", "9.99", "0.001", "-0.001", "100.0", "3", "12.34"];
    for a in texts {
        for b in texts {
            let fa: f64 = a.parse().unwrap();
            let fb: f64 = b.parse().unwrap();
            assert_eq!(le(a, b), fa <= fb, "{} <= {}", a, b);
        }
    }
}

#[test]
fn other_texts_read_as_zero() {
    for s in ["", "-", "abc", "1.", ".5", "1e5", "+3", "1.2.3", "--1"] {
        assert_eq!(Decimal::parse(s).f64_key(), 0, "{}", s);
    }
    assert_ne!(Decimal::parse("0.01").f64_key(), 0);
    assert_eq!(Decimal::parse("-0.00").f64_key(), 0);
}
