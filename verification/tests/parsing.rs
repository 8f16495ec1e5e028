use moneycount::amount::parse_amount;
use moneycount::rational::Rational;

#[test]
fn parses_integers_and_decimals() {
    assert_eq!(parse_amount("10"), Some(10_000_000));
    assert_eq!(parse_amount("2.5"), Some(2_500_000));
    assert_eq!(parse_amount("0"), Some(0));
    assert_eq!(parse_amount("007"), Some(7_000_000));
    assert_eq!(parse_amount("1."), Some(1_000_000));
    assert_eq!(parse_amount(".5"), Some(500_000));
    assert_eq!(parse_amount("0.000001"), Some(1));
}

#[test]
fn parses_signs() {
    assert_eq!(parse_amount("+2"), Some(2_000_000));
    assert_eq!(parse_amount("-3.5"), Some(-3_500_000));
    assert_eq!(parse_amount("-"), None);
    assert_eq!(parse_amount("+-3"), None);
}

#[test]
fn rejects_non_numeric_text() {
    assert_eq!(parse_amount(""), None);
    assert_eq!(parse_amount("."), None);
    assert_eq!(parse_amount("abc"), None);
    assert_eq!(parse_amount("1e3"), None);
    assert_eq!(parse_amount("1.2.3"), None);
    assert_eq!(parse_amount("1 0"), None);
    assert_eq!(parse_amount("１０"), None);
}

#[test]
fn rejects_out_of_range_text() {
    assert_eq!(parse_amount("1.2345678"), None);
    assert_eq!(parse_amount("1000000000"), None);
    assert_eq!(parse_amount("999999999.999999"), Some(999_999_999_999_999));
    assert_eq!(parse_amount("-999999999.999999"), Some(-999_999_999_999_999));
}

#[test]
fn round_centi_rounds_half_to_even() {
    // 0.125 rounds down to 0.12; 0.375 rounds up to 0.38.
    assert_eq!(Rational::new(1, 8).round_centi(), 12);
    assert_eq!(Rational::new(3, 8).round_centi(), 38);
    assert_eq!(Rational::new(-1, 8).round_centi(), -12);
    assert_eq!(Rational::new(-3, 8).round_centi(), -38);
    assert_eq!(Rational::new(735, 10).round_centi(), 7350);
    assert_eq!(Rational::new(1, 3).round_centi(), 33);
    assert_eq!(Rational::new(2, 3).round_centi(), 67);
}

#[test]
fn same_value_compares_across_representations() {
    assert!(Rational::new(1, 2).same_value(&Rational::new(2, 4)));
    assert!(!Rational::new(1, 2).same_value(&Rational::new(2, 3)));
    assert!(Rational::new(-5, 10).same_value(&Rational::new(-1, 2)));
}
