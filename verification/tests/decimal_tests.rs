use decimal::Decimal;
use decimal::ParseDecimalError;
use std::cmp::Ordering;

fn p(s: &str) -> Decimal {
    Decimal::try_from(s).expect("parse failed")
}

#[test]
fn parse_rejects_invalid_digits() {
    assert!(matches!(
        Decimal::new(String::from("12a.3")),
        Err(ParseDecimalError::InvalidDigit)
    ));
    assert!(matches!(
        Decimal::new(String::from("1.2.3")),
        Err(ParseDecimalError::InvalidDigit)
    ));
    assert!(matches!(
        Decimal::new(String::from(" 1")),
        Err(ParseDecimalError::InvalidDigit)
    ));
    assert!(matches!(
        Decimal::new(String::from("--1")),
        Err(ParseDecimalError::InvalidDigit)
    ));
}

#[test]
fn parse_rejects_empty() {
    assert!(matches!(
        Decimal::new(String::new()),
        Err(ParseDecimalError::Empty)
    ));
}

#[test]
fn parse_accepts_signs_and_segments() {
    let d = p("-12.34");
    assert!(!d.is_positive);
    assert_eq!(d.int, vec!['1', '2']);
    assert_eq!(d.frac, vec!['3', '4']);
    let d = p("+5");
    assert!(d.is_positive);
    assert_eq!(d.int, vec!['5']);
    assert!(d.frac.is_empty());
    let d = p("007.100");
    assert_eq!(d.int, vec!['0', '0', '7']);
    assert_eq!(d.frac, vec!['1', '0', '0']);
}

#[test]
fn parse_sign_only_is_empty_value() {
    let d = p("+");
    assert!(d.is_empty());
    let d = p("-");
    assert!(d.is_empty());
    assert!(!p("0").is_empty());
}

#[test]
fn format_fixpoint_verbatim() {
    assert_eq!(p("007.100").to_text(), "007.100");
    assert_eq!(p("-3.25").to_text(), "-3.25");
    assert_eq!(p("0.000").to_text(), "0.000");
}

#[test]
fn format_always_emits_point() {
    assert_eq!(p("7").to_text(), "7.");
    assert_eq!(p("-7").to_text(), "-7.");
}

#[test]
fn roundtrip_through_text() {
    for s in ["0.", "12.5", "-0.001", "999999999999999999999.000000001"] {
        let d = p(s);
        let again = Decimal::try_from(&d.to_text()).expect("reparse failed");
        assert!(d == again);
    }
}

#[test]
fn addition_scenario() {
    assert!(p("123.45").add(&p("1.006")) == p("124.456"));
}

#[test]
fn addition_carries_across_the_point() {
    assert!(p("9.95").add(&p("0.05")) == p("10"));
    assert!(p("9").add(&p("9")) == p("18"));
    assert!(p("99.9").add(&p("0.1")) == p("100"));
}

#[test]
fn addition_mixed_signs() {
    assert!(p("5").add(&p("-3")) == p("2"));
    assert!(p("-5").add(&p("3")) == p("-2"));
    assert!(p("-5").add(&p("-3")) == p("-8"));
    let tie = p("5.5").add(&p("-5.5"));
    assert!(tie.is_zero());
    assert!(tie.is_positive);
}

#[test]
fn addition_commutes() {
    let cases = [("123.45", "1.006"), ("-2.5", "7"), ("-0.1", "-9.99"), ("3", "-3.0")];
    for (x, y) in cases {
        assert!(p(x).add(&p(y)) == p(y).add(&p(x)));
    }
}

#[test]
fn subtraction_scenario() {
    assert!(p("10").sub(&p("3.5")) == p("6.5"));
}

#[test]
fn subtraction_signs() {
    assert!(p("3.5").sub(&p("10")) == p("-6.5"));
    assert!(p("-2").sub(&p("3")) == p("-5"));
    assert!(p("2").sub(&p("-3")) == p("5"));
    assert!(p("-2").sub(&p("-3")) == p("1"));
    assert!(p("-3").sub(&p("-2")) == p("-1"));
}

#[test]
fn self_subtraction_is_zero() {
    for s in ["0", "1.5", "-42", "007.100", "-0.003"] {
        let d = p(s);
        let z = d.sub(&d);
        assert!(z.is_zero());
    }
}

#[test]
fn multiplication_scenarios() {
    assert!(p("2").mul(&p("3")) == p("6"));
    assert!(p("0.1").mul(&p("0.2")) == p("0.02"));
    assert!(p("12.34").mul(&p("5.6")) == p("69.104"));
    assert!(p("99").mul(&p("99")) == p("9801"));
}

#[test]
fn multiplication_signs() {
    assert!(p("-2").mul(&p("3")) == p("-6"));
    assert!(p("2").mul(&p("-3")) == p("-6"));
    assert!(p("-2").mul(&p("-3")) == p("6"));
}

#[test]
fn multiplication_trims_result() {
    assert_eq!(p("2").mul(&p("3")).to_text(), "6.0");
    assert_eq!(p("2.5").mul(&p("4")).to_text(), "10.0");
    assert_eq!(p("0").mul(&p("123.456")).to_text(), "0.0");
}

#[test]
fn multiplicative_identity() {
    for s in ["123.456", "-42", "0.001", "007.100"] {
        let d = p(s);
        assert!(d.mul(&p("1")) == d);
    }
}

#[test]
fn comparison_scenario() {
    assert_eq!(p("-5").partial_cmp(&p("3")), Some(Ordering::Less));
    assert!(p("-5") < p("3"));
}

#[test]
fn comparison_negative_always_less() {
    for (a, b) in [("-0.001", "0"), ("-999", "0.001"), ("-1", "1")] {
        assert_eq!(p(a).partial_cmp(&p(b)), Some(Ordering::Less));
        assert_eq!(p(b).partial_cmp(&p(a)), Some(Ordering::Greater));
    }
}

#[test]
fn comparison_steps() {
    assert_eq!(p("12").partial_cmp(&p("9")), Some(Ordering::Greater));
    assert_eq!(p("-12").partial_cmp(&p("-9")), Some(Ordering::Less));
    assert_eq!(p("25").partial_cmp(&p("27")), Some(Ordering::Less));
    assert_eq!(p("0.01").partial_cmp(&p("0.012")), Some(Ordering::Less));
    assert_eq!(p("-0.01").partial_cmp(&p("-0.012")), Some(Ordering::Greater));
    assert_eq!(p("3.14").partial_cmp(&p("3.14")), Some(Ordering::Equal));
}

#[test]
fn comparison_does_not_trim() {
    // The ordering procedure compares digit sequences as stored: a longer
    // integer part wins even when only leading zeros distinguish them.
    assert_eq!(p("01.1").partial_cmp(&p("1.1")), Some(Ordering::Greater));
    assert_eq!(p("1.10").partial_cmp(&p("1.1")), Some(Ordering::Greater));
}

#[test]
fn equality_trims() {
    assert!(p("1.1") == p("1.10"));
    assert!(p("007") == p("7"));
    assert!(p("0.5") != p("0.50001"));
}

#[test]
fn equality_keeps_signs_apart() {
    assert!(p("+0") != p("-0"));
    assert!(p("0.0") == p("0"));
}

#[test]
fn zero_and_wellformed_checks() {
    assert!(p("000.000").is_zero());
    assert!(!p("000.001").is_zero());
    assert!(p("-0").is_zero());
    assert!(p("123.45").is_well_formed());
}
