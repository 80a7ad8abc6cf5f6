use bigdecimal::num_bigint::BigInt;
use bigdecimal::BigDecimal;
use std::str::FromStr;
use transaction::decimal::{
    is_decimal, is_decimal_opt, is_within_range, is_within_range_opt, parse_or_zero, parse_required, Decimal, InvalidDecimal,
};

fn d(s: &str) -> Decimal {
    Decimal::parse(s).unwrap()
}

fn big(x: &Decimal) -> BigDecimal {
    BigDecimal::new(BigInt::from_signed_bytes_le(&x.mantissa), x.scale)
}

fn assert_dec(x: &Decimal, s: &str) {
    assert_eq!(big(x), BigDecimal::from_str(s).unwrap(), "expected {}", s);
}

#[test]
fn parse_reads_decimal_strings() {
    assert_dec(&d("12.34"), "12.34");
    assert_dec(&d("-0.5"), "-0.5");
    assert_dec(&d("1e3"), "1000");
    assert_dec(&d("0"), "0");
}

#[test]
fn parse_refuses_non_decimals() {
    assert!(Decimal::parse("abc").is_none());
    assert!(Decimal::parse("").is_none());
    assert!(Decimal::parse("1.2.3").is_none());
}

#[test]
fn parse_required_reports_invalid_decimal() {
    assert_eq!(parse_required(&"x1".to_string()).err(), Some(InvalidDecimal));
    assert_dec(&parse_required(&"7.25".to_string()).unwrap(), "7.25");
}

#[test]
fn parse_or_zero_reads_absent_as_zero() {
    assert_dec(&parse_or_zero(&None).unwrap(), "0");
    assert_dec(&parse_or_zero(&Some("3.5".to_string())).unwrap(), "3.5");
    assert_eq!(parse_or_zero(&Some("three".to_string())).err(), Some(InvalidDecimal));
}

#[test]
fn zero_and_from_i64() {
    assert_dec(&Decimal::zero(), "0");
    assert_dec(&Decimal::from_i64(-42), "-42");
    assert_dec(&Decimal::from_i64(1_000_000), "1000000");
}

#[test]
fn arithmetic_is_exact() {
    assert_dec(&d("0.1").add(&d("0.2")), "0.3");
    assert_dec(&d("5").sub(&d("7.5")), "-2.5");
    assert_dec(&d("1.5").mul(&d("-2.25")), "-3.375");
    assert_dec(&d("4.2").neg(), "-4.2");
    assert_dec(&d("-4.2").neg(), "4.2");
    assert_dec(&d("1").div(&d("4")), "0.25");
    assert_dec(&d("10").div(&d("-8")), "-1.25");
}

#[test]
fn division_keeps_many_digits() {
    let q = d("1").div(&d("3"));
    let back = q.mul(&d("3"));
    assert!(big(&back) < BigDecimal::from_str("1").unwrap());
    assert!(big(&back) > BigDecimal::from_str("0.999999999999999999999999").unwrap());
}

#[test]
fn round2_rounds_halves_away_from_zero() {
    assert_dec(&d("1.005").round2(), "1.01");
    assert_dec(&d("-1.005").round2(), "-1.01");
    assert_dec(&d("2.344").round2(), "2.34");
    assert_dec(&d("2.346").round2(), "2.35");
    assert_dec(&d("7").round2(), "7");
    assert_eq!(d("7").round2().scale, 2);
    assert_dec(&d("0.004").round2(), "0");
}

#[test]
fn comparisons_go_by_value() {
    assert!(d("1.50").eq_value(&d("1.5")));
    assert!(!d("1.5").eq_value(&d("1.51")));
    assert!(d("1.5").lt(&d("1.51")));
    assert!(!d("2").lt(&d("2.00")));
    assert!(d("-3").lt(&d("0")));
    assert!(d("0.00").is_zero());
    assert!(!d("0.01").is_zero());
    assert!(d("0.01").is_positive());
    assert!(!d("0").is_positive());
    assert!(!d("-1").is_positive());
}

#[test]
fn copy_keeps_the_value() {
    let x = d("123.456");
    assert_dec(&x.copy(), "123.456");
}

#[test]
fn addition_laws_hold_on_examples() {
    let a = d("1.25");
    let b = d("-3.5");
    let c = d("0.005");
    assert!(a.add(&b).eq_value(&b.add(&a)));
    assert!(a.add(&b).add(&c).eq_value(&a.add(&b.add(&c))));
    assert!(Decimal::zero().add(&a).eq_value(&a));
}

#[test]
fn is_decimal_checks_strings() {
    assert!(is_decimal(&"1.25".to_string()));
    assert!(!is_decimal(&"1,25".to_string()));
    assert!(is_decimal_opt(&None));
    assert!(is_decimal_opt(&Some("-3".to_string())));
    assert!(!is_decimal_opt(&Some("abc".to_string())));
}

#[test]
fn division_is_exact_when_the_quotient_ends() {
    assert_dec(&d("-4").div(&d("10")), "-0.4");
    assert_dec(&d("1").div(&d("8")), "0.125");
    assert_dec(&d("7.5").div(&d("2.5")), "3");
}

#[test]
fn round2_gives_scale_two() {
    let r = d("50").round2();
    assert_eq!(r.scale, 2);
    assert_dec(&r, "50.00");
    assert_eq!(d("1.005").round2().scale, 2);
}

#[test]
fn multiplication_by_a_quick_one_keeps_the_other_operand() {
    let r = d("1.0").mul(&d("2.500"));
    assert_eq!(r.scale, 3);
    assert_dec(&r, "2.5");
    let s = d("1.5").mul(&d("2.50"));
    assert_eq!(s.scale, 3);
    assert_dec(&s, "3.75");
}

#[test]
fn ranges_and_digits() {
    assert_eq!(d("123.45").digits(), 5);
    assert!(d("123.45").is_in_range());
    assert!(!d("1e-600000000000000000").is_in_range());
    let far = parse_required(&"1e-600000000000000000".to_string()).unwrap();
    assert_eq!(far.scale, 600000000000000000);
    assert!(!is_within_range(&"1e-600000000000000000".to_string()));
    assert!(is_within_range(&"123.45".to_string()));
    assert!(is_within_range(&"abc".to_string()));
    assert!(is_within_range_opt(&None));
    assert!(d("1").can_divide(&d("3")));
    assert!(!d("1e-4611686018427387904").can_divide(&d("3")));
}

#[test]
fn subtraction_keeps_the_representation_of_a_zero_operand() {
    let a = d("1.50").sub(&d("0"));
    assert_eq!(a.scale, 2);
    assert_dec(&a, "1.5");
    let b = d("0.000").sub(&d("1.5"));
    assert_eq!(b.scale, 1);
    assert_dec(&b, "-1.5");
    let c = d("1.5").sub(&d("0.25"));
    assert_eq!(c.scale, 2);
    assert_dec(&c, "1.25");
}
