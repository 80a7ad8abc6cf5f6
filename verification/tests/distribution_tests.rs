use bigdecimal::num_bigint::BigInt;
use bigdecimal::BigDecimal;
use std::str::FromStr;
use transaction::date::LocalDateTime;
use transaction::decimal::Decimal;
use transaction::distribution::{build_distribution_ref_map, distribution_result, DistributionRefMap, DistributionRow};

fn d(s: &str) -> Decimal {
    Decimal::parse(s).unwrap()
}

fn big(x: &Decimal) -> BigDecimal {
    BigDecimal::new(BigInt::from_signed_bytes_le(&x.mantissa), x.scale)
}

fn assert_dec(x: &Decimal, s: &str) {
    assert_eq!(big(x), BigDecimal::from_str(s).unwrap(), "expected {}", s);
}

fn day(timestamp: i64) -> LocalDateTime {
    LocalDateTime { timestamp, nanosecond: 0, year: 2024, month: 3, day: 15 }
}

fn row(security_id: i64, distribution_id: i64, payment: i64) -> DistributionRow {
    DistributionRow {
        security_id,
        distribution_id,
        ex_dividend_date: day(payment - 20),
        record_date: day(payment - 19),
        payment_date: day(payment),
        total_cash_distribution: d("0"),
        total_non_cash_distribution: d("0"),
        is_percent: false,
        return_of_capital: d("0"),
        capital_gain: d("0"),
        capital_gain_pre_20240624: d("0"),
        capital_gain_post_20240624: d("0"),
        eligible_dividend: d("0"),
        non_eligible_dividend: d("0"),
        foreign_business_income: d("0"),
        foreign_non_business_income: d("0"),
        other_income: d("0"),
        foreign_business_income_tax_paid: d("0"),
        foreign_non_business_income_tax_paid: d("0"),
        foreign_distribution: d("0"),
    }
}

#[test]
fn distribution_result_keeps_amounts_per_unit() {
    let mut r = row(1, 5, 100);
    r.total_cash_distribution = d("0.5");
    r.eligible_dividend = d("0.4");
    r.return_of_capital = d("0.1");
    let x = distribution_result(&r);
    assert_eq!(x.distribution_id, 5);
    assert_eq!(x.payment_date.timestamp, 100);
    assert_eq!(x.ex_dividend_date.timestamp, 80);
    assert_eq!(x.record_date.timestamp, 81);
    assert_dec(&x.total_cash_distribution, "0.5");
    assert_dec(&x.eligible_dividend, "0.4");
    assert_dec(&x.return_of_capital, "0.1");
    assert_dec(&x.other_income, "0");
}

#[test]
fn distribution_result_converts_percentages() {
    let mut r = row(1, 5, 100);
    r.is_percent = true;
    r.total_cash_distribution = d("0.6");
    r.total_non_cash_distribution = d("0.2");
    r.eligible_dividend = d("75");
    r.capital_gain = d("25");
    r.foreign_business_income_tax_paid = d("10");
    let x = distribution_result(&r);
    assert_dec(&x.total_cash_distribution, "0.6");
    assert_dec(&x.total_non_cash_distribution, "0.2");
    assert_dec(&x.eligible_dividend, "0.6");
    assert_dec(&x.capital_gain, "0.2");
    assert_dec(&x.foreign_business_income_tax_paid, "0.08");
    assert_dec(&x.return_of_capital, "0");
}

#[test]
fn ref_map_orders_by_payment_date() {
    let rows = vec![row(1, 1, 300), row(2, 2, 100), row(1, 3, 200)];
    let m = build_distribution_ref_map(&rows);
    assert_eq!(m.entries.len(), 3);
    let dates: Vec<i64> = m.entries.iter().map(|e| e.1.payment_date.timestamp).collect();
    assert_eq!(dates, vec![100, 200, 300]);
    let ids: Vec<i64> = m.entries.iter().map(|e| e.1.distribution_id).collect();
    assert_eq!(ids, vec![2, 3, 1]);
}

#[test]
fn ref_map_keeps_the_last_row_of_a_key() {
    let mut later = row(1, 9, 100);
    later.eligible_dividend = d("0.7");
    let rows = vec![row(1, 1, 100), row(2, 2, 100), later];
    let m = build_distribution_ref_map(&rows);
    assert_eq!(m.entries.len(), 2);
    let e = m.entries.iter().find(|e| e.0 == 1).unwrap();
    assert_eq!(e.1.distribution_id, 9);
    assert_dec(&e.1.eligible_dividend, "0.7");
}

#[test]
fn ref_map_insert_replaces_the_same_key() {
    let mut m = DistributionRefMap::new();
    assert!(m.entries.is_empty());
    m.insert(1, distribution_result(&row(1, 1, 100)));
    m.insert(1, distribution_result(&row(1, 2, 50)));
    m.insert(1, distribution_result(&row(1, 3, 100)));
    assert_eq!(m.entries.len(), 2);
    assert_eq!(m.entries[0].1.distribution_id, 2);
    assert_eq!(m.entries[1].1.distribution_id, 3);
}

#[test]
fn ref_map_keys_by_the_full_moment_of_payment() {
    let mut later = row(1, 2, 100);
    later.payment_date.nanosecond = 500_000_000;
    let rows = vec![later, row(1, 1, 100)];
    let m = build_distribution_ref_map(&rows);
    assert_eq!(m.entries.len(), 2);
    assert_eq!(m.entries[0].1.distribution_id, 1);
    assert_eq!(m.entries[1].1.distribution_id, 2);
}
