use bigdecimal::num_bigint::BigInt;
use bigdecimal::BigDecimal;
use std::collections::HashMap;
use std::str::FromStr;
use transaction::decimal::Decimal;
use transaction::stock_unit::{accumulate_stock_units, stock_units, StockRow};

fn d(s: &str) -> Decimal {
    Decimal::parse(s).unwrap()
}

fn big(x: &Decimal) -> BigDecimal {
    BigDecimal::new(BigInt::from_signed_bytes_le(&x.mantissa), x.scale)
}

fn assert_dec(x: &Decimal, s: &str) {
    assert_eq!(big(x), BigDecimal::from_str(s).unwrap(), "expected {}", s);
}

fn lookups() -> (HashMap<i64, String>, HashMap<i64, String>, HashMap<i64, (String, Decimal)>) {
    let mut people = HashMap::new();
    people.insert(1, "Bob".to_string());
    people.insert(2, "Alice".to_string());
    let mut accounts = HashMap::new();
    accounts.insert(20, "TFSA".to_string());
    accounts.insert(21, "RRSP".to_string());
    accounts.insert(22, "TFSA".to_string());
    let mut tickers = HashMap::new();
    tickers.insert(30, ("VFV".to_string(), d("100.005")));
    tickers.insert(31, ("XEQT".to_string(), d("25")));
    (people, accounts, tickers)
}

#[test]
fn from_signed_applies_the_sign() {
    let r = StockRow::from_signed(1, 20, 30, &d("3.5"), -1);
    assert_eq!((r.person_id, r.account_type_id, r.security_id), (1, 20, 30));
    assert_dec(&r.unit, "-3.5");
    let b = StockRow::from_signed(1, 20, 30, &d("3.5"), 1);
    assert_dec(&b.unit, "3.5");
}

#[test]
fn stock_units_sum_per_holding() {
    let rows = vec![
        StockRow::from_signed(1, 20, 30, &d("10"), 1),
        StockRow::from_signed(1, 20, 31, &d("4"), 1),
        StockRow::from_signed(1, 20, 30, &d("2.5"), -1),
    ];
    let g = accumulate_stock_units(&rows);
    assert_eq!(g.len(), 2);
    assert_eq!((g[0].person_id, g[0].account_type_id, g[0].security_id), (1, 20, 30));
    assert_dec(&g[0].total_unit, "7.5");
    assert_eq!(g[1].security_id, 31);
    assert_dec(&g[1].total_unit, "4");
}

#[test]
fn stock_report_merges_sorts_and_keeps_positive() {
    let rows = vec![
        StockRow::from_signed(1, 20, 30, &d("2"), 1),
        StockRow::from_signed(2, 21, 31, &d("4"), 1),
        StockRow::from_signed(1, 22, 30, &d("1"), 1),
        StockRow::from_signed(2, 20, 30, &d("3"), 1),
        StockRow::from_signed(2, 20, 30, &d("3"), -1),
        StockRow::from_signed(1, 21, 31, &d("1"), 1),
    ];
    let g = accumulate_stock_units(&rows);
    let (people, accounts, tickers) = lookups();
    let r = stock_units(&g, &people, &accounts, &tickers);
    let keys: Vec<(String, String, String)> =
        r.iter().map(|u| (u.name.clone(), u.account_name.clone(), u.ticker.clone())).collect();
    assert_eq!(
        keys,
        vec![
            ("Alice".to_string(), "RRSP".to_string(), "XEQT".to_string()),
            ("Bob".to_string(), "RRSP".to_string(), "XEQT".to_string()),
            ("Bob".to_string(), "TFSA".to_string(), "VFV".to_string()),
        ]
    );
    assert_dec(&r[0].total_unit, "4");
    assert_dec(&r[0].market_value, "100");
    assert!(r.iter().all(|u| u.market_value.scale == 2));
    assert_dec(&r[2].total_unit, "3");
    assert_dec(&r[2].market_value, "300.02");
    assert!(r.iter().all(|u| u.total_unit.is_positive()));
}

#[test]
fn stock_report_of_nothing_is_empty() {
    let (people, accounts, tickers) = lookups();
    let r = stock_units(&Vec::new(), &people, &accounts, &tickers);
    assert!(r.is_empty());
}

#[test]
fn stock_report_keys_are_distinct() {
    let rows = vec![
        StockRow::from_signed(1, 20, 30, &d("2"), 1),
        StockRow::from_signed(1, 22, 30, &d("1"), 1),
        StockRow::from_signed(1, 20, 31, &d("5"), 1),
        StockRow::from_signed(1, 22, 31, &d("5"), 1),
    ];
    let g = accumulate_stock_units(&rows);
    assert_eq!(g.len(), 4);
    let (people, accounts, tickers) = lookups();
    let r = stock_units(&g, &people, &accounts, &tickers);
    assert_eq!(r.len(), 2);
    for i in 0..r.len() {
        for j in (i + 1)..r.len() {
            assert!((&r[i].name, &r[i].account_name, &r[i].ticker) != (&r[j].name, &r[j].account_name, &r[j].ticker));
        }
    }
    assert_dec(&r[0].total_unit, "3");
    assert_dec(&r[1].total_unit, "10");
}
