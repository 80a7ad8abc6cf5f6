use bigdecimal::num_bigint::BigInt;
use bigdecimal::BigDecimal;
use std::collections::HashMap;
use std::str::FromStr;
use transaction::account_kind::AccountKindQuery;
use transaction::date::LocalDateTime;
use transaction::decimal::Decimal;
use transaction::ledger_view::{
    account_statement, get_transaction_entries, stock_transactions, try_account_statement,
    try_get_transaction_entries, try_stock_transactions, AccountEntryRow, GetTransactionRow, StockTransactionRow,
};

fn big(x: &Decimal) -> BigDecimal {
    BigDecimal::new(BigInt::from_signed_bytes_le(&x.mantissa), x.scale)
}

fn assert_dec(x: &Decimal, s: &str) {
    assert_eq!(big(x), BigDecimal::from_str(s).unwrap(), "expected {}", s);
}

fn day(timestamp: i64) -> LocalDateTime {
    LocalDateTime { timestamp, nanosecond: 0, year: 2024, month: 1, day: 1 }
}

fn s(x: &str) -> Option<String> {
    Some(x.to_string())
}

fn kinds() -> AccountKindQuery {
    let mut m = HashMap::new();
    m.insert(1, "ASSET".to_string());
    m.insert(2, "LIABILITIES".to_string());
    m.insert(3, "EQUITY".to_string());
    m.insert(4, "EXPENSE".to_string());
    m.insert(5, "REVENUE".to_string());
    AccountKindQuery::new(m)
}

fn account_row(item_id: i64, ts: i64, unit: &str, debit: Option<String>, credit: Option<String>, kind: i64) -> AccountEntryRow {
    AccountEntryRow {
        transaction_id: 100 + item_id,
        item_id,
        date: day(ts),
        unit: unit.to_string(),
        debit,
        credit,
        exchange_rate: None,
        description: format!("item {}", item_id),
        account_kind_id: kind,
    }
}

#[test]
fn transaction_entries_carry_their_balance() {
    let rows = vec![
        GetTransactionRow {
            item_id: 1,
            date: day(10),
            account_key: "cash".to_string(),
            account_kind: "ASSET".to_string(),
            forex_rate: s("1.3"),
            unit: "2".to_string(),
            debit: s("10.005"),
            credit: None,
            description: "pay".to_string(),
        },
        GetTransactionRow {
            item_id: 2,
            date: day(10),
            account_key: "visa".to_string(),
            account_kind: "LIABILITIES".to_string(),
            forex_rate: None,
            unit: "1".to_string(),
            debit: None,
            credit: s("26.01"),
            description: "pay".to_string(),
        },
    ];
    let v = get_transaction_entries(&rows);
    assert_eq!(v.len(), 2);
    assert_eq!(v[0].item_id, 1);
    assert_eq!(v[0].account_key, "cash");
    assert_dec(&v[0].balance, "26.01");
    assert_dec(v[0].forex_rate.as_ref().unwrap(), "1.3");
    assert!(v[0].credit.is_none());
    assert_dec(&v[1].balance, "-26.01");
    assert_eq!(v[0].balance.scale, 2);
    assert_eq!(v[1].balance.scale, 2);
    assert!(v[1].forex_rate.is_none());
    assert_eq!(v[1].description, "pay");
}

#[test]
fn account_statement_opens_with_the_earlier_entries() {
    let q = kinds();
    let rows = vec![
        account_row(1, 10, "1", s("100"), None, 1),
        account_row(2, 20, "1", None, s("30"), 1),
        account_row(3, 50, "2", s("5"), None, 1),
        account_row(4, 60, "1", None, s("1"), 1),
    ];
    let r = account_statement(&rows, &q, day(50));
    assert_eq!(r.len(), 3);
    assert_eq!(r[0].description, "Open Balance");
    assert!(r[0].transaction_id.is_none());
    assert!(r[0].item_id.is_none());
    assert_eq!(r[0].date.timestamp, 50);
    assert_dec(&r[0].unit, "1");
    assert_dec(r[0].debit.as_ref().unwrap(), "100");
    assert_dec(r[0].credit.as_ref().unwrap(), "30");
    assert_dec(&r[0].total_amount, "70");
    assert_eq!(r[1].item_id, Some(3));
    assert_eq!(r[1].transaction_id, Some(103));
    assert_dec(&r[1].total_amount, "10");
    assert_eq!(r[2].item_id, Some(4));
    assert_dec(&r[2].total_amount, "-1");
    assert_eq!(r[2].description, "item 4");
}

#[test]
fn account_statement_of_a_credit_account() {
    let q = kinds();
    let rows = vec![
        account_row(1, 10, "1", None, s("40"), 2),
        account_row(2, 70, "1", s("15"), None, 2),
    ];
    let r = account_statement(&rows, &q, day(50));
    assert_dec(&r[0].total_amount, "40");
    assert_dec(&r[1].total_amount, "-15");
}

#[test]
fn account_statement_keeps_the_total_on_an_example() {
    let q = kinds();
    let rows = vec![
        account_row(1, 10, "1", s("100"), None, 1),
        account_row(2, 60, "3", None, s("2.5"), 1),
        account_row(3, 20, "1", None, s("30"), 1),
        account_row(4, 80, "1", s("4"), None, 1),
    ];
    let r = account_statement(&rows, &q, day(50));
    let mut total = Decimal::zero();
    for e in r.iter() {
        total = total.add(&e.total_amount);
    }
    assert_dec(&total, "66.5");
}

#[test]
fn account_statement_with_nothing_before_start() {
    let q = kinds();
    let rows = vec![account_row(1, 60, "1", s("9"), None, 4)];
    let r = account_statement(&rows, &q, day(50));
    assert_eq!(r.len(), 2);
    assert!(r[0].total_amount.is_zero());
    assert!(r[0].debit.as_ref().unwrap().is_zero());
    assert_dec(&r[1].total_amount, "9");
}

#[test]
fn stock_transactions_latest_first() {
    let row = |ts: i64, unit: &str| StockTransactionRow {
        name: "Bob".to_string(),
        account_type: "TFSA".to_string(),
        ticker: "VFV".to_string(),
        date: day(ts),
        unit: unit.to_string(),
        debit: s("100"),
        credit: None,
    };
    let rows = vec![row(10, "1"), row(30, "2"), row(20, "3"), row(30, "4")];
    let v = stock_transactions(&rows);
    let dates: Vec<i64> = v.iter().map(|t| t.date.timestamp).collect();
    assert_eq!(dates, vec![30, 30, 20, 10]);
    assert_dec(&v[0].unit, "2");
    assert_dec(&v[1].unit, "4");
    assert_dec(v[0].debit.as_ref().unwrap(), "100");
    assert!(v[0].credit.is_none());
    assert_eq!(v[3].ticker, "VFV");
}

#[test]
fn try_variants_refuse_bad_decimals() {
    let q = kinds();
    let good = vec![account_row(1, 10, "1", s("100"), None, 1)];
    let r = try_account_statement(&good, &q, day(50)).unwrap();
    assert_dec(&r[0].total_amount, "100");
    let bad = vec![account_row(1, 10, "1", s("1O0"), None, 1)];
    assert!(try_account_statement(&bad, &q, day(50)).is_none());
    let mut bad_rate = account_row(1, 10, "1", s("100"), None, 1);
    bad_rate.exchange_rate = s("x");
    assert!(try_account_statement(&vec![bad_rate], &q, day(50)).is_none());

    let tx = GetTransactionRow {
        item_id: 1,
        date: day(10),
        account_key: "cash".to_string(),
        account_kind: "ASSET".to_string(),
        forex_rate: None,
        unit: "one".to_string(),
        debit: s("1"),
        credit: None,
        description: "d".to_string(),
    };
    assert!(try_get_transaction_entries(&vec![tx]).is_none());
    assert_eq!(try_get_transaction_entries(&vec![]).unwrap().len(), 0);

    let trade = StockTransactionRow {
        name: "Bob".to_string(),
        account_type: "TFSA".to_string(),
        ticker: "VFV".to_string(),
        date: day(10),
        unit: "2".to_string(),
        debit: None,
        credit: s("?"),
    };
    assert!(try_stock_transactions(&vec![trade]).is_none());
}

#[test]
fn account_statement_orders_within_a_second() {
    let q = kinds();
    let rows = vec![account_row(1, 50, "1", s("100"), None, 1), account_row(2, 60, "1", s("7"), None, 1)];
    let mut start = day(50);
    start.nanosecond = 500_000_000;
    let r = account_statement(&rows, &q, start);
    assert_eq!(r.len(), 2);
    assert_dec(r[0].debit.as_ref().unwrap(), "100");
    assert_eq!(r[1].item_id, Some(2));
}
