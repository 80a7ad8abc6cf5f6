use bigdecimal::num_bigint::BigInt;
use bigdecimal::BigDecimal;
use std::collections::HashMap;
use std::str::FromStr;
use transaction::balance::{accumulate_balances, accumulate_cash_balances, project_data, BalanceRow, CashBalanceRow};
use transaction::decimal::{Decimal, InvalidDecimal};
use transaction::expense::{expense_by_category, ExpenseRow};
use transaction::typed_balance::{
    accumulate_typed_balances, accumulate_typed_cash_balances, project_data as project_typed, TypedBalanceRow,
    TypedCashBalanceRow,
};

fn d(s: &str) -> Decimal {
    Decimal::parse(s).unwrap()
}

fn big(x: &Decimal) -> BigDecimal {
    BigDecimal::new(BigInt::from_signed_bytes_le(&x.mantissa), x.scale)
}

fn assert_dec(x: &Decimal, s: &str) {
    assert_eq!(big(x), BigDecimal::from_str(s).unwrap(), "expected {}", s);
}

fn entry(person_id: Option<i64>, account_id: i64, fx: &str, unit: &str, debit: &str, credit: &str, is_debit_balance: bool) -> BalanceRow {
    BalanceRow {
        person_id,
        account_id,
        forex_rate: d(fx),
        unit: d(unit),
        debit: d(debit),
        credit: d(credit),
        is_debit_balance,
    }
}

fn names() -> (HashMap<i64, String>, HashMap<i64, String>) {
    let mut people = HashMap::new();
    people.insert(1, "Bob".to_string());
    people.insert(2, "Alice".to_string());
    let mut accounts = HashMap::new();
    accounts.insert(10, "Chequing".to_string());
    accounts.insert(11, "Visa".to_string());
    accounts.insert(12, "Savings".to_string());
    (people, accounts)
}

#[test]
fn balances_sum_per_person_and_account() {
    let rows = vec![
        entry(Some(1), 10, "1", "1", "100", "0", true),
        entry(Some(1), 11, "1", "1", "0", "40", false),
        entry(Some(1), 10, "1.25", "2", "0", "10", true),
        entry(None, 12, "1", "1", "3.333", "0", true),
    ];
    let g = accumulate_balances(&rows);
    assert_eq!(g.len(), 3);
    assert_eq!((g[0].person_id, g[0].account_id, g[0].account_type_id), (Some(1), 10, None));
    assert_dec(&g[0].balance, "75");
    assert_eq!((g[1].person_id, g[1].account_id), (Some(1), 11));
    assert_dec(&g[1].balance, "40");
    assert_eq!((g[2].person_id, g[2].account_id), (None, 12));
    assert_dec(&g[2].balance, "3.33");
}

#[test]
fn cash_balances_sum_per_person_and_account() {
    let rows = vec![
        CashBalanceRow { person_id: 2, account_id: 10, unit: d("1"), debit: d("50"), credit: d("0") },
        CashBalanceRow { person_id: 2, account_id: 10, unit: d("1"), debit: d("0"), credit: d("20.005") },
        CashBalanceRow { person_id: 1, account_id: 10, unit: d("3"), debit: d("1"), credit: d("0") },
    ];
    let g = accumulate_cash_balances(&rows);
    assert_eq!(g.len(), 2);
    assert_eq!(g[0].person_id, Some(2));
    assert_dec(&g[0].balance, "29.99");
    assert_eq!(g[1].person_id, Some(1));
    assert_dec(&g[1].balance, "3");
}

#[test]
fn balance_report_drops_zero_and_sorts() {
    let rows = vec![
        entry(Some(1), 12, "1", "1", "5", "0", true),
        entry(Some(2), 11, "1", "1", "7", "0", true),
        entry(Some(1), 10, "1", "1", "5", "5", true),
        entry(None, 10, "1", "1", "1", "0", true),
        entry(Some(2), 10, "1", "1", "2", "0", true),
    ];
    let g = accumulate_balances(&rows);
    let (people, accounts) = names();
    let r = project_data(&g, &people, &accounts);
    let got: Vec<(String, String)> = r.iter().map(|x| (x.name.clone(), x.account_name.clone())).collect();
    assert_eq!(
        got,
        vec![
            ("".to_string(), "Chequing".to_string()),
            ("Alice".to_string(), "Chequing".to_string()),
            ("Alice".to_string(), "Visa".to_string()),
            ("Bob".to_string(), "Savings".to_string()),
        ]
    );
    assert_dec(&r[1].balance, "2");
    assert_dec(&r[3].balance, "5");
    assert!(r.iter().all(|x| !x.balance.is_zero()));
    assert!(r.iter().all(|x| x.balance.scale == 2));
}

#[test]
fn typed_balances_read_strings_and_negate_credit_kinds() {
    let rows = vec![
        TypedBalanceRow {
            person_id: Some(1),
            account_type_id: 3,
            account_id: 10,
            unit: "1".to_string(),
            debit: Some("12.5".to_string()),
            credit: None,
            is_debit_balance: true,
        },
        TypedBalanceRow {
            person_id: Some(1),
            account_type_id: 4,
            account_id: 11,
            unit: "2".to_string(),
            debit: None,
            credit: Some("3".to_string()),
            is_debit_balance: false,
        },
    ];
    let g = accumulate_typed_balances(&rows).unwrap();
    assert_eq!(g.len(), 2);
    assert_eq!(g[0].account_type_id, Some(3));
    assert_dec(&g[0].balance, "12.5");
    assert_dec(&g[1].balance, "6");
}

#[test]
fn typed_balances_fail_on_a_bad_decimal() {
    let rows = vec![TypedBalanceRow {
        person_id: None,
        account_type_id: 3,
        account_id: 10,
        unit: "1".to_string(),
        debit: Some("twelve".to_string()),
        credit: None,
        is_debit_balance: true,
    }];
    assert_eq!(accumulate_typed_balances(&rows).err(), Some(InvalidDecimal));
    let cash = vec![TypedCashBalanceRow {
        person_id: 1,
        account_type_id: 3,
        account_id: 10,
        unit: "".to_string(),
        debit: None,
        credit: None,
    }];
    assert_eq!(accumulate_typed_cash_balances(&cash).err(), Some(InvalidDecimal));
}

#[test]
fn typed_report_orders_by_name_type_and_account() {
    let cash = vec![
        TypedCashBalanceRow {
            person_id: 1,
            account_type_id: 4,
            account_id: 10,
            unit: "1".to_string(),
            debit: Some("9".to_string()),
            credit: None,
        },
        TypedCashBalanceRow {
            person_id: 1,
            account_type_id: 3,
            account_id: 12,
            unit: "1".to_string(),
            debit: Some("1".to_string()),
            credit: Some("1".to_string()),
        },
        TypedCashBalanceRow {
            person_id: 1,
            account_type_id: 3,
            account_id: 11,
            unit: "1".to_string(),
            debit: None,
            credit: Some("4".to_string()),
        },
    ];
    let g = accumulate_typed_cash_balances(&cash).unwrap();
    let (people, accounts) = names();
    let mut types = HashMap::new();
    types.insert(3, "Cash".to_string());
    types.insert(4, "Bank".to_string());
    let r = project_typed(&g, &types, &people, &accounts);
    assert_eq!(r.len(), 2);
    assert_eq!((r[0].account_type.as_str(), r[0].account_name.as_str()), ("Bank", "Chequing"));
    assert_dec(&r[0].balance, "9");
    assert_eq!((r[1].account_type.as_str(), r[1].account_name.as_str()), ("Cash", "Visa"));
    assert_dec(&r[1].balance, "-4");
    assert_eq!(r[1].name, "Bob");
}

#[test]
fn expenses_sum_per_account_type() {
    let rows = vec![
        ExpenseRow { account_type_id: 5, unit: d("1"), debit: d("10.004") },
        ExpenseRow { account_type_id: 6, unit: d("2"), debit: d("3") },
        ExpenseRow { account_type_id: 5, unit: d("1"), debit: d("0.5") },
    ];
    let mut types = HashMap::new();
    types.insert(5, "Food".to_string());
    types.insert(6, "Rent".to_string());
    let r = expense_by_category(&rows, &types);
    assert_eq!(r.len(), 2);
    assert_eq!(r[0].account_type, "Food");
    assert_dec(&r[0].balance, "10.5");
    assert_eq!(r[1].account_type, "Rent");
    assert_dec(&r[1].balance, "6");
}

#[test]
fn balances_keep_the_total_of_the_entries() {
    let rows = vec![
        entry(Some(1), 10, "1", "1", "100", "0", true),
        entry(Some(2), 11, "1", "1", "0", "40", false),
        entry(Some(1), 10, "1.5", "2", "0", "10.001", true),
        entry(Some(2), 11, "1", "3", "0.333", "0", false),
        entry(None, 12, "1", "1", "3.333", "0", true),
    ];
    let g = accumulate_balances(&rows);
    let mut groups_sum = Decimal::zero();
    for x in g.iter() {
        groups_sum = groups_sum.add(&x.balance);
    }
    assert_dec(&groups_sum, "112.33");
}
