use std::collections::HashMap;
use transaction::account_kind::AccountKindQuery;

fn kinds() -> HashMap<i64, String> {
    let mut m = HashMap::new();
    m.insert(1, "ASSET".to_string());
    m.insert(2, "LIABILITIES".to_string());
    m.insert(3, "EQUITY".to_string());
    m.insert(4, "EXPENSE".to_string());
    m.insert(5, "REVENUE".to_string());
    m
}

#[test]
fn debit_balance_kinds_are_asset_and_expense() {
    let q = AccountKindQuery::new(kinds());
    assert!(q.is_using_debit_balance(1));
    assert!(q.is_using_debit_balance(4));
    assert!(!q.is_using_debit_balance(2));
    assert!(!q.is_using_debit_balance(3));
    assert!(!q.is_using_debit_balance(5));
    assert!(!q.is_using_debit_balance(99));
}

#[test]
fn credit_balance_is_every_other_kind() {
    let q = AccountKindQuery::new(kinds());
    for id in [1, 2, 3, 4, 5, 99] {
        assert_eq!(q.is_using_credit_balance(id), !q.is_using_debit_balance(id));
    }
    assert!(q.is_using_credit_balance(2));
    assert!(q.is_using_credit_balance(5));
}

#[test]
fn asset_and_liabilities_ids() {
    let q = AccountKindQuery::new(kinds());
    assert!(q.is_asset_kind_id(1));
    assert!(!q.is_asset_kind_id(2));
    assert!(q.is_liabilities_kind_id(2));
    assert!(!q.is_liabilities_kind_id(1));
}

#[test]
fn must_get_str_names_the_kind() {
    let q = AccountKindQuery::new(kinds());
    assert_eq!(q.must_get_str(3), "EQUITY");
    assert_eq!(q.must_get_str(5), "REVENUE");
}

#[test]
fn ids_follow_the_table() {
    let mut m = HashMap::new();
    m.insert(10, "REVENUE".to_string());
    m.insert(20, "EXPENSE".to_string());
    m.insert(30, "EQUITY".to_string());
    m.insert(40, "LIABILITIES".to_string());
    m.insert(50, "ASSET".to_string());
    let q = AccountKindQuery::new(m);
    assert!(q.is_asset_kind_id(50));
    assert!(q.is_liabilities_kind_id(40));
    assert!(q.is_using_debit_balance(20));
    assert!(q.is_using_credit_balance(10));
}

#[test]
fn contains_kind_follows_the_table() {
    let q = AccountKindQuery::new(kinds());
    assert!(q.contains_kind(1));
    assert!(q.contains_kind(5));
    assert!(!q.contains_kind(6));
}
