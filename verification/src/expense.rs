//! Recent expenses per account type.

use vstd::prelude::*;
use std::collections::HashMap;
use crate::balance::{accumulate, amount_of, group_models, groups_in_cents, groups_of, key_of, lemma_groups_keys_seen, KeyedAmount};
use crate::decimal::{lemma_rep_mul_abs, DecValue, Decimal};

verus! {

broadcast use vstd::std_specs::hash::group_hash_axioms;

/// An expense entry.
pub struct ExpenseRow {
    pub account_type_id: i64,
    pub unit: Decimal,
    pub debit: Decimal,
}

/// The expenses of an account type.
pub struct ExpenseByCategoryResult {
    pub account_type: String,
    pub balance: Decimal,
}

/// What an expense entry adds: `unit * debit` rounded to cents.
pub open spec fn expense_amount(r: ExpenseRow) -> DecValue {
    r.unit@.mul(r.debit@).round2()
}

/// The expense entries as amounts kept under their account type (in the
/// `account_id` place of the key).
pub open spec fn expense_amounts(rows: Seq<ExpenseRow>) -> Seq<KeyedAmount> {
    rows.map_values(
        |r: ExpenseRow|
            KeyedAmount { person_id: None, account_id: r.account_type_id, account_type_id: None, amount: expense_amount(r) },
    )
}

/// The expenses per account type, in order of first entry: the name of the
/// type and the sum of its entries' amounts.
pub fn expense_by_category(rows: &Vec<ExpenseRow>, account_types: &HashMap<i64, String>) -> (r: Vec<
    ExpenseByCategoryResult,
>)
    requires
        forall|i: int| 0 <= i < rows@.len() ==> account_types@.contains_key((#[trigger] rows@[i]).account_type_id),
        forall|i: int| 0 <= i < rows@.len() ==> (#[trigger] rows@[i]).unit.small_scale() && rows@[i].debit.small_scale(),
    ensures
        r@.len() == groups_of(expense_amounts(rows@)).len(),
        forall|k: int|
            0 <= k < r@.len() ==> (#[trigger] r@[k]).account_type@ == account_types@[groups_of(
                expense_amounts(rows@),
            )[k].account_id]@ && r@[k].balance@ == groups_of(expense_amounts(rows@))[k].amount,
        forall|k: int| 0 <= k < r@.len() ==> (#[trigger] r@[k]).balance.scale == 2,
{
    let ghost s = expense_amounts(rows@);
    let mut amounts: Vec<(Option<i64>, i64, Option<i64>, Decimal)> = Vec::new();
    let n = rows.len();
    for i in 0..n
        invariant
            n == rows@.len(),
            s == expense_amounts(rows@),
            amounts@.len() == i,
            forall|k: int| 0 <= k < i ==> s[k] == amount_of(#[trigger] amounts@[k]),
            forall|k: int| 0 <= k < i ==> (#[trigger] amounts@[k]).3.scale == 2,
            forall|k: int| 0 <= k < rows@.len() ==> (#[trigger] rows@[k]).unit.small_scale() && rows@[k].debit.small_scale(),
    {
        let r = &rows[i];
        assert(rows@[i as int].unit.small_scale());
        let product = r.unit.mul(&r.debit);
        proof {
            lemma_rep_mul_abs(r.unit.rep(), r.debit.rep());
        }
        amounts.push((None, r.account_type_id, None, product.round2()));
    }
    let groups = accumulate(amounts, Ghost(s));
    let ghost gs = group_models(groups@);
    proof {
        lemma_groups_keys_seen(s);
    }
    let mut out: Vec<ExpenseByCategoryResult> = Vec::new();
    let m = groups.len();
    for k in 0..m
        invariant
            m == groups@.len(),
            gs == group_models(groups@),
            gs == groups_of(s),
            s == expense_amounts(rows@),
            forall|i: int| 0 <= i < rows@.len() ==> account_types@.contains_key((#[trigger] rows@[i]).account_type_id),
            forall|a: int| 0 <= a < gs.len() ==> exists|i: int| 0 <= i < s.len() && key_of(#[trigger] s[i]) == key_of(#[trigger] gs[a]),
            out@.len() == k,
            groups_in_cents(groups@),
            forall|a: int| 0 <= a < k ==> (#[trigger] out@[a]).balance.scale == 2,
            forall|a: int|
                0 <= a < k ==> (#[trigger] out@[a]).account_type@ == account_types@[gs[a].account_id]@
                    && out@[a].balance@ == gs[a].amount,
    {
        let g = &groups[k];
        assert(groups@[k as int].balance.scale == 2);
        assert(gs[k as int].account_id == g.account_id);
        proof {
            let i = choose|i: int| 0 <= i < s.len() && key_of(#[trigger] s[i]) == key_of(gs[k as int]);
            assert(s[i].account_id == rows@[i].account_type_id);
        }
        let account_type = match account_types.get(&g.account_id) {
            Some(t) => t.clone(),
            None => String::new(),
        };
        out.push(ExpenseByCategoryResult { account_type, balance: g.balance.copy() });
    }
    out
}

} // verus!
