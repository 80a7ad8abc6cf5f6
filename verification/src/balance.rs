//! Account balances per person and account, in the home currency.

use vstd::prelude::*;
use std::collections::HashMap;
use crate::decimal::{
    dec_int, is_normal, law_add_associative, law_add_commutative, law_add_zero, lemma_add_scale,
    lemma_lt_irreflexive, lemma_lt_total, lemma_lt_transitive, lemma_normalize, DecValue, Decimal,
};
use crate::text::{
    chars_lt, chars_of, lemma_seq_lt_irreflexive, lemma_seq_lt_total, lemma_seq_lt_transitive, seq_lt,
};

verus! {

broadcast use vstd::std_specs::hash::group_hash_axioms;

/// A financial entry of an account of some kind. `is_debit_balance` holds
/// where the kind keeps a debit balance (asset, expense).
pub struct BalanceRow {
    pub person_id: Option<i64>,
    pub account_id: i64,
    pub forex_rate: Decimal,
    pub unit: Decimal,
    pub debit: Decimal,
    pub credit: Decimal,
    pub is_debit_balance: bool,
}

/// A financial entry of a cash account of a person.
pub struct CashBalanceRow {
    pub person_id: i64,
    pub account_id: i64,
    pub unit: Decimal,
    pub debit: Decimal,
    pub credit: Decimal,
}

/// The balance of an account of a person (or of nobody), and of an account
/// type where balances are kept per type.
pub struct BalanceGroup {
    pub person_id: Option<i64>,
    pub account_id: i64,
    pub account_type_id: Option<i64>,
    pub balance: Decimal,
}

/// A balance as reports show it.
pub struct BalanceRecord {
    pub name: String,
    pub account_name: String,
    pub balance: Decimal,
}

/// An amount under the key of its account.
pub struct KeyedAmount {
    pub person_id: Option<i64>,
    pub account_id: i64,
    pub account_type_id: Option<i64>,
    pub amount: DecValue,
}

/// The values of a `BalanceRecord`.
pub struct RecordModel {
    pub name: Seq<char>,
    pub account_name: Seq<char>,
    pub balance: DecValue,
}

/// The scales of an entry lie within the ledger's bounds.
pub open spec fn balance_row_in_range(r: BalanceRow) -> bool {
    r.forex_rate.small_scale() && r.unit.small_scale() && r.debit.small_scale() && r.credit.small_scale()
}

/// The scales of a cash entry lie within the ledger's bounds.
pub open spec fn cash_row_in_range(r: CashBalanceRow) -> bool {
    r.unit.small_scale() && r.debit.small_scale() && r.credit.small_scale()
}

/// What an entry adds to its balance: `forex_rate * unit * (debit - credit)`
/// rounded to cents, negated where the kind keeps a credit balance.
pub open spec fn row_amount(r: BalanceRow) -> DecValue {
    let b = r.forex_rate@.mul(r.unit@).mul(r.debit@.sub(r.credit@)).round2();
    if r.is_debit_balance {
        b
    } else {
        b.neg()
    }
}

/// What a cash entry adds to its balance: `unit * (debit - credit)` rounded to
/// cents.
pub open spec fn cash_row_amount(r: CashBalanceRow) -> DecValue {
    r.unit@.mul(r.debit@.sub(r.credit@)).round2()
}

pub open spec fn row_amounts(rows: Seq<BalanceRow>) -> Seq<KeyedAmount> {
    rows.map_values(
        |r: BalanceRow|
            KeyedAmount {
                person_id: r.person_id,
                account_id: r.account_id,
                account_type_id: None,
                amount: row_amount(r),
            },
    )
}

pub open spec fn cash_row_amounts(rows: Seq<CashBalanceRow>) -> Seq<KeyedAmount> {
    rows.map_values(
        |r: CashBalanceRow|
            KeyedAmount {
                person_id: Some(r.person_id),
                account_id: r.account_id,
                account_type_id: None,
                amount: cash_row_amount(r),
            },
    )
}

/// The key of an amount.
pub open spec fn key_of(a: KeyedAmount) -> (Option<i64>, i64, Option<i64>) {
    (a.person_id, a.account_id, a.account_type_id)
}

/// The sum of the amounts under key `k` among the first `n`, added in order
/// to zero.
pub open spec fn group_total(s: Seq<KeyedAmount>, k: (Option<i64>, i64, Option<i64>), n: int) -> DecValue
    decreases n,
{
    if n <= 0 {
        dec_int(0)
    } else if key_of(s[n - 1]) == k {
        group_total(s, k, n - 1).add(s[n - 1].amount)
    } else {
        group_total(s, k, n - 1)
    }
}

/// The key of amount `i` occurs before it.
pub open spec fn seen_before(s: Seq<KeyedAmount>, i: int) -> bool {
    exists|j: int| 0 <= j < i && key_of(#[trigger] s[j]) == key_of(s[i])
}

/// The keys of the first `n` amounts, in order of first occurrence.
pub open spec fn group_keys_upto(s: Seq<KeyedAmount>, n: int) -> Seq<(Option<i64>, i64, Option<i64>)>
    decreases n,
{
    if n <= 0 {
        Seq::empty()
    } else if seen_before(s, n - 1) {
        group_keys_upto(s, n - 1)
    } else {
        group_keys_upto(s, n - 1).push(key_of(s[n - 1]))
    }
}

/// The balance under key `k` after the first `n` amounts.
pub open spec fn group_at(s: Seq<KeyedAmount>, k: (Option<i64>, i64, Option<i64>), n: int) -> KeyedAmount {
    KeyedAmount { person_id: k.0, account_id: k.1, account_type_id: k.2, amount: group_total(s, k, n) }
}

/// The groups of the first `n` amounts with their totals so far.
pub open spec fn groups_upto(s: Seq<KeyedAmount>, n: int) -> Seq<KeyedAmount> {
    group_keys_upto(s, n).map_values(|k: (Option<i64>, i64, Option<i64>)| group_at(s, k, n))
}

/// One balance per key, in order of first occurrence, each the sum of the
/// amounts under its key.
pub open spec fn groups_of(s: Seq<KeyedAmount>) -> Seq<KeyedAmount> {
    groups_upto(s, s.len() as int)
}

pub open spec fn group_model(g: BalanceGroup) -> KeyedAmount {
    KeyedAmount {
        person_id: g.person_id,
        account_id: g.account_id,
        account_type_id: g.account_type_id,
        amount: g.balance@,
    }
}

pub open spec fn group_models(v: Seq<BalanceGroup>) -> Seq<KeyedAmount> {
    v.map_values(|g: BalanceGroup| group_model(g))
}

/// The keys so far occur once each, and are exactly those seen.
proof fn lemma_group_keys(s: Seq<KeyedAmount>, n: int)
    requires
        0 <= n <= s.len(),
    ensures
        forall|a: int, b: int|
            0 <= a < b < group_keys_upto(s, n).len() ==> group_keys_upto(s, n)[a] != group_keys_upto(
                s,
                n,
            )[b],
        forall|j: int| 0 <= j < n ==> group_keys_upto(s, n).contains(key_of(#[trigger] s[j])),
        forall|k: (Option<i64>, i64, Option<i64>)|
            group_keys_upto(s, n).contains(k) ==> exists|j: int| 0 <= j < n && key_of(#[trigger] s[j]) == k,
    decreases n,
{
    if n > 0 {
        lemma_group_keys(s, n - 1);
        let prev = group_keys_upto(s, n - 1);
        if !seen_before(s, n - 1) {
            let k = key_of(s[n - 1]);
            assert(!prev.contains(k));
            let cur = prev.push(k);
            assert forall|j: int| 0 <= j < n implies cur.contains(key_of(#[trigger] s[j])) by {
                if j < n - 1 {
                    assert(prev.contains(key_of(s[j])));
                    let a = prev.index_of(key_of(s[j]));
                    assert(cur[a] == prev[a]);
                } else {
                    assert(cur[prev.len() as int] == k);
                }
            }
            assert forall|kk: (Option<i64>, i64, Option<i64>)| cur.contains(kk) implies exists|j: int|
                0 <= j < n && key_of(#[trigger] s[j]) == kk by {
                let a = cur.index_of(kk);
                if a < prev.len() {
                    assert(prev[a] == kk);
                    assert(prev.contains(kk));
                } else {
                    assert(key_of(s[n - 1]) == kk);
                }
            }
        } else {
            let j0 = choose|j: int| 0 <= j < n - 1 && key_of(#[trigger] s[j]) == key_of(s[n - 1]);
            assert(prev.contains(key_of(s[j0])));
        }
    }
}

/// Each balance is under the key of some amount.
pub proof fn lemma_groups_keys_seen(s: Seq<KeyedAmount>)
    ensures
        forall|a: int|
            0 <= a < groups_of(s).len() ==> exists|i: int|
                0 <= i < s.len() && key_of(#[trigger] s[i]) == key_of(#[trigger] groups_of(s)[a]),
{
    lemma_group_keys(s, s.len() as int);
    let keys = group_keys_upto(s, s.len() as int);
    assert forall|a: int| 0 <= a < groups_of(s).len() implies exists|i: int|
        0 <= i < s.len() && key_of(#[trigger] s[i]) == key_of(#[trigger] groups_of(s)[a]) by {
        assert(key_of(groups_of(s)[a]) == keys[a]);
        assert(keys.contains(keys[a]));
    }
}

/// Grouping gives one balance per key: no key twice, a balance for the key of
/// every amount, and each balance the sum of the amounts under its key.
pub proof fn law_groups_of(s: Seq<KeyedAmount>)
    ensures
        forall|a: int, b: int|
            0 <= a < b < groups_of(s).len() ==> key_of(#[trigger] groups_of(s)[a]) != key_of(
                #[trigger] groups_of(s)[b],
            ),
        forall|i: int|
            0 <= i < s.len() ==> exists|a: int|
                0 <= a < groups_of(s).len() && key_of(#[trigger] groups_of(s)[a]) == key_of(#[trigger] s[i]),
        forall|a: int|
            0 <= a < groups_of(s).len() ==> (#[trigger] groups_of(s)[a]).amount == group_total(
                s,
                key_of(groups_of(s)[a]),
                s.len() as int,
            ),
{
    lemma_group_keys(s, s.len() as int);
    let keys = group_keys_upto(s, s.len() as int);
    let g = groups_of(s);
    assert forall|a: int| 0 <= a < g.len() implies key_of(#[trigger] g[a]) == keys[a] by {}
    assert forall|a: int, b: int| 0 <= a < b < g.len() implies key_of(#[trigger] g[a]) != key_of(
        #[trigger] g[b],
    ) by {
        assert(key_of(g[a]) == keys[a]);
        assert(key_of(g[b]) == keys[b]);
    }
    assert forall|i: int| 0 <= i < s.len() implies exists|a: int|
        0 <= a < g.len() && key_of(#[trigger] g[a]) == key_of(#[trigger] s[i]) by {
        assert(keys.contains(key_of(s[i])));
        let a = keys.index_of(key_of(s[i]));
        assert(key_of(g[a]) == keys[a]);
    }
}

/// A key that does not occur among the first `n` amounts totals zero.
proof fn lemma_total_unseen(s: Seq<KeyedAmount>, k: (Option<i64>, i64, Option<i64>), n: int)
    requires
        forall|j: int| 0 <= j < n ==> key_of(#[trigger] s[j]) != k,
    ensures
        group_total(s, k, n) == dec_int(0),
    decreases n,
{
    if n > 0 {
        lemma_total_unseen(s, k, n - 1);
    }
}

fn same_opt(a: Option<i64>, b: Option<i64>) -> (r: bool)
    ensures
        r == (a == b),
{
    match (a, b) {
        (Some(x), Some(y)) => x == y,
        (None, None) => true,
        _ => false,
    }
}

pub open spec fn amount_of(t: (Option<i64>, i64, Option<i64>, Decimal)) -> KeyedAmount {
    KeyedAmount { person_id: t.0, account_id: t.1, account_type_id: t.2, amount: t.3@ }
}

/// Sums keyed amounts into one balance per key, in order of first occurrence.
/// Every balance is written in cents (at scale two), as rounding each
/// entry's amount to cents and summing leaves it.
pub open spec fn groups_in_cents(groups: Seq<BalanceGroup>) -> bool {
    forall|k: int| 0 <= k < groups.len() ==> (#[trigger] groups[k]).balance.scale == 2
}

/// Every record's balance is written in cents.
pub open spec fn records_in_cents(recs: Seq<BalanceRecord>) -> bool {
    forall|k: int| 0 <= k < recs.len() ==> (#[trigger] recs[k]).balance.scale == 2
}

pub(crate) fn accumulate(amounts: Vec<(Option<i64>, i64, Option<i64>, Decimal)>, Ghost(s): Ghost<Seq<KeyedAmount>>) -> (r: Vec<BalanceGroup>)
    requires
        s.len() == amounts@.len(),
        forall|i: int| 0 <= i < s.len() ==> s[i] == amount_of(#[trigger] amounts@[i]),
    ensures
        group_models(r@) == groups_of(s),
        (forall|i: int| 0 <= i < amounts@.len() ==> (#[trigger] amounts@[i]).3.scale == 2) ==> groups_in_cents(r@),
{
    let ghost cents = forall|i: int| 0 <= i < amounts@.len() ==> (#[trigger] amounts@[i]).3.scale == 2;
    let mut out: Vec<BalanceGroup> = Vec::new();
    let n = amounts.len();
    for i in 0..n
        invariant
            n == amounts@.len(),
            s.len() == n,
            forall|k: int| 0 <= k < s.len() ==> s[k] == amount_of(#[trigger] amounts@[k]),
            group_models(out@) == groups_upto(s, i as int),
            cents == forall|k: int| 0 <= k < amounts@.len() ==> (#[trigger] amounts@[k]).3.scale == 2,
            cents ==> groups_in_cents(out@),
    {
        let (p, a, t, amt) = &amounts[i];
        proof {
            if cents {
                assert(amounts@[i as int].3.scale == 2);
            }
        }
        proof {
            lemma_group_keys(s, i as int);
            assert(key_of(s[i as int]) == (*p, *a, *t));
        }
        let ghost keys = group_keys_upto(s, i as int);
        proof {
            assert(group_models(out@).len() == out@.len());
            assert(groups_upto(s, i as int).len() == keys.len());
            assert forall|k: int| 0 <= k < out@.len() implies key_of(group_model(#[trigger] out@[k])) == keys[k] by {
                assert(group_models(out@)[k] == group_model(out@[k]));
                assert(groups_upto(s, i as int)[k] == group_at(s, keys[k], i as int));
            }
        }
        let mut j: usize = 0;
        while j < out.len() && !(same_opt(out[j].person_id, *p) && out[j].account_id == *a && same_opt(
            out[j].account_type_id,
            *t,
        ))
            invariant
                j <= out@.len(),
                out@.len() == keys.len(),
                group_models(out@) == groups_upto(s, i as int),
                forall|k: int| 0 <= k < out@.len() ==> key_of(group_model(#[trigger] out@[k])) == keys[k],
                forall|k: int| 0 <= k < j ==> keys[k] != (*p, *a, *t),
            decreases out@.len() - j,
        {
            j = j + 1;
        }
        let ghost before = out@;
        if j < out.len() {
            assert(keys[j as int] == (*p, *a, *t));
            let total = out[j].balance.add(amt);
            out.set(j, BalanceGroup { person_id: *p, account_id: *a, account_type_id: *t, balance: total });
            proof {
                if cents {
                    assert forall|k: int| 0 <= k < out@.len() implies (#[trigger] out@[k]).balance.scale == 2 by {
                        if k != j {
                            assert(out@[k] == before[k]);
                        }
                    }
                }
                assert(seen_before(s, i as int)) by {
                    assert(keys.contains((*p, *a, *t)));
                }
                assert forall|k: int| 0 <= k < keys.len() implies group_model(#[trigger] out@[k]) == groups_upto(s, i + 1)[k] by {
                    if k != j {
                        assert(keys[k] != keys[j as int]);
                        assert(group_model(before[k]) == groups_upto(s, i as int)[k]);
                    } else {
                        assert(group_model(before[k]) == groups_upto(s, i as int)[k]);
                    }
                }
                assert(group_models(out@) =~= groups_upto(s, i + 1));
            }
        } else {
            out.push(
                BalanceGroup {
                    person_id: *p,
                    account_id: *a,
                    account_type_id: *t,
                    balance: Decimal::zero().add(amt),
                },
            );
            proof {
                assert(!seen_before(s, i as int)) by {
                    if seen_before(s, i as int) {
                        let j0 = choose|j0: int| 0 <= j0 < i && key_of(#[trigger] s[j0]) == key_of(s[i as int]);
                        assert(keys.contains(key_of(s[j0])));
                    }
                }
                assert forall|k: int| 0 <= k < keys.len() implies group_model(#[trigger] out@[k]) == groups_upto(s, i + 1)[k] by {
                    assert(keys[k] != (*p, *a, *t));
                    assert(group_model(before[k]) == groups_upto(s, i as int)[k]);
                }
                lemma_total_unseen(s, (*p, *a, *t), i as int);
                if cents {
                    assert forall|k: int| 0 <= k < out@.len() implies (#[trigger] out@[k]).balance.scale == 2 by {
                        if k < before.len() {
                            assert(out@[k] == before[k]);
                        }
                    }
                }
                assert(group_keys_upto(s, i + 1) == keys.push((*p, *a, *t)));
                assert(group_model(out@[keys.len() as int]) == groups_upto(s, i + 1)[keys.len() as int]);
                assert(group_models(out@) =~= groups_upto(s, i + 1));
            }
        }
    }
    out
}

/// The balances of all accounts, one per person and account, in order of
/// first entry.
pub fn accumulate_balances(rows: &Vec<BalanceRow>) -> (r: Vec<BalanceGroup>)
    requires
        forall|i: int| 0 <= i < rows@.len() ==> balance_row_in_range(#[trigger] rows@[i]),
    ensures
        group_models(r@) == groups_of(row_amounts(rows@)),
        groups_in_cents(r@),
{
    let mut amounts: Vec<(Option<i64>, i64, Option<i64>, Decimal)> = Vec::new();
    let n = rows.len();
    for i in 0..n
        invariant
            n == rows@.len(),
            amounts@.len() == i,
            forall|k: int| 0 <= k < i ==> row_amounts(rows@)[k] == amount_of(#[trigger] amounts@[k]),
            forall|k: int| 0 <= k < i ==> (#[trigger] amounts@[k]).3.scale == 2,
            forall|k: int| 0 <= k < rows@.len() ==> balance_row_in_range(#[trigger] rows@[k]),
    {
        let r = &rows[i];
        assert(balance_row_in_range(rows@[i as int]));
        let b = r.forex_rate.mul(&r.unit).mul(&r.debit.sub(&r.credit)).round2();
        let amount = if r.is_debit_balance {
            b
        } else {
            b.neg()
        };
        amounts.push((r.person_id, r.account_id, None, amount));
    }
    accumulate(amounts, Ghost(row_amounts(rows@)))
}

/// The balances of the cash accounts, one per person and account, in order of
/// first entry.
pub fn accumulate_cash_balances(rows: &Vec<CashBalanceRow>) -> (r: Vec<BalanceGroup>)
    requires
        forall|i: int| 0 <= i < rows@.len() ==> cash_row_in_range(#[trigger] rows@[i]),
    ensures
        group_models(r@) == groups_of(cash_row_amounts(rows@)),
        groups_in_cents(r@),
{
    let mut amounts: Vec<(Option<i64>, i64, Option<i64>, Decimal)> = Vec::new();
    let n = rows.len();
    for i in 0..n
        invariant
            n == rows@.len(),
            amounts@.len() == i,
            forall|k: int| 0 <= k < i ==> cash_row_amounts(rows@)[k] == amount_of(#[trigger] amounts@[k]),
            forall|k: int| 0 <= k < i ==> (#[trigger] amounts@[k]).3.scale == 2,
            forall|k: int| 0 <= k < rows@.len() ==> cash_row_in_range(#[trigger] rows@[k]),
    {
        let r = &rows[i];
        assert(cash_row_in_range(rows@[i as int]));
        let amount = r.unit.mul(&r.debit.sub(&r.credit)).round2();
        amounts.push((Some(r.person_id), r.account_id, None, amount));
    }
    accumulate(amounts, Ghost(cash_row_amounts(rows@)))
}

/// The record of a balance: the person's full name (empty for nobody), the
/// account's name, the balance.
pub open spec fn group_record(g: KeyedAmount, full_names: Map<i64, String>, account_names: Map<i64, String>) -> RecordModel {
    RecordModel {
        name: match g.person_id {
            Some(p) => full_names[p]@,
            None => Seq::empty(),
        },
        account_name: account_names[g.account_id]@,
        balance: g.amount,
    }
}

/// The records of the first `n` balances that are not zero.
pub open spec fn nonzero_records_upto(
    gs: Seq<KeyedAmount>,
    full_names: Map<i64, String>,
    account_names: Map<i64, String>,
    n: int,
) -> Seq<RecordModel>
    decreases n,
{
    if n <= 0 {
        Seq::empty()
    } else if gs[n - 1].amount.is_zero() {
        nonzero_records_upto(gs, full_names, account_names, n - 1)
    } else {
        nonzero_records_upto(gs, full_names, account_names, n - 1).push(
            group_record(gs[n - 1], full_names, account_names),
        )
    }
}

/// The order of records: by name, then account name, then balance.
pub open spec fn record_lt(a: RecordModel, b: RecordModel) -> bool {
    ||| seq_lt(a.name, b.name)
    ||| a.name == b.name && seq_lt(a.account_name, b.account_name)
    ||| a.name == b.name && a.account_name == b.account_name && a.balance.lt(b.balance)
}

/// `x` put into `s` after every record not greater than it.
pub open spec fn insert_record(s: Seq<RecordModel>, x: RecordModel) -> Seq<RecordModel>
    decreases s.len(),
{
    if s.len() == 0 || !record_lt(x, s.last()) {
        s.push(x)
    } else {
        insert_record(s.drop_last(), x).push(s.last())
    }
}

/// The records in order, stably (as `sort` orders them).
pub open spec fn sort_records(s: Seq<RecordModel>) -> Seq<RecordModel>
    decreases s.len(),
{
    if s.len() == 0 {
        s
    } else {
        insert_record(sort_records(s.drop_last()), s.last())
    }
}

pub open spec fn record_model(r: BalanceRecord) -> RecordModel {
    RecordModel { name: r.name@, account_name: r.account_name@, balance: r.balance@ }
}

pub open spec fn record_models(v: Seq<BalanceRecord>) -> Seq<RecordModel> {
    v.map_values(|r: BalanceRecord| record_model(r))
}

proof fn lemma_insert_record(s: Seq<RecordModel>, x: RecordModel, j: int)
    requires
        0 <= j <= s.len(),
        forall|k: int| j <= k < s.len() ==> record_lt(x, #[trigger] s[k]),
        j == 0 || !record_lt(x, s[j - 1]),
    ensures
        insert_record(s, x) == s.insert(j, x),
    decreases s.len(),
{
    if s.len() == j {
        assert(s.insert(j, x) =~= s.push(x));
    } else {
        lemma_insert_record(s.drop_last(), x, j);
        assert(s.drop_last().insert(j, x).push(s.last()) =~= s.insert(j, x));
    }
}

fn record_lt_exec(a: &BalanceRecord, b: &BalanceRecord) -> (r: bool)
    ensures
        r == record_lt(record_model(*a), record_model(*b)),
{
    let an = chars_of(a.name.as_str());
    let bn = chars_of(b.name.as_str());
    if chars_lt(&an, &bn) {
        return true;
    }
    if !a.name.eq(&b.name) {
        return false;
    }
    let aa = chars_of(a.account_name.as_str());
    let ba = chars_of(b.account_name.as_str());
    if chars_lt(&aa, &ba) {
        return true;
    }
    if !a.account_name.eq(&b.account_name) {
        return false;
    }
    a.balance.lt(&b.balance)
}

fn sort_balance_records(v: Vec<BalanceRecord>) -> (r: Vec<BalanceRecord>)
    ensures
        record_models(r@) == sort_records(record_models(v@)),
        records_in_cents(v@) ==> records_in_cents(r@),
{
    let ghost cents = records_in_cents(v@);
    let ghost m = record_models(v@);
    let mut out: Vec<BalanceRecord> = Vec::new();
    let mut rest = v;
    let n = rest.len();
    let mut i: usize = 0;
    proof {
        assert(rest@.skip(0) =~= rest@);
    }
    while rest.len() > 0
        invariant
            i + rest@.len() == n,
            n == m.len(),
            record_models(rest@) == m.skip(i as int),
            record_models(out@) == sort_records(m.take(i as int)),
            cents ==> records_in_cents(rest@) && records_in_cents(out@),
        decreases rest@.len(),
    {
        let ghost old_rest = rest@;
        let x = rest.remove(0);
        proof {
            if cents {
                assert(old_rest[0] == x);
                assert forall|k: int| 0 <= k < rest@.len() implies (#[trigger] rest@[k]).balance.scale == 2 by {
                    assert(rest@[k] == old_rest[k + 1]);
                }
            }
            assert(record_models(old_rest)[0] == record_model(old_rest[0]));
            assert(m.skip(i as int)[0] == m[i as int]);
            assert(record_model(x) == m[i as int]);
            assert(rest@ =~= old_rest.skip(1));
            assert forall|k: int| 0 <= k < rest@.len() implies #[trigger] record_models(rest@)[k] == m.skip(i + 1)[k] by {
                assert(rest@[k] == old_rest[k + 1]);
                assert(record_models(old_rest)[k + 1] == m.skip(i as int)[k + 1]);
            }
            assert(record_models(rest@) =~= m.skip(i + 1));
        }
        let mut j: usize = out.len();
        while j > 0 && record_lt_exec(&x, &out[j - 1])
            invariant
                j <= out@.len(),
                forall|k: int| j <= k < out@.len() ==> record_lt(record_model(x), #[trigger] record_models(out@)[k]),
            decreases j,
        {
            j = j - 1;
        }
        let ghost before = record_models(out@);
        proof {
            lemma_insert_record(before, record_model(x), j as int);
            assert(m.take(i + 1).drop_last() =~= m.take(i as int));
            assert(m.take(i + 1).last() == m[i as int]);
        }
        let ghost out_before = out@;
        out.insert(j, x);
        proof {
            assert(record_models(out@) =~= before.insert(j as int, m[i as int]));
            if cents {
                assert forall|k: int| 0 <= k < out@.len() implies (#[trigger] out@[k]).balance.scale == 2 by {
                    if k < j {
                        assert(out@[k] == out_before[k]);
                    } else if k > j {
                        assert(out@[k] == out_before[k - 1]);
                    }
                }
            }
        }
        i = i + 1;
    }
    proof {
        assert(m.take(n as int) =~= m);
    }
    out
}

/// The names that the balances need are there: each person's and each
/// account's.
pub open spec fn names_cover(gs: Seq<KeyedAmount>, full_names: Map<i64, String>, account_names: Map<i64, String>) -> bool {
    forall|i: int|
        0 <= i < gs.len() ==> account_names.contains_key((#[trigger] gs[i]).account_id) && (
        gs[i].person_id matches Some(p) ==> full_names.contains_key(p))
}

/// The balances as records (person's full name, account name, balance),
/// less those that are zero, in order of name, account name and balance.
pub fn project_data(
    groups: &Vec<BalanceGroup>,
    full_names: &HashMap<i64, String>,
    account_names: &HashMap<i64, String>,
) -> (r: Vec<BalanceRecord>)
    requires
        names_cover(group_models(groups@), full_names@, account_names@),
    ensures
        record_models(r@) == sort_records(
            nonzero_records_upto(group_models(groups@), full_names@, account_names@, groups@.len() as int),
        ),
        groups_in_cents(groups@) ==> records_in_cents(r@),
{
    let ghost gs = group_models(groups@);
    let mut recs: Vec<BalanceRecord> = Vec::new();
    let n = groups.len();
    for i in 0..n
        invariant
            n == groups@.len(),
            gs == group_models(groups@),
            names_cover(gs, full_names@, account_names@),
            record_models(recs@) == nonzero_records_upto(gs, full_names@, account_names@, i as int),
            groups_in_cents(groups@) ==> records_in_cents(recs@),
    {
        let g = &groups[i];
        assert(gs[i as int] == group_model(*g));
        if !g.balance.is_zero() {
            let name = match g.person_id {
                Some(p) => match full_names.get(&p) {
                    Some(s) => s.clone(),
                    None => {
                        proof {
                            assert(full_names@.contains_key(p));
                        }
                        String::new()
                    },
                },
                None => String::new(),
            };
            let account_name = match account_names.get(&g.account_id) {
                Some(s) => s.clone(),
                None => {
                    proof {
                        assert(account_names@.contains_key(g.account_id));
                    }
                    String::new()
                },
            };
            let ghost before = record_models(recs@);
            let ghost recs_before = recs@;
            recs.push(BalanceRecord { name, account_name, balance: g.balance.copy() });
            proof {
                assert(record_models(recs@) =~= before.push(group_record(gs[i as int], full_names@, account_names@)));
                if groups_in_cents(groups@) {
                    assert(groups@[i as int].balance.scale == 2);
                    assert forall|k: int| 0 <= k < recs@.len() implies (#[trigger] recs@[k]).balance.scale == 2 by {
                        if k < recs_before.len() {
                            assert(recs@[k] == recs_before[k]);
                        }
                    }
                }
            }
        }
    }
    sort_balance_records(recs)
}

/// Every balance of `s` is canonical, as the values of decimals are.
pub open spec fn records_normal(s: Seq<RecordModel>) -> bool {
    forall|k: int| 0 <= k < s.len() ==> is_normal((#[trigger] s[k]).balance)
}

proof fn lemma_record_lt_transitive(a: RecordModel, b: RecordModel, c: RecordModel)
    requires
        record_lt(a, b),
        record_lt(b, c),
    ensures
        record_lt(a, c),
{
    if seq_lt(a.name, b.name) && seq_lt(b.name, c.name) {
        lemma_seq_lt_transitive(a.name, b.name, c.name);
    }
    if seq_lt(a.account_name, b.account_name) && seq_lt(b.account_name, c.account_name) {
        lemma_seq_lt_transitive(a.account_name, b.account_name, c.account_name);
    }
    if a.balance.lt(b.balance) && b.balance.lt(c.balance) {
        lemma_lt_transitive(a.balance, b.balance, c.balance);
    }
}

proof fn lemma_record_lt_irreflexive(a: RecordModel, b: RecordModel)
    requires
        a.name == b.name,
        a.account_name == b.account_name,
        a.balance == b.balance,
    ensures
        !record_lt(a, b),
{
    lemma_seq_lt_irreflexive(a.name);
    lemma_seq_lt_irreflexive(a.account_name);
    lemma_lt_irreflexive(a.balance);
}

proof fn lemma_record_lt_total(a: RecordModel, b: RecordModel)
    requires
        is_normal(a.balance),
        is_normal(b.balance),
    ensures
        record_lt(a, b) || record_lt(b, a) || a == b,
{
    if a.name != b.name {
        lemma_seq_lt_total(a.name, b.name);
    } else if a.account_name != b.account_name {
        lemma_seq_lt_total(a.account_name, b.account_name);
    } else if a.balance != b.balance {
        lemma_lt_total(a.balance, b.balance);
    }
}

/// `x < z` implies `x < y` or `y < z`.
proof fn lemma_record_lt_split(x: RecordModel, y: RecordModel, z: RecordModel)
    requires
        record_lt(x, z),
        is_normal(x.balance),
        is_normal(y.balance),
        is_normal(z.balance),
    ensures
        record_lt(x, y) || record_lt(y, z),
{
    lemma_record_lt_total(x, y);
    lemma_record_lt_total(y, z);
    if !record_lt(x, y) && !record_lt(y, z) {
        if record_lt(y, x) && record_lt(z, y) {
            lemma_record_lt_transitive(z, y, x);
            lemma_record_lt_transitive(x, z, x);
            lemma_record_lt_irreflexive(x, x);
        } else if record_lt(y, x) {
            lemma_record_lt_transitive(x, z, x);
            lemma_record_lt_irreflexive(x, x);
        } else if record_lt(z, y) {
            lemma_record_lt_transitive(x, z, y);
            lemma_record_lt_irreflexive(x, y);
        } else {
            lemma_record_lt_irreflexive(x, z);
        }
    }
}

/// No record of `s` comes after a later one.
pub open spec fn records_in_order(s: Seq<RecordModel>) -> bool {
    forall|i: int, j: int| 0 <= i < j < s.len() ==> !record_lt(#[trigger] s[j], #[trigger] s[i])
}

/// No record of `s` comes after `t`.
pub open spec fn records_up_to(s: Seq<RecordModel>, t: RecordModel) -> bool {
    forall|k: int| 0 <= k < s.len() ==> !record_lt(t, #[trigger] s[k])
}

proof fn lemma_insert_record_bound(s: Seq<RecordModel>, x: RecordModel, t: RecordModel)
    requires
        records_up_to(s, t),
        !record_lt(t, x),
    ensures
        records_up_to(insert_record(s, x), t),
    decreases s.len(),
{
    if s.len() > 0 && record_lt(x, s.last()) {
        lemma_insert_record_bound(s.drop_last(), x, t);
    }
}

proof fn lemma_insert_record_order(s: Seq<RecordModel>, x: RecordModel)
    requires
        records_in_order(s),
        records_normal(s),
        is_normal(x.balance),
    ensures
        records_in_order(insert_record(s, x)),
        insert_record(s, x).to_multiset() == s.to_multiset().insert(x),
    decreases s.len(),
{
    broadcast use vstd::seq_lib::group_to_multiset_ensures;

    if s.len() == 0 || !record_lt(x, s.last()) {
        let r = s.push(x);
        assert forall|i: int, j: int| 0 <= i < j < r.len() implies !record_lt(#[trigger] r[j], #[trigger] r[i]) by {
            if j == s.len() && i < s.len() - 1 {
                assert(!record_lt(s[s.len() - 1], s[i]));
                if record_lt(x, s[i]) {
                    lemma_record_lt_split(x, s[s.len() - 1], s[i]);
                }
            }
        }
    } else {
        let p = s.drop_last();
        assert(records_normal(p)) by {
            assert forall|k: int| 0 <= k < p.len() implies is_normal((#[trigger] p[k]).balance) by {
                assert(s[k] == p[k]);
            }
        }
        lemma_insert_record_order(p, x);
        let q = insert_record(p, x);
        assert(records_up_to(p, s.last())) by {
            assert forall|k: int| 0 <= k < p.len() implies !record_lt(s.last(), #[trigger] p[k]) by {
                assert(s[k] == p[k]);
            }
        }
        if record_lt(s.last(), x) {
            lemma_record_lt_transitive(x, s.last(), x);
            lemma_record_lt_irreflexive(x, x);
        }
        lemma_insert_record_bound(p, x, s.last());
        let r = q.push(s.last());
        assert forall|i: int, j: int| 0 <= i < j < r.len() implies !record_lt(#[trigger] r[j], #[trigger] r[i]) by {
            if j < q.len() {
                assert(r[i] == q[i] && r[j] == q[j]);
            } else {
                assert(r[i] == q[i]);
            }
        }
        assert(s =~= p.push(s.last()));
        assert(r.to_multiset() =~= p.to_multiset().insert(x).insert(s.last()));
        assert(s.to_multiset() =~= p.to_multiset().insert(s.last()));
    }
}

/// Ordering records keeps them all and puts them in order.
pub proof fn law_sort_records(s: Seq<RecordModel>)
    requires
        records_normal(s),
    ensures
        records_in_order(sort_records(s)),
        sort_records(s).to_multiset() == s.to_multiset(),
        forall|k: int| 0 <= k < sort_records(s).len() ==> s.contains(#[trigger] sort_records(s)[k]),
    decreases s.len(),
{
    broadcast use vstd::seq_lib::group_to_multiset_ensures;

    if s.len() > 0 {
        let p = s.drop_last();
        assert(records_normal(p)) by {
            assert forall|k: int| 0 <= k < p.len() implies is_normal((#[trigger] p[k]).balance) by {
                assert(s[k] == p[k]);
            }
        }
        law_sort_records(p);
        let q = sort_records(p);
        assert(records_normal(q)) by {
            assert forall|k: int| 0 <= k < q.len() implies is_normal((#[trigger] q[k]).balance) by {
                let m = choose|m: int| 0 <= m < p.len() && p[m] == q[k];
                assert(p[m] == s[m]);
            }
        }
        lemma_insert_record_order(q, s.last());
        assert(s =~= p.push(s.last()));
    }
    let r = sort_records(s);
    assert forall|k: int| 0 <= k < r.len() implies s.contains(#[trigger] r[k]) by {
        assert(r.contains(r[k]));
        assert(r.to_multiset().count(r[k]) > 0);
    }
}

proof fn lemma_nonzero_records(
    gs: Seq<KeyedAmount>,
    full_names: Map<i64, String>,
    account_names: Map<i64, String>,
    n: int,
)
    requires
        forall|k: int| 0 <= k < gs.len() ==> is_normal((#[trigger] gs[k]).amount),
        n <= gs.len(),
    ensures
        ({
            let r = nonzero_records_upto(gs, full_names, account_names, n);
            forall|k: int|
                0 <= k < r.len() ==> is_normal((#[trigger] r[k]).balance) && !r[k].balance.is_zero()
        }),
    decreases n,
{
    if n > 0 {
        lemma_nonzero_records(gs, full_names, account_names, n - 1);
        let p = nonzero_records_upto(gs, full_names, account_names, n - 1);
        let r = nonzero_records_upto(gs, full_names, account_names, n);
        assert forall|k: int| 0 <= k < r.len() implies is_normal((#[trigger] r[k]).balance)
            && !r[k].balance.is_zero() by {
            if k < p.len() {
                assert(r[k] == p[k]);
            }
        }
    }
}

/// A balance report (see `project_data`) lists only balances that are not
/// zero, each once for each such group, in order of name, account name and
/// balance.
pub proof fn law_balance_report(gs: Seq<KeyedAmount>, full_names: Map<i64, String>, account_names: Map<i64, String>)
    requires
        forall|k: int| 0 <= k < gs.len() ==> is_normal((#[trigger] gs[k]).amount),
    ensures
        ({
            let all = nonzero_records_upto(gs, full_names, account_names, gs.len() as int);
            let r = sort_records(all);
            &&& records_in_order(r)
            &&& r.to_multiset() == all.to_multiset()
            &&& forall|k: int| 0 <= k < r.len() ==> !(#[trigger] r[k]).balance.is_zero()
        }),
{
    let all = nonzero_records_upto(gs, full_names, account_names, gs.len() as int);
    lemma_nonzero_records(gs, full_names, account_names, gs.len() as int);
    law_sort_records(all);
    let r = sort_records(all);
    assert forall|k: int| 0 <= k < r.len() implies !(#[trigger] r[k]).balance.is_zero() by {
        assert(all.contains(r[k]));
        let m = choose|m: int| 0 <= m < all.len() && all[m] == r[k];
    }
}

/// The sum of the amounts of the first `n` entries, added in order to zero.
pub open spec fn amounts_total(s: Seq<KeyedAmount>, n: int) -> DecValue
    decreases n,
{
    if n <= 0 {
        dec_int(0)
    } else {
        amounts_total(s, n - 1).add(s[n - 1].amount)
    }
}

/// The sum of the balances `g`, added in order to zero.
pub open spec fn balances_total(g: Seq<KeyedAmount>) -> DecValue
    decreases g.len(),
{
    if g.len() == 0 {
        dec_int(0)
    } else {
        balances_total(g.drop_last()).add(g.last().amount)
    }
}

proof fn lemma_balances_total_normal(g: Seq<KeyedAmount>)
    ensures
        is_normal(balances_total(g)),
    decreases g.len(),
{
    if g.len() == 0 {
        lemma_normalize(0, 0);
    } else {
        lemma_balances_total_normal(g.drop_last());
        lemma_add_scale(balances_total(g.drop_last()), g.last().amount);
    }
}

proof fn lemma_group_total_normal(s: Seq<KeyedAmount>, k: (Option<i64>, i64, Option<i64>), n: int)
    ensures
        is_normal(group_total(s, k, n)),
    decreases n,
{
    if n <= 0 {
        lemma_normalize(0, 0);
    } else {
        lemma_group_total_normal(s, k, n - 1);
        lemma_add_scale(group_total(s, k, n - 1), s[n - 1].amount);
    }
}

/// Adding `x` to one balance adds `x` to the sum of the balances.
proof fn lemma_balances_total_update(g: Seq<KeyedAmount>, a: int, y: KeyedAmount, x: DecValue)
    requires
        0 <= a < g.len(),
        y.amount == g[a].amount.add(x),
        forall|b: int| 0 <= b < g.len() ==> is_normal((#[trigger] g[b]).amount),
        is_normal(x),
    ensures
        balances_total(g.update(a, y)) == balances_total(g).add(x),
    decreases g.len(),
{
    let u = g.update(a, y);
    let p = g.drop_last();
    lemma_balances_total_normal(p);
    assert(u.drop_last() =~= (if a == g.len() - 1 { p } else { p.update(a, y) }));
    if a == g.len() - 1 {
        law_add_associative(balances_total(p), g[a].amount, x);
    } else {
        assert forall|b: int| 0 <= b < p.len() implies is_normal((#[trigger] p[b]).amount) by {
            assert(p[b] == g[b]);
        }
        lemma_balances_total_update(p, a, y, x);
        let l = g.last().amount;
        assert(u.last() == g.last());
        law_add_associative(balances_total(p), x, l);
        law_add_commutative(x, l);
        law_add_associative(balances_total(p), l, x);
    }
}

/// The balances of the first `n + 1` entries: those of the first `n`, with
/// the amount of entry `n` added to the balance under its key, or a new
/// balance for a key not seen before.
proof fn lemma_groups_step(s: Seq<KeyedAmount>, n: int)
    requires
        0 <= n < s.len(),
        is_normal(s[n].amount),
    ensures
        balances_total(groups_upto(s, n + 1)) == balances_total(groups_upto(s, n)).add(s[n].amount),
{
    let k = key_of(s[n]);
    let x = s[n].amount;
    let keys = group_keys_upto(s, n);
    let g = groups_upto(s, n);
    let g2 = groups_upto(s, n + 1);
    lemma_group_keys(s, n);
    assert forall|b: int| 0 <= b < g.len() implies is_normal((#[trigger] g[b]).amount) by {
        lemma_group_total_normal(s, keys[b], n);
    }
    if seen_before(s, n) {
        assert(group_keys_upto(s, n + 1) == keys);
        let j = choose|j: int| 0 <= j < n && key_of(#[trigger] s[j]) == key_of(s[n]);
        assert(keys.contains(key_of(s[j])));
        let a = keys.index_of(k);
        let y = group_at(s, k, n + 1);
        assert(g2 =~= g.update(a, y)) by {
            assert forall|b: int| 0 <= b < g.len() && b != a implies #[trigger] g2[b] == g[b] by {
                assert(keys[b] != keys[a]);
            }
        }
        lemma_balances_total_update(g, a, y, x);
    } else {
        let keys2 = keys.push(k);
        assert(group_keys_upto(s, n + 1) == keys2);
        assert(!keys.contains(k)) by {
            if keys.contains(k) {
                let j = choose|j: int| 0 <= j < n && key_of(#[trigger] s[j]) == k;
                assert(seen_before(s, n));
            }
        }
        assert forall|j: int| 0 <= j < n implies key_of(#[trigger] s[j]) != k by {
            if key_of(s[j]) == k {
                assert(seen_before(s, n));
            }
        }
        lemma_total_unseen(s, k, n);
        law_add_zero(x);
        let y = group_at(s, k, n + 1);
        assert(y.amount == x);
        assert(g2 =~= g.push(y)) by {
            assert forall|b: int| 0 <= b < g.len() implies #[trigger] g2[b] == g[b] by {
                assert(keys[b] != k);
            }
        }
        assert(g2.drop_last() =~= g);
    }
}

proof fn lemma_groups_total_upto(s: Seq<KeyedAmount>, n: int)
    requires
        0 <= n <= s.len(),
        forall|i: int| 0 <= i < s.len() ==> is_normal((#[trigger] s[i]).amount),
    ensures
        balances_total(groups_upto(s, n)) == amounts_total(s, n),
    decreases n,
{
    if n == 0 {
        assert(groups_upto(s, 0) =~= Seq::<KeyedAmount>::empty());
    } else {
        lemma_groups_total_upto(s, n - 1);
        lemma_groups_step(s, n - 1);
    }
}

/// Grouping loses and adds nothing: the balances sum to the sum of all the
/// amounts.
pub proof fn law_groups_keep_total(s: Seq<KeyedAmount>)
    requires
        forall|i: int| 0 <= i < s.len() ==> is_normal((#[trigger] s[i]).amount),
    ensures
        balances_total(groups_of(s)) == amounts_total(s, s.len() as int),
{
    lemma_groups_total_upto(s, s.len() as int);
}

} // verus!
