//! Account balances per person, account and account type, read from the
//! ledger's decimal strings.

use vstd::prelude::*;
use std::collections::HashMap;
use crate::balance::{accumulate, amount_of, group_model, group_models, groups_in_cents, groups_of, BalanceGroup, KeyedAmount};
use crate::decimal::{
    is_normal, lemma_lt_irreflexive, lemma_lt_total, lemma_lt_transitive, parse_or_zero,
    parse_required, parsed, parsed_or_zero, parses, parses_opt, in_range, in_range_opt, lemma_rep_mul_abs, DecValue, Decimal, InvalidDecimal,
};
use crate::text::{
    chars_lt, chars_of, lemma_seq_lt_irreflexive, lemma_seq_lt_total, lemma_seq_lt_transitive, seq_lt,
};

verus! {

broadcast use vstd::std_specs::hash::group_hash_axioms;

/// A financial entry of an account of some kind, as the ledger stores it.
/// `is_debit_balance` holds where the kind keeps a debit balance.
pub struct TypedBalanceRow {
    pub person_id: Option<i64>,
    pub account_type_id: i64,
    pub account_id: i64,
    pub unit: String,
    pub debit: Option<String>,
    pub credit: Option<String>,
    pub is_debit_balance: bool,
}

/// A financial entry of a cash account of a person, as the ledger stores it.
pub struct TypedCashBalanceRow {
    pub person_id: i64,
    pub account_type_id: i64,
    pub account_id: i64,
    pub unit: String,
    pub debit: Option<String>,
    pub credit: Option<String>,
}

/// A balance as reports show it.
pub struct BalanceRecord {
    pub name: String,
    pub account_type: String,
    pub account_name: String,
    pub balance: Decimal,
}

/// The values of a `BalanceRecord`.
pub struct RecordModel {
    pub name: Seq<char>,
    pub account_type: Seq<char>,
    pub account_name: Seq<char>,
    pub balance: DecValue,
}

/// The decimal strings of an entry parse (absent debit or credit is zero).
pub open spec fn entry_parses(unit: String, debit: Option<String>, credit: Option<String>) -> bool {
    parses(unit@) && parses_opt(debit) && parses_opt(credit)
}

/// Whatever the decimal strings of an entry read as lies within the
/// ledger's bounds (`in_range`), which keeps the amount's scales within
/// `i64`.
pub open spec fn entry_in_range(unit: String, debit: Option<String>, credit: Option<String>) -> bool {
    in_range(unit@) && in_range_opt(debit) && in_range_opt(credit)
}

/// `unit * (debit - credit)` rounded to cents.
pub open spec fn entry_amount(unit: String, debit: Option<String>, credit: Option<String>) -> DecValue {
    parsed(unit@).mul(parsed_or_zero(debit).sub(parsed_or_zero(credit))).round2()
}

/// What an entry adds to its balance: its amount, negated where the kind
/// keeps a credit balance.
pub open spec fn typed_amount(r: TypedBalanceRow) -> KeyedAmount {
    let b = entry_amount(r.unit, r.debit, r.credit);
    KeyedAmount {
        person_id: r.person_id,
        account_id: r.account_id,
        account_type_id: Some(r.account_type_id),
        amount: if r.is_debit_balance { b } else { b.neg() },
    }
}

/// What a cash entry adds to its balance.
pub open spec fn typed_cash_amount(r: TypedCashBalanceRow) -> KeyedAmount {
    KeyedAmount {
        person_id: Some(r.person_id),
        account_id: r.account_id,
        account_type_id: Some(r.account_type_id),
        amount: entry_amount(r.unit, r.debit, r.credit),
    }
}

fn entry_amount_exec(unit: &String, debit: &Option<String>, credit: &Option<String>) -> (r: Result<Decimal, InvalidDecimal>)
    requires
        entry_in_range(*unit, *debit, *credit),
    ensures
        r is Ok <==> entry_parses(*unit, *debit, *credit),
        r matches Ok(d) ==> d@ == entry_amount(*unit, *debit, *credit) && d.scale == 2,
{
    let u = match parse_required(unit) {
        Ok(d) => d,
        Err(e) => {
            return Err(e);
        },
    };
    let d = match parse_or_zero(debit) {
        Ok(d) => d,
        Err(e) => {
            return Err(e);
        },
    };
    let c = match parse_or_zero(credit) {
        Ok(d) => d,
        Err(e) => {
            return Err(e);
        },
    };
    let net = d.sub(&c);
    proof {
        lemma_rep_mul_abs(u.rep(), net.rep());
    }
    let product = u.mul(&net);
    Ok(product.round2())
}

/// The balances of all accounts, one per person, account and account type, in
/// order of first entry; fails where a decimal string does not parse.
pub fn accumulate_typed_balances(rows: &Vec<TypedBalanceRow>) -> (r: Result<Vec<BalanceGroup>, InvalidDecimal>)
    requires
        forall|i: int|
            0 <= i < rows@.len() ==> entry_in_range((#[trigger] rows@[i]).unit, rows@[i].debit, rows@[i].credit),
    ensures
        r is Ok <==> forall|i: int|
            0 <= i < rows@.len() ==> entry_parses((#[trigger] rows@[i]).unit, rows@[i].debit, rows@[i].credit),
        r matches Ok(g) ==> group_models(g@) == groups_of(rows@.map_values(|r: TypedBalanceRow| typed_amount(r))),
        r matches Ok(g) ==> groups_in_cents(g@),
{
    let ghost s = rows@.map_values(|r: TypedBalanceRow| typed_amount(r));
    let mut amounts: Vec<(Option<i64>, i64, Option<i64>, Decimal)> = Vec::new();
    let n = rows.len();
    for i in 0..n
        invariant
            n == rows@.len(),
            s == rows@.map_values(|r: TypedBalanceRow| typed_amount(r)),
            amounts@.len() == i,
            forall|k: int| 0 <= k < i ==> entry_parses((#[trigger] rows@[k]).unit, rows@[k].debit, rows@[k].credit),
            forall|k: int|
                0 <= k < rows@.len() ==> entry_in_range((#[trigger] rows@[k]).unit, rows@[k].debit, rows@[k].credit),
            forall|k: int| 0 <= k < i ==> s[k] == amount_of(#[trigger] amounts@[k]),
            forall|k: int| 0 <= k < i ==> (#[trigger] amounts@[k]).3.scale == 2,
    {
        let r = &rows[i];
        assert(entry_in_range(rows@[i as int].unit, rows@[i as int].debit, rows@[i as int].credit));
        let b = match entry_amount_exec(&r.unit, &r.debit, &r.credit) {
            Ok(b) => b,
            Err(e) => {
                return Err(e);
            },
        };
        let amount = if r.is_debit_balance {
            b
        } else {
            b.neg()
        };
        amounts.push((r.person_id, r.account_id, Some(r.account_type_id), amount));
    }
    Ok(accumulate(amounts, Ghost(s)))
}

/// The balances of the cash accounts, one per person, account and account
/// type, in order of first entry; fails where a decimal string does not
/// parse.
pub fn accumulate_typed_cash_balances(rows: &Vec<TypedCashBalanceRow>) -> (r: Result<Vec<BalanceGroup>, InvalidDecimal>)
    requires
        forall|i: int|
            0 <= i < rows@.len() ==> entry_in_range((#[trigger] rows@[i]).unit, rows@[i].debit, rows@[i].credit),
    ensures
        r is Ok <==> forall|i: int|
            0 <= i < rows@.len() ==> entry_parses((#[trigger] rows@[i]).unit, rows@[i].debit, rows@[i].credit),
        r matches Ok(g) ==> group_models(g@) == groups_of(rows@.map_values(|r: TypedCashBalanceRow| typed_cash_amount(r))),
        r matches Ok(g) ==> groups_in_cents(g@),
{
    let ghost s = rows@.map_values(|r: TypedCashBalanceRow| typed_cash_amount(r));
    let mut amounts: Vec<(Option<i64>, i64, Option<i64>, Decimal)> = Vec::new();
    let n = rows.len();
    for i in 0..n
        invariant
            n == rows@.len(),
            s == rows@.map_values(|r: TypedCashBalanceRow| typed_cash_amount(r)),
            amounts@.len() == i,
            forall|k: int| 0 <= k < i ==> entry_parses((#[trigger] rows@[k]).unit, rows@[k].debit, rows@[k].credit),
            forall|k: int|
                0 <= k < rows@.len() ==> entry_in_range((#[trigger] rows@[k]).unit, rows@[k].debit, rows@[k].credit),
            forall|k: int| 0 <= k < i ==> s[k] == amount_of(#[trigger] amounts@[k]),
            forall|k: int| 0 <= k < i ==> (#[trigger] amounts@[k]).3.scale == 2,
    {
        let r = &rows[i];
        assert(entry_in_range(rows@[i as int].unit, rows@[i as int].debit, rows@[i as int].credit));
        let b = match entry_amount_exec(&r.unit, &r.debit, &r.credit) {
            Ok(b) => b,
            Err(e) => {
                return Err(e);
            },
        };
        amounts.push((Some(r.person_id), r.account_id, Some(r.account_type_id), b));
    }
    Ok(accumulate(amounts, Ghost(s)))
}

/// The record of a balance: the person's full name (empty for nobody), the
/// account type's name, the account's name, the balance.
pub open spec fn group_record(
    g: KeyedAmount,
    account_types: Map<i64, String>,
    full_names: Map<i64, String>,
    account_names: Map<i64, String>,
) -> RecordModel {
    RecordModel {
        name: match g.person_id {
            Some(p) => full_names[p]@,
            None => Seq::empty(),
        },
        account_type: account_types[g.account_type_id.unwrap()]@,
        account_name: account_names[g.account_id]@,
        balance: g.amount,
    }
}

/// The records of the first `n` balances that are not zero.
pub open spec fn nonzero_records_upto(
    gs: Seq<KeyedAmount>,
    account_types: Map<i64, String>,
    full_names: Map<i64, String>,
    account_names: Map<i64, String>,
    n: int,
) -> Seq<RecordModel>
    decreases n,
{
    if n <= 0 {
        Seq::empty()
    } else if gs[n - 1].amount.is_zero() {
        nonzero_records_upto(gs, account_types, full_names, account_names, n - 1)
    } else {
        nonzero_records_upto(gs, account_types, full_names, account_names, n - 1).push(
            group_record(gs[n - 1], account_types, full_names, account_names),
        )
    }
}

/// The order of records: by name, then account type, then account name, then
/// balance.
pub open spec fn record_lt(a: RecordModel, b: RecordModel) -> bool {
    ||| seq_lt(a.name, b.name)
    ||| a.name == b.name && seq_lt(a.account_type, b.account_type)
    ||| a.name == b.name && a.account_type == b.account_type && seq_lt(a.account_name, b.account_name)
    ||| a.name == b.name && a.account_type == b.account_type && a.account_name == b.account_name
        && a.balance.lt(b.balance)
}

/// `x` put into `s` after every record not greater than it.
pub open spec fn insert_record(s: Seq<RecordModel>, x: RecordModel) -> Seq<RecordModel>
    decreases s.len(),
{
    if s.len() == 0 || !record_lt(x, s.last()) {
        s.push(x)
    } else {
        insert_record(s.drop_last(), x).push(s.last())
    }
}

/// The records in order, stably (as `sort` orders them).
pub open spec fn sort_records(s: Seq<RecordModel>) -> Seq<RecordModel>
    decreases s.len(),
{
    if s.len() == 0 {
        s
    } else {
        insert_record(sort_records(s.drop_last()), s.last())
    }
}

pub open spec fn record_model(r: BalanceRecord) -> RecordModel {
    RecordModel {
        name: r.name@,
        account_type: r.account_type@,
        account_name: r.account_name@,
        balance: r.balance@,
    }
}

pub open spec fn record_models(v: Seq<BalanceRecord>) -> Seq<RecordModel> {
    v.map_values(|r: BalanceRecord| record_model(r))
}

proof fn lemma_insert_record(s: Seq<RecordModel>, x: RecordModel, j: int)
    requires
        0 <= j <= s.len(),
        forall|k: int| j <= k < s.len() ==> record_lt(x, #[trigger] s[k]),
        j == 0 || !record_lt(x, s[j - 1]),
    ensures
        insert_record(s, x) == s.insert(j, x),
    decreases s.len(),
{
    if s.len() == j {
        assert(s.insert(j, x) =~= s.push(x));
    } else {
        lemma_insert_record(s.drop_last(), x, j);
        assert(s.drop_last().insert(j, x).push(s.last()) =~= s.insert(j, x));
    }
}

fn record_lt_exec(a: &BalanceRecord, b: &BalanceRecord) -> (r: bool)
    ensures
        r == record_lt(record_model(*a), record_model(*b)),
{
    let an = chars_of(a.name.as_str());
    let bn = chars_of(b.name.as_str());
    if chars_lt(&an, &bn) {
        return true;
    }
    if !a.name.eq(&b.name) {
        return false;
    }
    let at = chars_of(a.account_type.as_str());
    let bt = chars_of(b.account_type.as_str());
    if chars_lt(&at, &bt) {
        return true;
    }
    if !a.account_type.eq(&b.account_type) {
        return false;
    }
    let aa = chars_of(a.account_name.as_str());
    let ba = chars_of(b.account_name.as_str());
    if chars_lt(&aa, &ba) {
        return true;
    }
    if !a.account_name.eq(&b.account_name) {
        return false;
    }
    a.balance.lt(&b.balance)
}

fn sort_balance_records(v: Vec<BalanceRecord>) -> (r: Vec<BalanceRecord>)
    ensures
        record_models(r@) == sort_records(record_models(v@)),
        records_in_cents(v@) ==> records_in_cents(r@),
{
    let ghost cents = records_in_cents(v@);
    let ghost m = record_models(v@);
    let mut out: Vec<BalanceRecord> = Vec::new();
    let mut rest = v;
    let n = rest.len();
    let mut i: usize = 0;
    proof {
        assert(rest@.skip(0) =~= rest@);
    }
    while rest.len() > 0
        invariant
            i + rest@.len() == n,
            n == m.len(),
            record_models(rest@) == m.skip(i as int),
            record_models(out@) == sort_records(m.take(i as int)),
            cents ==> records_in_cents(rest@) && records_in_cents(out@),
        decreases rest@.len(),
    {
        let ghost old_rest = rest@;
        let x = rest.remove(0);
        proof {
            if cents {
                assert(old_rest[0] == x);
                assert forall|k: int| 0 <= k < rest@.len() implies (#[trigger] rest@[k]).balance.scale == 2 by {
                    assert(rest@[k] == old_rest[k + 1]);
                }
            }
            assert(record_models(old_rest)[0] == record_model(old_rest[0]));
            assert(m.skip(i as int)[0] == m[i as int]);
            assert(record_model(x) == m[i as int]);
            assert(rest@ =~= old_rest.skip(1));
            assert forall|k: int| 0 <= k < rest@.len() implies #[trigger] record_models(rest@)[k] == m.skip(i + 1)[k] by {
                assert(rest@[k] == old_rest[k + 1]);
                assert(record_models(old_rest)[k + 1] == m.skip(i as int)[k + 1]);
            }
            assert(record_models(rest@) =~= m.skip(i + 1));
        }
        let mut j: usize = out.len();
        while j > 0 && record_lt_exec(&x, &out[j - 1])
            invariant
                j <= out@.len(),
                forall|k: int| j <= k < out@.len() ==> record_lt(record_model(x), #[trigger] record_models(out@)[k]),
            decreases j,
        {
            j = j - 1;
        }
        let ghost before = record_models(out@);
        proof {
            lemma_insert_record(before, record_model(x), j as int);
            assert(m.take(i + 1).drop_last() =~= m.take(i as int));
            assert(m.take(i + 1).last() == m[i as int]);
        }
        let ghost out_before = out@;
        out.insert(j, x);
        proof {
            assert(record_models(out@) =~= before.insert(j as int, m[i as int]));
            if cents {
                assert forall|k: int| 0 <= k < out@.len() implies (#[trigger] out@[k]).balance.scale == 2 by {
                    if k < j {
                        assert(out@[k] == out_before[k]);
                    } else if k > j {
                        assert(out@[k] == out_before[k - 1]);
                    }
                }
            }
        }
        i = i + 1;
    }
    proof {
        assert(m.take(n as int) =~= m);
    }
    out
}

/// The names that the balances need are there: each person's, each account
/// type's and each account's.
pub open spec fn names_cover(
    gs: Seq<KeyedAmount>,
    account_types: Map<i64, String>,
    full_names: Map<i64, String>, account_names: Map<i64, String>) -> bool {
    forall|i: int|
        0 <= i < gs.len() ==> account_names.contains_key((#[trigger] gs[i]).account_id) && (
        gs[i].person_id matches Some(p) ==> full_names.contains_key(p)) && (
        gs[i].account_type_id matches Some(t) && account_types.contains_key(t))
}

/// Every record's balance is written in cents (at scale two).
pub open spec fn records_in_cents(recs: Seq<BalanceRecord>) -> bool {
    forall|k: int| 0 <= k < recs.len() ==> (#[trigger] recs[k]).balance.scale == 2
}

/// The balances as records (person's full name, account type, account name,
/// balance), less those that are zero, in order of name, account type,
/// account name and balance.
pub fn project_data(
    groups: &Vec<BalanceGroup>,
    account_types: &HashMap<i64, String>,
    full_names: &HashMap<i64, String>,
    account_names: &HashMap<i64, String>,
) -> (r: Vec<BalanceRecord>)
    requires
        names_cover(group_models(groups@), account_types@, full_names@, account_names@),
    ensures
        record_models(r@) == sort_records(
            nonzero_records_upto(group_models(groups@), account_types@, full_names@, account_names@, groups@.len() as int),
        ),
        groups_in_cents(groups@) ==> records_in_cents(r@),
{
    let ghost gs = group_models(groups@);
    let mut recs: Vec<BalanceRecord> = Vec::new();
    let n = groups.len();
    for i in 0..n
        invariant
            n == groups@.len(),
            gs == group_models(groups@),
            names_cover(gs, account_types@, full_names@, account_names@),
            record_models(recs@) == nonzero_records_upto(gs, account_types@, full_names@, account_names@, i as int),
            groups_in_cents(groups@) ==> records_in_cents(recs@),
    {
        let g = &groups[i];
        assert(gs[i as int] == group_model(*g));
        if !g.balance.is_zero() {
            let name = match g.person_id {
                Some(p) => match full_names.get(&p) {
                    Some(s) => s.clone(),
                    None => {
                        proof {
                            assert(full_names@.contains_key(p));
                        }
                        String::new()
                    },
                },
                None => String::new(),
            };
            let type_id = match g.account_type_id {
                Some(t) => t,
                None => {
                    proof {
                        assert(false);
                    }
                    0
                },
            };
            let account_type = match account_types.get(&type_id) {
                Some(s) => s.clone(),
                None => {
                    proof {
                        assert(account_types@.contains_key(type_id));
                    }
                    String::new()
                },
            };
            let account_name = match account_names.get(&g.account_id) {
                Some(s) => s.clone(),
                None => {
                    proof {
                        assert(account_names@.contains_key(g.account_id));
                    }
                    String::new()
                },
            };
            let ghost before = record_models(recs@);
            let ghost recs_before = recs@;
            recs.push(BalanceRecord { name, account_type, account_name, balance: g.balance.copy() });
            proof {
                if groups_in_cents(groups@) {
                    assert(groups@[i as int].balance.scale == 2);
                    assert forall|k: int| 0 <= k < recs@.len() implies (#[trigger] recs@[k]).balance.scale == 2 by {
                        if k < recs_before.len() {
                            assert(recs@[k] == recs_before[k]);
                        }
                    }
                }
                assert(record_models(recs@) =~= before.push(group_record(gs[i as int], account_types@, full_names@, account_names@)));
            }
        }
    }
    sort_balance_records(recs)
}

/// Every balance of `s` is canonical, as the values of decimals are.
pub open spec fn records_normal(s: Seq<RecordModel>) -> bool {
    forall|k: int| 0 <= k < s.len() ==> is_normal((#[trigger] s[k]).balance)
}

proof fn lemma_record_lt_transitive(a: RecordModel, b: RecordModel, c: RecordModel)
    requires
        record_lt(a, b),
        record_lt(b, c),
    ensures
        record_lt(a, c),
{
    if seq_lt(a.name, b.name) && seq_lt(b.name, c.name) {
        lemma_seq_lt_transitive(a.name, b.name, c.name);
    }
    if seq_lt(a.account_type, b.account_type) && seq_lt(b.account_type, c.account_type) {
        lemma_seq_lt_transitive(a.account_type, b.account_type, c.account_type);
    }
    if seq_lt(a.account_name, b.account_name) && seq_lt(b.account_name, c.account_name) {
        lemma_seq_lt_transitive(a.account_name, b.account_name, c.account_name);
    }
    if a.balance.lt(b.balance) && b.balance.lt(c.balance) {
        lemma_lt_transitive(a.balance, b.balance, c.balance);
    }
}

proof fn lemma_record_lt_irreflexive(a: RecordModel, b: RecordModel)
    requires
        a.name == b.name,
        a.account_type == b.account_type,
        a.account_name == b.account_name,
        a.balance == b.balance,
    ensures
        !record_lt(a, b),
{
    lemma_seq_lt_irreflexive(a.name);
    lemma_seq_lt_irreflexive(a.account_type);
    lemma_seq_lt_irreflexive(a.account_name);
    lemma_lt_irreflexive(a.balance);
}

proof fn lemma_record_lt_total(a: RecordModel, b: RecordModel)
    requires
        is_normal(a.balance),
        is_normal(b.balance),
    ensures
        record_lt(a, b) || record_lt(b, a) || a == b,
{
    if a.name != b.name {
        lemma_seq_lt_total(a.name, b.name);
    } else if a.account_type != b.account_type {
        lemma_seq_lt_total(a.account_type, b.account_type);
    } else if a.account_name != b.account_name {
        lemma_seq_lt_total(a.account_name, b.account_name);
    } else if a.balance != b.balance {
        lemma_lt_total(a.balance, b.balance);
    }
}

/// `x < z` implies `x < y` or `y < z`.
proof fn lemma_record_lt_split(x: RecordModel, y: RecordModel, z: RecordModel)
    requires
        record_lt(x, z),
        is_normal(x.balance),
        is_normal(y.balance),
        is_normal(z.balance),
    ensures
        record_lt(x, y) || record_lt(y, z),
{
    lemma_record_lt_total(x, y);
    lemma_record_lt_total(y, z);
    if !record_lt(x, y) && !record_lt(y, z) {
        if record_lt(y, x) && record_lt(z, y) {
            lemma_record_lt_transitive(z, y, x);
            lemma_record_lt_transitive(x, z, x);
            lemma_record_lt_irreflexive(x, x);
        } else if record_lt(y, x) {
            lemma_record_lt_transitive(x, z, x);
            lemma_record_lt_irreflexive(x, x);
        } else if record_lt(z, y) {
            lemma_record_lt_transitive(x, z, y);
            lemma_record_lt_irreflexive(x, y);
        } else {
            lemma_record_lt_irreflexive(x, z);
        }
    }
}

/// No record of `s` comes after a later one.
pub open spec fn records_in_order(s: Seq<RecordModel>) -> bool {
    forall|i: int, j: int| 0 <= i < j < s.len() ==> !record_lt(#[trigger] s[j], #[trigger] s[i])
}

/// No record of `s` comes after `t`.
pub open spec fn records_up_to(s: Seq<RecordModel>, t: RecordModel) -> bool {
    forall|k: int| 0 <= k < s.len() ==> !record_lt(t, #[trigger] s[k])
}

proof fn lemma_insert_record_bound(s: Seq<RecordModel>, x: RecordModel, t: RecordModel)
    requires
        records_up_to(s, t),
        !record_lt(t, x),
    ensures
        records_up_to(insert_record(s, x), t),
    decreases s.len(),
{
    if s.len() > 0 && record_lt(x, s.last()) {
        lemma_insert_record_bound(s.drop_last(), x, t);
    }
}

proof fn lemma_insert_record_order(s: Seq<RecordModel>, x: RecordModel)
    requires
        records_in_order(s),
        records_normal(s),
        is_normal(x.balance),
    ensures
        records_in_order(insert_record(s, x)),
        insert_record(s, x).to_multiset() == s.to_multiset().insert(x),
    decreases s.len(),
{
    broadcast use vstd::seq_lib::group_to_multiset_ensures;

    if s.len() == 0 || !record_lt(x, s.last()) {
        let r = s.push(x);
        assert forall|i: int, j: int| 0 <= i < j < r.len() implies !record_lt(#[trigger] r[j], #[trigger] r[i]) by {
            if j == s.len() && i < s.len() - 1 {
                assert(!record_lt(s[s.len() - 1], s[i]));
                if record_lt(x, s[i]) {
                    lemma_record_lt_split(x, s[s.len() - 1], s[i]);
                }
            }
        }
    } else {
        let p = s.drop_last();
        assert(records_normal(p)) by {
            assert forall|k: int| 0 <= k < p.len() implies is_normal((#[trigger] p[k]).balance) by {
                assert(s[k] == p[k]);
            }
        }
        lemma_insert_record_order(p, x);
        let q = insert_record(p, x);
        assert(records_up_to(p, s.last())) by {
            assert forall|k: int| 0 <= k < p.len() implies !record_lt(s.last(), #[trigger] p[k]) by {
                assert(s[k] == p[k]);
            }
        }
        if record_lt(s.last(), x) {
            lemma_record_lt_transitive(x, s.last(), x);
            lemma_record_lt_irreflexive(x, x);
        }
        lemma_insert_record_bound(p, x, s.last());
        let r = q.push(s.last());
        assert forall|i: int, j: int| 0 <= i < j < r.len() implies !record_lt(#[trigger] r[j], #[trigger] r[i]) by {
            if j < q.len() {
                assert(r[i] == q[i] && r[j] == q[j]);
            } else {
                assert(r[i] == q[i]);
            }
        }
        assert(s =~= p.push(s.last()));
        assert(r.to_multiset() =~= p.to_multiset().insert(x).insert(s.last()));
        assert(s.to_multiset() =~= p.to_multiset().insert(s.last()));
    }
}

/// Ordering records keeps them all and puts them in order.
pub proof fn law_sort_records(s: Seq<RecordModel>)
    requires
        records_normal(s),
    ensures
        records_in_order(sort_records(s)),
        sort_records(s).to_multiset() == s.to_multiset(),
        forall|k: int| 0 <= k < sort_records(s).len() ==> s.contains(#[trigger] sort_records(s)[k]),
    decreases s.len(),
{
    broadcast use vstd::seq_lib::group_to_multiset_ensures;

    if s.len() > 0 {
        let p = s.drop_last();
        assert(records_normal(p)) by {
            assert forall|k: int| 0 <= k < p.len() implies is_normal((#[trigger] p[k]).balance) by {
                assert(s[k] == p[k]);
            }
        }
        law_sort_records(p);
        let q = sort_records(p);
        assert(records_normal(q)) by {
            assert forall|k: int| 0 <= k < q.len() implies is_normal((#[trigger] q[k]).balance) by {
                let m = choose|m: int| 0 <= m < p.len() && p[m] == q[k];
                assert(p[m] == s[m]);
            }
        }
        lemma_insert_record_order(q, s.last());
        assert(s =~= p.push(s.last()));
    }
    let r = sort_records(s);
    assert forall|k: int| 0 <= k < r.len() implies s.contains(#[trigger] r[k]) by {
        assert(r.contains(r[k]));
        assert(r.to_multiset().count(r[k]) > 0);
    }
}

proof fn lemma_nonzero_records(
    gs: Seq<KeyedAmount>,
    account_types: Map<i64, String>,
    full_names: Map<i64, String>,
    account_names: Map<i64, String>,
    n: int,
)
    requires
        forall|k: int| 0 <= k < gs.len() ==> is_normal((#[trigger] gs[k]).amount),
        n <= gs.len(),
    ensures
        ({
            let r = nonzero_records_upto(gs, account_types, full_names, account_names, n);
            forall|k: int|
                0 <= k < r.len() ==> is_normal((#[trigger] r[k]).balance) && !r[k].balance.is_zero()
        }),
    decreases n,
{
    if n > 0 {
        lemma_nonzero_records(gs, account_types, full_names, account_names, n - 1);
        let p = nonzero_records_upto(gs, account_types, full_names, account_names, n - 1);
        let r = nonzero_records_upto(gs, account_types, full_names, account_names, n);
        assert forall|k: int| 0 <= k < r.len() implies is_normal((#[trigger] r[k]).balance)
            && !r[k].balance.is_zero() by {
            if k < p.len() {
                assert(r[k] == p[k]);
            }
        }
    }
}

/// A balance report by account type (see `project_data`) lists only
/// balances that are not zero, each once for each such group, in order of
/// name, account type, account name and balance.
pub proof fn law_typed_balance_report(
    gs: Seq<KeyedAmount>,
    account_types: Map<i64, String>,
    full_names: Map<i64, String>,
    account_names: Map<i64, String>,
)
    requires
        forall|k: int| 0 <= k < gs.len() ==> is_normal((#[trigger] gs[k]).amount),
    ensures
        ({
            let all = nonzero_records_upto(gs, account_types, full_names, account_names, gs.len() as int);
            let r = sort_records(all);
            &&& records_in_order(r)
            &&& r.to_multiset() == all.to_multiset()
            &&& forall|k: int| 0 <= k < r.len() ==> !(#[trigger] r[k]).balance.is_zero()
        }),
{
    let all = nonzero_records_upto(gs, account_types, full_names, account_names, gs.len() as int);
    lemma_nonzero_records(gs, account_types, full_names, account_names, gs.len() as int);
    law_sort_records(all);
    let r = sort_records(all);
    assert forall|k: int| 0 <= k < r.len() implies !(#[trigger] r[k]).balance.is_zero() by {
        assert(all.contains(r[k]));
        let m = choose|m: int| 0 <= m < all.len() && all[m] == r[k];
    }
}

} // verus!
