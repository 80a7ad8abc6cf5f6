//! Units and market value of the stocks that each person holds, per account
//! and ticker.

use vstd::prelude::*;
use std::collections::HashMap;
use crate::decimal::{
    dec_int, lemma_rep_mul_abs, DecValue, Decimal,
};
use crate::text::{
    chars_lt, chars_of, lemma_seq_lt_irreflexive, lemma_seq_lt_total, lemma_seq_lt_transitive, seq_lt,
};

verus! {

broadcast use vstd::std_specs::hash::group_hash_axioms;

/// A stock entry: units bought (positive) or sold (negative).
pub struct StockRow {
    pub person_id: i64,
    pub account_type_id: i64,
    pub security_id: i64,
    pub unit: Decimal,
}

/// The units a person holds of a security in a stock account.
pub struct StockGroup {
    pub person_id: i64,
    pub account_type_id: i64,
    pub security_id: i64,
    pub total_unit: Decimal,
}

/// Units under the key of their holding.
pub struct StockAmount {
    pub person_id: i64,
    pub account_type_id: i64,
    pub security_id: i64,
    pub unit: DecValue,
}

/// The key of a holding.
pub open spec fn stock_key(a: StockAmount) -> (i64, i64, i64) {
    (a.person_id, a.account_type_id, a.security_id)
}

pub open spec fn row_units(rows: Seq<StockRow>) -> Seq<StockAmount> {
    rows.map_values(
        |r: StockRow|
            StockAmount {
                person_id: r.person_id,
                account_type_id: r.account_type_id,
                security_id: r.security_id,
                unit: r.unit@,
            },
    )
}

/// The sum of the amounts under key `k` among the first `n`, added in order
/// to zero.
pub open spec fn stock_total(s: Seq<StockAmount>, k: (i64, i64, i64), n: int) -> DecValue
    decreases n,
{
    if n <= 0 {
        dec_int(0)
    } else if stock_key(s[n - 1]) == k {
        stock_total(s, k, n - 1).add(s[n - 1].unit)
    } else {
        stock_total(s, k, n - 1)
    }
}

/// The key of amount `i` occurs before it.
pub open spec fn stock_seen_before(s: Seq<StockAmount>, i: int) -> bool {
    exists|j: int| 0 <= j < i && stock_key(#[trigger] s[j]) == stock_key(s[i])
}

/// The keys of the first `n` amounts, in order of first occurrence.
pub open spec fn stock_keys_upto(s: Seq<StockAmount>, n: int) -> Seq<(i64, i64, i64)>
    decreases n,
{
    if n <= 0 {
        Seq::empty()
    } else if stock_seen_before(s, n - 1) {
        stock_keys_upto(s, n - 1)
    } else {
        stock_keys_upto(s, n - 1).push(stock_key(s[n - 1]))
    }
}

/// The balance under key `k` after the first `n` amounts.
pub open spec fn stock_group_at(s: Seq<StockAmount>, k: (i64, i64, i64), n: int) -> StockAmount {
    StockAmount { person_id: k.0, account_type_id: k.1, security_id: k.2, unit: stock_total(s, k, n) }
}

/// The groups of the first `n` amounts with their totals so far.
pub open spec fn stock_groups_upto(s: Seq<StockAmount>, n: int) -> Seq<StockAmount> {
    stock_keys_upto(s, n).map_values(|k: (i64, i64, i64)| stock_group_at(s, k, n))
}

/// One balance per key, in order of first occurrence, each the sum of the
/// amounts under its key.
pub open spec fn stock_groups_of(s: Seq<StockAmount>) -> Seq<StockAmount> {
    stock_groups_upto(s, s.len() as int)
}

pub open spec fn stock_group_model(g: StockGroup) -> StockAmount {
    StockAmount {
        person_id: g.person_id,
        account_type_id: g.account_type_id,
        security_id: g.security_id,
        unit: g.total_unit@,
    }
}

pub open spec fn stock_group_models(v: Seq<StockGroup>) -> Seq<StockAmount> {
    v.map_values(|g: StockGroup| stock_group_model(g))
}

/// The keys so far occur once each, and are exactly those seen.
proof fn lemma_stock_keys(s: Seq<StockAmount>, n: int)
    requires
        0 <= n <= s.len(),
    ensures
        forall|a: int, b: int|
            0 <= a < b < stock_keys_upto(s, n).len() ==> stock_keys_upto(s, n)[a] != stock_keys_upto(
                s,
                n,
            )[b],
        forall|j: int| 0 <= j < n ==> stock_keys_upto(s, n).contains(stock_key(#[trigger] s[j])),
        forall|k: (i64, i64, i64)|
            stock_keys_upto(s, n).contains(k) ==> exists|j: int| 0 <= j < n && stock_key(#[trigger] s[j]) == k,
    decreases n,
{
    if n > 0 {
        lemma_stock_keys(s, n - 1);
        let prev = stock_keys_upto(s, n - 1);
        if !stock_seen_before(s, n - 1) {
            let k = stock_key(s[n - 1]);
            assert(!prev.contains(k));
            let cur = prev.push(k);
            assert forall|j: int| 0 <= j < n implies cur.contains(stock_key(#[trigger] s[j])) by {
                if j < n - 1 {
                    assert(prev.contains(stock_key(s[j])));
                    let a = prev.index_of(stock_key(s[j]));
                    assert(cur[a] == prev[a]);
                } else {
                    assert(cur[prev.len() as int] == k);
                }
            }
            assert forall|kk: (i64, i64, i64)| cur.contains(kk) implies exists|j: int|
                0 <= j < n && stock_key(#[trigger] s[j]) == kk by {
                let a = cur.index_of(kk);
                if a < prev.len() {
                    assert(prev[a] == kk);
                    assert(prev.contains(kk));
                } else {
                    assert(stock_key(s[n - 1]) == kk);
                }
            }
        } else {
            let j0 = choose|j: int| 0 <= j < n - 1 && stock_key(#[trigger] s[j]) == stock_key(s[n - 1]);
            assert(prev.contains(stock_key(s[j0])));
        }
    }
}

/// Grouping gives one holding per person, account type and security: no key
/// twice, a holding for the key of every entry, and each holding the sum of
/// the units under its key.
pub proof fn law_stock_groups_of(s: Seq<StockAmount>)
    ensures
        forall|a: int, b: int|
            0 <= a < b < stock_groups_of(s).len() ==> stock_key(#[trigger] stock_groups_of(s)[a]) != stock_key(
                #[trigger] stock_groups_of(s)[b],
            ),
        forall|i: int|
            0 <= i < s.len() ==> exists|a: int|
                0 <= a < stock_groups_of(s).len() && stock_key(#[trigger] stock_groups_of(s)[a]) == stock_key(
                    #[trigger] s[i],
                ),
        forall|a: int|
            0 <= a < stock_groups_of(s).len() ==> (#[trigger] stock_groups_of(s)[a]).unit == stock_total(
                s,
                stock_key(stock_groups_of(s)[a]),
                s.len() as int,
            ),
{
    lemma_stock_keys(s, s.len() as int);
    let keys = stock_keys_upto(s, s.len() as int);
    let g = stock_groups_of(s);
    assert forall|a: int| 0 <= a < g.len() implies stock_key(#[trigger] g[a]) == keys[a] by {}
    assert forall|a: int, b: int| 0 <= a < b < g.len() implies stock_key(#[trigger] g[a]) != stock_key(
        #[trigger] g[b],
    ) by {
        assert(stock_key(g[a]) == keys[a]);
        assert(stock_key(g[b]) == keys[b]);
    }
    assert forall|i: int| 0 <= i < s.len() implies exists|a: int|
        0 <= a < g.len() && stock_key(#[trigger] g[a]) == stock_key(#[trigger] s[i]) by {
        assert(keys.contains(stock_key(s[i])));
        let a = keys.index_of(stock_key(s[i]));
        assert(stock_key(g[a]) == keys[a]);
    }
}

/// A key that does not occur among the first `n` amounts totals zero.
proof fn lemma_stock_total_unseen(s: Seq<StockAmount>, k: (i64, i64, i64), n: int)
    requires
        forall|j: int| 0 <= j < n ==> stock_key(#[trigger] s[j]) != k,
    ensures
        stock_total(s, k, n) == dec_int(0),
    decreases n,
{
    if n > 0 {
        lemma_stock_total_unseen(s, k, n - 1);
    }
}


pub open spec fn stock_amount_of(t: (i64, i64, i64, Decimal)) -> StockAmount {
    StockAmount { person_id: t.0, account_type_id: t.1, security_id: t.2, unit: t.3@ }
}

/// Sums keyed amounts into one balance per key, in order of first occurrence.
fn accumulate_units(amounts: Vec<(i64, i64, i64, Decimal)>, Ghost(s): Ghost<Seq<StockAmount>>) -> (r: Vec<StockGroup>)
    requires
        s.len() == amounts@.len(),
        forall|i: int| 0 <= i < s.len() ==> s[i] == stock_amount_of(#[trigger] amounts@[i]),
    ensures
        stock_group_models(r@) == stock_groups_of(s),
        (forall|i: int| 0 <= i < amounts@.len() ==> (#[trigger] amounts@[i]).3.small_scale()) ==> groups_scaled(
            r@,
        ),
{
    let ghost all_small = forall|i: int| 0 <= i < amounts@.len() ==> (#[trigger] amounts@[i]).3.small_scale();
    let mut out: Vec<StockGroup> = Vec::new();
    let n = amounts.len();
    for i in 0..n
        invariant
            n == amounts@.len(),
            s.len() == n,
            forall|k: int| 0 <= k < s.len() ==> s[k] == stock_amount_of(#[trigger] amounts@[k]),
            stock_group_models(out@) == stock_groups_upto(s, i as int),
            all_small == forall|k: int| 0 <= k < amounts@.len() ==> (#[trigger] amounts@[k]).3.small_scale(),
            all_small ==> groups_scaled(out@),
    {
        let (p, a, t, amt) = &amounts[i];
        proof {
            if all_small {
                assert(amounts@[i as int].3.small_scale());
            }
            lemma_stock_keys(s, i as int);
            assert(stock_key(s[i as int]) == (*p, *a, *t));
        }
        let ghost keys = stock_keys_upto(s, i as int);
        proof {
            assert(stock_group_models(out@).len() == out@.len());
            assert(stock_groups_upto(s, i as int).len() == keys.len());
            assert forall|k: int| 0 <= k < out@.len() implies stock_key(stock_group_model(#[trigger] out@[k])) == keys[k] by {
                assert(stock_group_models(out@)[k] == stock_group_model(out@[k]));
                assert(stock_groups_upto(s, i as int)[k] == stock_group_at(s, keys[k], i as int));
            }
        }
        let mut j: usize = 0;
        while j < out.len() && !(out[j].person_id == *p && out[j].account_type_id == *a && out[j].security_id == *t)
            invariant
                j <= out@.len(),
                out@.len() == keys.len(),
                stock_group_models(out@) == stock_groups_upto(s, i as int),
                forall|k: int| 0 <= k < out@.len() ==> stock_key(stock_group_model(#[trigger] out@[k])) == keys[k],
                forall|k: int| 0 <= k < j ==> keys[k] != (*p, *a, *t),
            decreases out@.len() - j,
        {
            j = j + 1;
        }
        let ghost before = out@;
        if j < out.len() {
            assert(keys[j as int] == (*p, *a, *t));
            let total = out[j].total_unit.add(amt);
            out.set(j, StockGroup { person_id: *p, account_type_id: *a, security_id: *t, total_unit: total });
            proof {
                if all_small {
                    assert forall|k: int| 0 <= k < out@.len() implies (#[trigger] out@[k]).total_unit.small_scale() by {
                        if k != j {
                            assert(out@[k] == before[k]);
                        }
                    }
                }
                assert(stock_seen_before(s, i as int)) by {
                    assert(keys.contains((*p, *a, *t)));
                }
                assert forall|k: int| 0 <= k < keys.len() implies stock_group_model(#[trigger] out@[k]) == stock_groups_upto(s, i + 1)[k] by {
                    if k != j {
                        assert(keys[k] != keys[j as int]);
                        assert(stock_group_model(before[k]) == stock_groups_upto(s, i as int)[k]);
                    } else {
                        assert(stock_group_model(before[k]) == stock_groups_upto(s, i as int)[k]);
                    }
                }
                assert(stock_group_models(out@) =~= stock_groups_upto(s, i + 1));
            }
        } else {
            out.push(
                StockGroup {
                    person_id: *p,
                    account_type_id: *a,
                    security_id: *t,
                    total_unit: Decimal::zero().add(amt),
                },
            );
            proof {
                assert(!stock_seen_before(s, i as int)) by {
                    if stock_seen_before(s, i as int) {
                        let j0 = choose|j0: int| 0 <= j0 < i && stock_key(#[trigger] s[j0]) == stock_key(s[i as int]);
                        assert(keys.contains(stock_key(s[j0])));
                    }
                }
                assert forall|k: int| 0 <= k < keys.len() implies stock_group_model(#[trigger] out@[k]) == stock_groups_upto(s, i + 1)[k] by {
                    assert(keys[k] != (*p, *a, *t));
                    assert(stock_group_model(before[k]) == stock_groups_upto(s, i as int)[k]);
                }
                lemma_stock_total_unseen(s, (*p, *a, *t), i as int);
                if all_small {
                    assert forall|k: int| 0 <= k < out@.len() implies (#[trigger] out@[k]).total_unit.small_scale() by {
                        if k < before.len() {
                            assert(out@[k] == before[k]);
                        }
                    }
                }
                assert(stock_keys_upto(s, i + 1) == keys.push((*p, *a, *t)));
                assert(stock_group_model(out@[keys.len() as int]) == stock_groups_upto(s, i + 1)[keys.len() as int]);
                assert(stock_group_models(out@) =~= stock_groups_upto(s, i + 1));
            }
        }
    }
    out
}

/// The units of every holding lie within the ledger's scales.
pub open spec fn groups_scaled(groups: Seq<StockGroup>) -> bool {
    forall|i: int| 0 <= i < groups.len() ==> (#[trigger] groups[i]).total_unit.small_scale()
}

/// Every price lies within the ledger's scales.
pub open spec fn prices_scaled(tickers: Map<i64, (String, Decimal)>) -> bool {
    forall|k: i64| #[trigger] tickers.contains_key(k) ==> tickers[k].1.small_scale()
}

/// The units of each holding, in order of first entry.
pub fn accumulate_stock_units(rows: &Vec<StockRow>) -> (r: Vec<StockGroup>)
    ensures
        stock_group_models(r@) == stock_groups_of(row_units(rows@)),
        (forall|i: int| 0 <= i < rows@.len() ==> (#[trigger] rows@[i]).unit.small_scale()) ==> groups_scaled(r@),
{
    let mut amounts: Vec<(i64, i64, i64, Decimal)> = Vec::new();
    let n = rows.len();
    for i in 0..n
        invariant
            n == rows@.len(),
            amounts@.len() == i,
            forall|k: int| 0 <= k < i ==> row_units(rows@)[k] == stock_amount_of(#[trigger] amounts@[k]),
            forall|k: int| 0 <= k < i ==> (#[trigger] amounts@[k]).3.scale == rows@[k].unit.scale,
    {
        let r = &rows[i];
        amounts.push((r.person_id, r.account_type_id, r.security_id, r.unit.copy()));
    }
    accumulate_units(amounts, Ghost(row_units(rows@)))
}

/// Holdings as reports show them: units and market value per person's name,
/// account name and ticker.
pub struct StockUnit {
    pub name: String,
    pub account_name: String,
    pub ticker: String,
    pub total_unit: Decimal,
    pub market_value: Decimal,
}

/// The values of a `StockUnit`.
pub struct UnitModel {
    pub name: Seq<char>,
    pub account_name: Seq<char>,
    pub ticker: Seq<char>,
    pub total_unit: DecValue,
    pub market_value: DecValue,
}

pub open spec fn unit_model(u: StockUnit) -> UnitModel {
    UnitModel {
        name: u.name@,
        account_name: u.account_name@,
        ticker: u.ticker@,
        total_unit: u.total_unit@,
        market_value: u.market_value@,
    }
}

pub open spec fn unit_models(v: Seq<StockUnit>) -> Seq<UnitModel> {
    v.map_values(|u: StockUnit| unit_model(u))
}

/// The names and prices that the holdings need: the person's full name, the
/// account type's account name, the security's ticker and price.
pub struct Lookup {
    pub full_names: Map<i64, String>,
    pub account_names: Map<i64, String>,
    pub tickers: Map<i64, (String, Decimal)>,
}

/// Every holding's names and price are there.
pub open spec fn lookup_covers(gs: Seq<StockAmount>, l: Lookup) -> bool {
    forall|i: int|
        0 <= i < gs.len() ==> l.full_names.contains_key((#[trigger] gs[i]).person_id)
            && l.account_names.contains_key(gs[i].account_type_id) && l.tickers.contains_key(gs[i].security_id)
}

/// The report key of a holding: person's name, account name, ticker.
pub open spec fn report_key(g: StockAmount, l: Lookup) -> (Seq<char>, Seq<char>, Seq<char>) {
    (l.full_names[g.person_id]@, l.account_names[g.account_type_id]@, l.tickers[g.security_id].0@)
}

/// The market value of a holding: units times price, rounded to cents.
pub open spec fn market_value_of(g: StockAmount, l: Lookup) -> DecValue {
    g.unit.mul(l.tickers[g.security_id].1@).round2()
}

/// The report key of holding `i` occurs before it.
pub open spec fn key_seen_before(gs: Seq<StockAmount>, l: Lookup, i: int) -> bool {
    exists|j: int| 0 <= j < i && report_key(#[trigger] gs[j], l) == report_key(gs[i], l)
}

/// The report keys of the first `n` holdings, in order of first occurrence.
pub open spec fn report_keys_upto(gs: Seq<StockAmount>, l: Lookup, n: int) -> Seq<(Seq<char>, Seq<char>, Seq<char>)>
    decreases n,
{
    if n <= 0 {
        Seq::empty()
    } else if key_seen_before(gs, l, n - 1) {
        report_keys_upto(gs, l, n - 1)
    } else {
        report_keys_upto(gs, l, n - 1).push(report_key(gs[n - 1], l))
    }
}

/// The units and the market value under report key `k` of the first `n`
/// holdings, each summed in order from zero.
pub open spec fn report_totals(
    gs: Seq<StockAmount>,
    l: Lookup,
    k: (Seq<char>, Seq<char>, Seq<char>),
    n: int,
) -> (DecValue, DecValue)
    decreases n,
{
    if n <= 0 {
        (dec_int(0), dec_int(0))
    } else {
        let prev = report_totals(gs, l, k, n - 1);
        if report_key(gs[n - 1], l) == k {
            (prev.0.add(gs[n - 1].unit), prev.1.add(market_value_of(gs[n - 1], l)))
        } else {
            prev
        }
    }
}

pub open spec fn report_at(gs: Seq<StockAmount>, l: Lookup, k: (Seq<char>, Seq<char>, Seq<char>), n: int) -> UnitModel {
    UnitModel {
        name: k.0,
        account_name: k.1,
        ticker: k.2,
        total_unit: report_totals(gs, l, k, n).0,
        market_value: report_totals(gs, l, k, n).1,
    }
}

pub open spec fn reports_upto(gs: Seq<StockAmount>, l: Lookup, n: int) -> Seq<UnitModel> {
    report_keys_upto(gs, l, n).map_values(|k: (Seq<char>, Seq<char>, Seq<char>)| report_at(gs, l, k, n))
}

proof fn lemma_report_keys(gs: Seq<StockAmount>, l: Lookup, n: int)
    requires
        0 <= n <= gs.len(),
    ensures
        forall|a: int, b: int|
            0 <= a < b < report_keys_upto(gs, l, n).len() ==> report_keys_upto(gs, l, n)[a]
                != report_keys_upto(gs, l, n)[b],
        forall|j: int| 0 <= j < n ==> report_keys_upto(gs, l, n).contains(report_key(#[trigger] gs[j], l)),
        forall|k: (Seq<char>, Seq<char>, Seq<char>)|
            report_keys_upto(gs, l, n).contains(k) ==> exists|j: int|
                0 <= j < n && report_key(#[trigger] gs[j], l) == k,
    decreases n,
{
    if n > 0 {
        lemma_report_keys(gs, l, n - 1);
        let prev = report_keys_upto(gs, l, n - 1);
        if !key_seen_before(gs, l, n - 1) {
            let k = report_key(gs[n - 1], l);
            assert(!prev.contains(k));
            let cur = prev.push(k);
            assert forall|j: int| 0 <= j < n implies cur.contains(report_key(#[trigger] gs[j], l)) by {
                if j < n - 1 {
                    assert(prev.contains(report_key(gs[j], l)));
                    let a = prev.index_of(report_key(gs[j], l));
                    assert(cur[a] == prev[a]);
                } else {
                    assert(cur[prev.len() as int] == k);
                }
            }
            assert forall|kk: (Seq<char>, Seq<char>, Seq<char>)| cur.contains(kk) implies exists|j: int|
                0 <= j < n && report_key(#[trigger] gs[j], l) == kk by {
                let a = cur.index_of(kk);
                if a < prev.len() {
                    assert(prev[a] == kk);
                    assert(prev.contains(kk));
                } else {
                    assert(report_key(gs[n - 1], l) == kk);
                }
            }
        } else {
            let j0 = choose|j: int| 0 <= j < n - 1 && report_key(#[trigger] gs[j], l) == report_key(gs[n - 1], l);
            assert(prev.contains(report_key(gs[j0], l)));
        }
    }
}

proof fn lemma_report_unseen(gs: Seq<StockAmount>, l: Lookup, k: (Seq<char>, Seq<char>, Seq<char>), n: int)
    requires
        forall|j: int| 0 <= j < n ==> report_key(#[trigger] gs[j], l) != k,
    ensures
        report_totals(gs, l, k, n) == (dec_int(0), dec_int(0)),
    decreases n,
{
    if n > 0 {
        lemma_report_unseen(gs, l, k, n - 1);
    }
}

/// Every market value is written in cents (at scale two), as rounding each
/// holding's value to cents and summing leaves it.
pub open spec fn values_in_cents(v: Seq<StockUnit>) -> bool {
    forall|k: int| 0 <= k < v.len() ==> (#[trigger] v[k]).market_value.scale == 2
}

/// Sums the holdings under their report keys, in order of first occurrence.
fn merge_by_report_key(
    groups: &Vec<StockGroup>,
    full_names: &HashMap<i64, String>,
    account_names: &HashMap<i64, String>,
    tickers: &HashMap<i64, (String, Decimal)>,
) -> (r: Vec<StockUnit>)
    requires
        lookup_covers(
            stock_group_models(groups@),
            Lookup { full_names: full_names@, account_names: account_names@, tickers: tickers@ },
        ),
        groups_scaled(groups@),
        prices_scaled(tickers@),
    ensures
        unit_models(r@) == reports_upto(
            stock_group_models(groups@),
            Lookup { full_names: full_names@, account_names: account_names@, tickers: tickers@ },
            groups@.len() as int,
        ),
        values_in_cents(r@),
{
    let ghost l = Lookup { full_names: full_names@, account_names: account_names@, tickers: tickers@ };
    let ghost gs = stock_group_models(groups@);
    let mut out: Vec<StockUnit> = Vec::new();
    let n = groups.len();
    for i in 0..n
        invariant
            n == groups@.len(),
            gs == stock_group_models(groups@),
            l == (Lookup { full_names: full_names@, account_names: account_names@, tickers: tickers@ }),
            lookup_covers(gs, l),
            groups_scaled(groups@),
            prices_scaled(tickers@),
            unit_models(out@) == reports_upto(gs, l, i as int),
            values_in_cents(out@),
    {
        let g = &groups[i];
        assert(gs[i as int] == stock_group_model(*g));
        let name = match full_names.get(&g.person_id) {
            Some(s) => s.clone(),
            None => {
                proof {
                    assert(l.full_names.contains_key(g.person_id));
                }
                String::new()
            },
        };
        let account_name = match account_names.get(&g.account_type_id) {
            Some(s) => s.clone(),
            None => {
                proof {
                    assert(l.account_names.contains_key(g.account_type_id));
                }
                String::new()
            },
        };
        let (ticker, value) = match tickers.get(&g.security_id) {
            Some(t) => {
                proof {
                    assert(groups@[i as int].total_unit.small_scale());
                    assert(tickers@.contains_key(g.security_id));
                    lemma_rep_mul_abs(g.total_unit.rep(), t.1.rep());
                }
                let product = g.total_unit.mul(&t.1);
                (t.0.clone(), product.round2())
            },
            None => {
                proof {
                    assert(l.tickers.contains_key(g.security_id));
                }
                (String::new(), Decimal::zero())
            },
        };
        let ghost k = report_key(gs[i as int], l);
        assert(k == (name@, account_name@, ticker@));
        assert(value@ == market_value_of(gs[i as int], l));
        proof {
            lemma_report_keys(gs, l, i as int);
        }
        let ghost keys = report_keys_upto(gs, l, i as int);
        proof {
            assert(unit_models(out@).len() == out@.len());
            assert(reports_upto(gs, l, i as int).len() == keys.len());
            assert forall|m: int| 0 <= m < out@.len() implies ((#[trigger] out@[m]).name@, out@[m].account_name@, out@[m].ticker@) == keys[m] by {
                assert(unit_models(out@)[m] == unit_model(out@[m]));
                assert(reports_upto(gs, l, i as int)[m] == report_at(gs, l, keys[m], i as int));
            }
        }
        let mut j: usize = 0;
        while j < out.len() && !(out[j].name.eq(&name) && out[j].account_name.eq(&account_name) && out[j].ticker.eq(&ticker))
            invariant
                j <= out@.len(),
                out@.len() == keys.len(),
                unit_models(out@) == reports_upto(gs, l, i as int),
                forall|m: int| 0 <= m < out@.len() ==> ((#[trigger] out@[m]).name@, out@[m].account_name@, out@[m].ticker@) == keys[m],
                forall|m: int| 0 <= m < j ==> keys[m] != k,
                k == (name@, account_name@, ticker@),
            decreases out@.len() - j,
        {
            j = j + 1;
        }
        let ghost before = out@;
        if j < out.len() {
            assert(keys[j as int] == k);
            let total_unit = out[j].total_unit.add(&g.total_unit);
            let market_value = out[j].market_value.add(&value);
            out.set(j, StockUnit { name, account_name, ticker, total_unit, market_value });
            proof {
                assert forall|m: int| 0 <= m < out@.len() implies (#[trigger] out@[m]).market_value.scale == 2 by {
                    if m != j {
                        assert(out@[m] == before[m]);
                    }
                }
                assert(key_seen_before(gs, l, i as int)) by {
                    assert(keys.contains(k));
                }
                assert forall|m: int| 0 <= m < keys.len() implies unit_model(#[trigger] out@[m]) == reports_upto(gs, l, i + 1)[m] by {
                    assert(unit_model(before[m]) == reports_upto(gs, l, i as int)[m]);
                    if m != j {
                        assert(keys[m] != keys[j as int]);
                    }
                }
                assert(unit_models(out@) =~= reports_upto(gs, l, i + 1));
            }
        } else {
            let total_unit = Decimal::zero().add(&g.total_unit);
            let market_value = Decimal::zero().add(&value);
            out.push(StockUnit { name, account_name, ticker, total_unit, market_value });
            proof {
                assert forall|m: int| 0 <= m < out@.len() implies (#[trigger] out@[m]).market_value.scale == 2 by {
                    if m < before.len() {
                        assert(out@[m] == before[m]);
                    }
                }
                assert(!key_seen_before(gs, l, i as int)) by {
                    if key_seen_before(gs, l, i as int) {
                        let j0 = choose|j0: int| 0 <= j0 < i && report_key(#[trigger] gs[j0], l) == report_key(gs[i as int], l);
                        assert(keys.contains(report_key(gs[j0], l)));
                    }
                }
                assert forall|m: int| 0 <= m < keys.len() implies unit_model(#[trigger] out@[m]) == reports_upto(gs, l, i + 1)[m] by {
                    assert(keys[m] != k);
                    assert(unit_model(before[m]) == reports_upto(gs, l, i as int)[m]);
                }
                lemma_report_unseen(gs, l, k, i as int);
                assert(report_keys_upto(gs, l, i + 1) == keys.push(k));
                assert(unit_model(out@[keys.len() as int]) == reports_upto(gs, l, i + 1)[keys.len() as int]);
                assert(unit_models(out@) =~= reports_upto(gs, l, i + 1));
            }
        }
    }
    out
}

/// The order of report keys: by name, then account name, then ticker.
pub open spec fn unit_key_lt(a: UnitModel, b: UnitModel) -> bool {
    ||| seq_lt(a.name, b.name)
    ||| a.name == b.name && seq_lt(a.account_name, b.account_name)
    ||| a.name == b.name && a.account_name == b.account_name && seq_lt(a.ticker, b.ticker)
}

pub open spec fn insert_unit(s: Seq<UnitModel>, x: UnitModel) -> Seq<UnitModel>
    decreases s.len(),
{
    if s.len() == 0 || !unit_key_lt(x, s.last()) {
        s.push(x)
    } else {
        insert_unit(s.drop_last(), x).push(s.last())
    }
}

/// The holdings in order of their report keys.
pub open spec fn sort_units(s: Seq<UnitModel>) -> Seq<UnitModel>
    decreases s.len(),
{
    if s.len() == 0 {
        s
    } else {
        insert_unit(sort_units(s.drop_last()), s.last())
    }
}

/// The first `n` holdings with a positive number of units.
pub open spec fn positive_upto(s: Seq<UnitModel>, n: int) -> Seq<UnitModel>
    decreases n,
{
    if n <= 0 {
        Seq::empty()
    } else if s[n - 1].total_unit.is_positive() {
        positive_upto(s, n - 1).push(s[n - 1])
    } else {
        positive_upto(s, n - 1)
    }
}

proof fn lemma_insert_unit(s: Seq<UnitModel>, x: UnitModel, j: int)
    requires
        0 <= j <= s.len(),
        forall|k: int| j <= k < s.len() ==> unit_key_lt(x, #[trigger] s[k]),
        j == 0 || !unit_key_lt(x, s[j - 1]),
    ensures
        insert_unit(s, x) == s.insert(j, x),
    decreases s.len(),
{
    if s.len() == j {
        assert(s.insert(j, x) =~= s.push(x));
    } else {
        lemma_insert_unit(s.drop_last(), x, j);
        assert(s.drop_last().insert(j, x).push(s.last()) =~= s.insert(j, x));
    }
}

fn unit_key_lt_exec(a: &StockUnit, b: &StockUnit) -> (r: bool)
    ensures
        r == unit_key_lt(unit_model(*a), unit_model(*b)),
{
    let an = chars_of(a.name.as_str());
    let bn = chars_of(b.name.as_str());
    if chars_lt(&an, &bn) {
        return true;
    }
    if !a.name.eq(&b.name) {
        return false;
    }
    let aa = chars_of(a.account_name.as_str());
    let ba = chars_of(b.account_name.as_str());
    if chars_lt(&aa, &ba) {
        return true;
    }
    if !a.account_name.eq(&b.account_name) {
        return false;
    }
    let at = chars_of(a.ticker.as_str());
    let bt = chars_of(b.ticker.as_str());
    chars_lt(&at, &bt)
}

fn sort_stock_units(v: Vec<StockUnit>) -> (r: Vec<StockUnit>)
    requires
        values_in_cents(v@),
    ensures
        unit_models(r@) == sort_units(unit_models(v@)),
        values_in_cents(r@),
{
    let ghost m = unit_models(v@);
    let mut out: Vec<StockUnit> = Vec::new();
    let mut rest = v;
    let n = rest.len();
    let mut i: usize = 0;
    proof {
        assert(rest@.skip(0) =~= rest@);
    }
    while rest.len() > 0
        invariant
            i + rest@.len() == n,
            n == m.len(),
            unit_models(rest@) == m.skip(i as int),
            unit_models(out@) == sort_units(m.take(i as int)),
            values_in_cents(rest@),
            values_in_cents(out@),
        decreases rest@.len(),
    {
        let ghost old_rest = rest@;
        let x = rest.remove(0);
        proof {
            assert(old_rest[0] == x);
            assert forall|k: int| 0 <= k < rest@.len() implies (#[trigger] rest@[k]).market_value.scale == 2 by {
                assert(rest@[k] == old_rest[k + 1]);
            }
            assert(unit_models(old_rest)[0] == unit_model(old_rest[0]));
            assert(m.skip(i as int)[0] == m[i as int]);
            assert(rest@ =~= old_rest.skip(1));
            assert forall|k: int| 0 <= k < rest@.len() implies #[trigger] unit_models(rest@)[k] == m.skip(i + 1)[k] by {
                assert(rest@[k] == old_rest[k + 1]);
                assert(unit_models(old_rest)[k + 1] == m.skip(i as int)[k + 1]);
            }
            assert(unit_models(rest@) =~= m.skip(i + 1));
        }
        let mut j: usize = out.len();
        while j > 0 && unit_key_lt_exec(&x, &out[j - 1])
            invariant
                j <= out@.len(),
                forall|k: int| j <= k < out@.len() ==> unit_key_lt(unit_model(x), #[trigger] unit_models(out@)[k]),
            decreases j,
        {
            j = j - 1;
        }
        let ghost before = unit_models(out@);
        proof {
            lemma_insert_unit(before, unit_model(x), j as int);
            assert(m.take(i + 1).drop_last() =~= m.take(i as int));
            assert(m.take(i + 1).last() == m[i as int]);
        }
        let ghost out_before = out@;
        out.insert(j, x);
        proof {
            assert(unit_models(out@) =~= before.insert(j as int, m[i as int]));
            assert forall|k: int| 0 <= k < out@.len() implies (#[trigger] out@[k]).market_value.scale == 2 by {
                if k < j {
                    assert(out@[k] == out_before[k]);
                } else if k > j {
                    assert(out@[k] == out_before[k - 1]);
                }
            }
        }
        i = i + 1;
    }
    proof {
        assert(m.take(n as int) =~= m);
    }
    out
}

/// The holdings of the report: the units of each holding summed per person's
/// name, account name and ticker, with their market value (each holding's
/// units times the security's price, rounded to cents, summed); in order of
/// name, account name and ticker; only those with a positive number of units.
pub fn stock_units(
    groups: &Vec<StockGroup>,
    full_names: &HashMap<i64, String>,
    account_names: &HashMap<i64, String>,
    tickers: &HashMap<i64, (String, Decimal)>,
) -> (r: Vec<StockUnit>)
    requires
        lookup_covers(
            stock_group_models(groups@),
            Lookup { full_names: full_names@, account_names: account_names@, tickers: tickers@ },
        ),
        groups_scaled(groups@),
        prices_scaled(tickers@),
    ensures
        ({
            let s = sort_units(
                reports_upto(
                    stock_group_models(groups@),
                    Lookup { full_names: full_names@, account_names: account_names@, tickers: tickers@ },
                    groups@.len() as int,
                ),
            );
            unit_models(r@) == positive_upto(s, s.len() as int)
        }),
        values_in_cents(r@),
{
    let merged = merge_by_report_key(groups, full_names, account_names, tickers);
    let sorted = sort_stock_units(merged);
    let ghost s = unit_models(sorted@);
    let mut out: Vec<StockUnit> = Vec::new();
    let mut rest = sorted;
    let n = rest.len();
    let mut i: usize = 0;
    proof {
        assert(rest@.skip(0) =~= rest@);
    }
    while rest.len() > 0
        invariant
            i + rest@.len() == n,
            n == s.len(),
            unit_models(rest@) == s.skip(i as int),
            unit_models(out@) == positive_upto(s, i as int),
            values_in_cents(rest@),
            values_in_cents(out@),
        decreases rest@.len(),
    {
        let ghost old_rest = rest@;
        let x = rest.remove(0);
        proof {
            assert(old_rest[0] == x);
            assert forall|k: int| 0 <= k < rest@.len() implies (#[trigger] rest@[k]).market_value.scale == 2 by {
                assert(rest@[k] == old_rest[k + 1]);
            }
            assert(unit_models(old_rest)[0] == unit_model(old_rest[0]));
            assert(s.skip(i as int)[0] == s[i as int]);
            assert(rest@ =~= old_rest.skip(1));
            assert forall|k: int| 0 <= k < rest@.len() implies #[trigger] unit_models(rest@)[k] == s.skip(i + 1)[k] by {
                assert(rest@[k] == old_rest[k + 1]);
                assert(unit_models(old_rest)[k + 1] == s.skip(i as int)[k + 1]);
            }
            assert(unit_models(rest@) =~= s.skip(i + 1));
        }
        if x.total_unit.is_positive() {
            let ghost before = unit_models(out@);
            let ghost out_before = out@;
            out.push(x);
            proof {
                assert(unit_models(out@) =~= before.push(s[i as int]));
                assert forall|k: int| 0 <= k < out@.len() implies (#[trigger] out@[k]).market_value.scale == 2 by {
                    if k < out_before.len() {
                        assert(out@[k] == out_before[k]);
                    }
                }
            }
        }
        i = i + 1;
    }
    out
}

impl StockRow {
    /// A stock entry whose units carry the sign `sign_multiplier` (1 for a
    /// buy, -1 for a sale).
    pub fn from_signed(
        person_id: i64,
        account_type_id: i64,
        security_id: i64,
        unit: &Decimal,
        sign_multiplier: i32,
    ) -> (r: StockRow)
        ensures
            r.person_id == person_id,
            r.account_type_id == account_type_id,
            r.security_id == security_id,
            r.unit@ == unit@.mul(dec_int(sign_multiplier as int)),
            unit.small_scale() ==> r.unit.small_scale(),
    {
        proof {
            lemma_rep_mul_abs(unit.rep(), (sign_multiplier as int, 0));
        }
        StockRow { person_id, account_type_id, security_id, unit: unit.mul(&Decimal::from_i64(sign_multiplier as i64)) }
    }
}

proof fn lemma_unit_key_lt_transitive(a: UnitModel, b: UnitModel, c: UnitModel)
    requires
        unit_key_lt(a, b),
        unit_key_lt(b, c),
    ensures
        unit_key_lt(a, c),
{
    if seq_lt(a.name, b.name) && seq_lt(b.name, c.name) {
        lemma_seq_lt_transitive(a.name, b.name, c.name);
    }
    if seq_lt(a.account_name, b.account_name) && seq_lt(b.account_name, c.account_name) {
        lemma_seq_lt_transitive(a.account_name, b.account_name, c.account_name);
    }
    if seq_lt(a.ticker, b.ticker) && seq_lt(b.ticker, c.ticker) {
        lemma_seq_lt_transitive(a.ticker, b.ticker, c.ticker);
    }
}

proof fn lemma_unit_key_lt_irreflexive(a: UnitModel, b: UnitModel)
    requires
        a.name == b.name,
        a.account_name == b.account_name,
        a.ticker == b.ticker,
    ensures
        !unit_key_lt(a, b),
{
    lemma_seq_lt_irreflexive(a.name);
    lemma_seq_lt_irreflexive(a.account_name);
    lemma_seq_lt_irreflexive(a.ticker);
}

proof fn lemma_unit_key_lt_total(a: UnitModel, b: UnitModel)
    ensures
        unit_key_lt(a, b) || unit_key_lt(b, a) || (a.name == b.name && a.account_name == b.account_name
            && a.ticker == b.ticker),
{
    if a.name != b.name {
        lemma_seq_lt_total(a.name, b.name);
    } else if a.account_name != b.account_name {
        lemma_seq_lt_total(a.account_name, b.account_name);
    } else if a.ticker != b.ticker {
        lemma_seq_lt_total(a.ticker, b.ticker);
    }
}

/// `x < z` implies `x < y` or `y < z`.
proof fn lemma_unit_key_lt_split(x: UnitModel, y: UnitModel, z: UnitModel)
    requires
        unit_key_lt(x, z),
    ensures
        unit_key_lt(x, y) || unit_key_lt(y, z),
{
    lemma_unit_key_lt_total(x, y);
    lemma_unit_key_lt_total(y, z);
    if !unit_key_lt(x, y) && !unit_key_lt(y, z) {
        if unit_key_lt(y, x) && unit_key_lt(z, y) {
            lemma_unit_key_lt_transitive(z, y, x);
            lemma_unit_key_lt_transitive(x, z, x);
            lemma_unit_key_lt_irreflexive(x, x);
        } else if unit_key_lt(y, x) {
            lemma_unit_key_lt_transitive(x, z, x);
            lemma_unit_key_lt_irreflexive(x, x);
        } else if unit_key_lt(z, y) {
            lemma_unit_key_lt_transitive(x, z, y);
            lemma_unit_key_lt_irreflexive(x, y);
        } else {
            lemma_unit_key_lt_irreflexive(x, z);
        }
    }
}

/// No holding of `s` comes after a later one in the order of report keys.
pub open spec fn units_in_order(s: Seq<UnitModel>) -> bool {
    forall|i: int, j: int| 0 <= i < j < s.len() ==> !unit_key_lt(#[trigger] s[j], #[trigger] s[i])
}

/// No holding of `s` comes after `t`.
pub open spec fn units_up_to(s: Seq<UnitModel>, t: UnitModel) -> bool {
    forall|k: int| 0 <= k < s.len() ==> !unit_key_lt(t, #[trigger] s[k])
}

proof fn lemma_insert_unit_bound(s: Seq<UnitModel>, x: UnitModel, t: UnitModel)
    requires
        units_up_to(s, t),
        !unit_key_lt(t, x),
    ensures
        units_up_to(insert_unit(s, x), t),
    decreases s.len(),
{
    if s.len() > 0 && unit_key_lt(x, s.last()) {
        lemma_insert_unit_bound(s.drop_last(), x, t);
    }
}

proof fn lemma_insert_unit_order(s: Seq<UnitModel>, x: UnitModel)
    requires
        units_in_order(s),
    ensures
        units_in_order(insert_unit(s, x)),
        insert_unit(s, x).to_multiset() == s.to_multiset().insert(x),
    decreases s.len(),
{
    broadcast use vstd::seq_lib::group_to_multiset_ensures;

    if s.len() == 0 || !unit_key_lt(x, s.last()) {
        let r = s.push(x);
        assert forall|i: int, j: int| 0 <= i < j < r.len() implies !unit_key_lt(#[trigger] r[j], #[trigger] r[i]) by {
            if j == s.len() && i < s.len() - 1 {
                assert(!unit_key_lt(s[s.len() - 1], s[i]));
                if unit_key_lt(x, s[i]) {
                    lemma_unit_key_lt_split(x, s[s.len() - 1], s[i]);
                }
            }
        }
    } else {
        let p = s.drop_last();
        lemma_insert_unit_order(p, x);
        let q = insert_unit(p, x);
        assert(units_up_to(p, s.last())) by {
            assert forall|k: int| 0 <= k < p.len() implies !unit_key_lt(s.last(), #[trigger] p[k]) by {
                assert(s[k] == p[k]);
            }
        }
        if unit_key_lt(s.last(), x) {
            lemma_unit_key_lt_transitive(x, s.last(), x);
            lemma_unit_key_lt_irreflexive(x, x);
        }
        lemma_insert_unit_bound(p, x, s.last());
        let r = q.push(s.last());
        assert forall|i: int, j: int| 0 <= i < j < r.len() implies !unit_key_lt(#[trigger] r[j], #[trigger] r[i]) by {
            if j < q.len() {
                assert(r[i] == q[i] && r[j] == q[j]);
            } else {
                assert(r[i] == q[i]);
            }
        }
        assert(s =~= p.push(s.last()));
        assert(r.to_multiset() =~= p.to_multiset().insert(x).insert(s.last()));
        assert(s.to_multiset() =~= p.to_multiset().insert(s.last()));
    }
}

/// Ordering the holdings keeps them all and puts them in order of name,
/// account name and ticker.
pub proof fn law_sort_units(s: Seq<UnitModel>)
    ensures
        units_in_order(sort_units(s)),
        sort_units(s).to_multiset() == s.to_multiset(),
    decreases s.len(),
{
    broadcast use vstd::seq_lib::group_to_multiset_ensures;

    if s.len() > 0 {
        law_sort_units(s.drop_last());
        lemma_insert_unit_order(sort_units(s.drop_last()), s.last());
        assert(s =~= s.drop_last().push(s.last()));
    }
}

proof fn lemma_positive_upto(s: Seq<UnitModel>, n: int)
    requires
        units_in_order(s),
        0 <= n <= s.len(),
    ensures
        units_in_order(positive_upto(s, n)),
        n > 0 ==> units_up_to(positive_upto(s, n), s[n - 1]),
        forall|k: int| 0 <= k < positive_upto(s, n).len() ==> (#[trigger] positive_upto(s, n)[k]).total_unit.is_positive(),
    decreases n,
{
    if n > 0 {
        lemma_positive_upto(s, n - 1);
        let p = positive_upto(s, n - 1);
        if n > 1 {
            assert(!unit_key_lt(s[n - 1], s[n - 2]));
            assert forall|k: int| 0 <= k < p.len() implies !unit_key_lt(s[n - 1], #[trigger] p[k]) by {
                assert(!unit_key_lt(s[n - 2], p[k]));
                if unit_key_lt(s[n - 1], p[k]) {
                    lemma_unit_key_lt_split(s[n - 1], s[n - 2], p[k]);
                }
            }
        }
        if s[n - 1].total_unit.is_positive() {
            let r = p.push(s[n - 1]);
            lemma_unit_key_lt_irreflexive(s[n - 1], s[n - 1]);
            assert forall|i: int, j: int| 0 <= i < j < r.len() implies !unit_key_lt(#[trigger] r[j], #[trigger] r[i]) by {
                assert(r[i] == p[i]);
                if j < p.len() {
                    assert(r[j] == p[j]);
                }
            }
            assert forall|k: int| 0 <= k < r.len() implies !unit_key_lt(s[n - 1], #[trigger] r[k]) by {
                if k < p.len() {
                    assert(r[k] == p[k]);
                }
            }
            assert forall|k: int| 0 <= k < r.len() implies (#[trigger] r[k]).total_unit.is_positive() by {
                if k < p.len() {
                    assert(r[k] == p[k]);
                }
            }
        }
    }
}

/// The holdings a report lists (see `stock_units`) are in order of name,
/// account name and ticker, and each holds a positive number of units.
pub proof fn law_stock_units_report(s: Seq<UnitModel>)
    ensures
        ({
            let r = positive_upto(sort_units(s), sort_units(s).len() as int);
            &&& units_in_order(r)
            &&& forall|k: int| 0 <= k < r.len() ==> (#[trigger] r[k]).total_unit.is_positive()
        }),
{
    law_sort_units(s);
    lemma_positive_upto(sort_units(s), sort_units(s).len() as int);
}

/// The report key of a listed holding.
pub open spec fn unit_key(u: UnitModel) -> (Seq<char>, Seq<char>, Seq<char>) {
    (u.name, u.account_name, u.ticker)
}

/// No two holdings of `s` share a report key.
pub open spec fn keys_distinct(s: Seq<UnitModel>) -> bool {
    forall|i: int, j: int| 0 <= i < j < s.len() ==> unit_key(#[trigger] s[i]) != unit_key(#[trigger] s[j])
}

proof fn lemma_insert_unit_keys(s: Seq<UnitModel>, x: UnitModel)
    requires
        keys_distinct(s),
        forall|m: int| 0 <= m < s.len() ==> unit_key(#[trigger] s[m]) != unit_key(x),
    ensures
        keys_distinct(insert_unit(s, x)),
        forall|k: int|
            0 <= k < insert_unit(s, x).len() ==> #[trigger] insert_unit(s, x)[k] == x || s.contains(
                insert_unit(s, x)[k],
            ),
    decreases s.len(),
{
    if s.len() == 0 || !unit_key_lt(x, s.last()) {
        let r = s.push(x);
        assert forall|i: int, j: int| 0 <= i < j < r.len() implies unit_key(#[trigger] r[i]) != unit_key(
            #[trigger] r[j],
        ) by {
            assert(r[i] == s[i]);
            if j < s.len() {
                assert(r[j] == s[j]);
            }
        }
        assert forall|k: int| 0 <= k < r.len() implies #[trigger] r[k] == x || s.contains(r[k]) by {
            if k < s.len() {
                assert(r[k] == s[k]);
            }
        }
    } else {
        let p = s.drop_last();
        assert forall|i: int, j: int| 0 <= i < j < p.len() implies unit_key(#[trigger] p[i]) != unit_key(
            #[trigger] p[j],
        ) by {
            assert(p[i] == s[i] && p[j] == s[j]);
        }
        assert forall|m: int| 0 <= m < p.len() implies unit_key(#[trigger] p[m]) != unit_key(x) by {
            assert(p[m] == s[m]);
        }
        lemma_insert_unit_keys(p, x);
        let q = insert_unit(p, x);
        let last = s.last();
        let r = q.push(last);
        assert forall|k: int| 0 <= k < q.len() implies unit_key(#[trigger] q[k]) != unit_key(last) by {
            if q[k] != x {
                assert(p.contains(q[k]));
                let m = choose|m: int| 0 <= m < p.len() && p[m] == q[k];
                assert(s[m] == p[m]);
            }
        }
        assert forall|i: int, j: int| 0 <= i < j < r.len() implies unit_key(#[trigger] r[i]) != unit_key(
            #[trigger] r[j],
        ) by {
            assert(r[i] == q[i]);
            if j < q.len() {
                assert(r[j] == q[j]);
            }
        }
        assert forall|k: int| 0 <= k < r.len() implies #[trigger] r[k] == x || s.contains(r[k]) by {
            if k < q.len() {
                assert(r[k] == q[k]);
                if q[k] != x {
                    let m = choose|m: int| 0 <= m < p.len() && p[m] == q[k];
                    assert(s[m] == q[k]);
                }
            } else {
                assert(s[s.len() - 1] == last);
            }
        }
    }
}

proof fn lemma_sort_units_keys(s: Seq<UnitModel>)
    requires
        keys_distinct(s),
    ensures
        keys_distinct(sort_units(s)),
        forall|k: int| 0 <= k < sort_units(s).len() ==> s.contains(#[trigger] sort_units(s)[k]),
    decreases s.len(),
{
    if s.len() > 0 {
        let p = s.drop_last();
        assert forall|i: int, j: int| 0 <= i < j < p.len() implies unit_key(#[trigger] p[i]) != unit_key(
            #[trigger] p[j],
        ) by {
            assert(p[i] == s[i] && p[j] == s[j]);
        }
        lemma_sort_units_keys(p);
        let t = sort_units(p);
        let x = s.last();
        assert forall|m: int| 0 <= m < t.len() implies unit_key(#[trigger] t[m]) != unit_key(x) by {
            assert(p.contains(t[m]));
            let a = choose|a: int| 0 <= a < p.len() && p[a] == t[m];
            assert(s[a] == p[a]);
        }
        lemma_insert_unit_keys(t, x);
        assert forall|k: int| 0 <= k < sort_units(s).len() implies s.contains(#[trigger] sort_units(s)[k]) by {
            let v = sort_units(s)[k];
            if v == x {
                assert(s[s.len() - 1] == x);
            } else {
                assert(t.contains(v));
                let a = choose|a: int| 0 <= a < t.len() && t[a] == v;
                assert(p.contains(t[a]));
                let b = choose|b: int| 0 <= b < p.len() && p[b] == t[a];
                assert(s[b] == p[b]);
            }
        }
    }
}

proof fn lemma_positive_keys(s: Seq<UnitModel>, n: int)
    requires
        keys_distinct(s),
        0 <= n <= s.len(),
    ensures
        keys_distinct(positive_upto(s, n)),
        forall|k: int|
            0 <= k < positive_upto(s, n).len() ==> exists|m: int|
                0 <= m < n && s[m] == #[trigger] positive_upto(s, n)[k],
    decreases n,
{
    if n > 0 {
        lemma_positive_keys(s, n - 1);
        let p = positive_upto(s, n - 1);
        if s[n - 1].total_unit.is_positive() {
            let r = p.push(s[n - 1]);
            assert forall|k: int| 0 <= k < p.len() implies unit_key(#[trigger] p[k]) != unit_key(s[n - 1]) by {
                let m = choose|m: int| 0 <= m < n - 1 && s[m] == p[k];
                assert(unit_key(s[m]) != unit_key(s[n - 1]));
            }
            assert forall|i: int, j: int| 0 <= i < j < r.len() implies unit_key(#[trigger] r[i]) != unit_key(
                #[trigger] r[j],
            ) by {
                assert(r[i] == p[i]);
                if j < p.len() {
                    assert(r[j] == p[j]);
                }
            }
            assert forall|k: int| 0 <= k < r.len() implies exists|m: int|
                0 <= m < n && s[m] == #[trigger] r[k] by {
                if k < p.len() {
                    assert(r[k] == p[k]);
                    let m = choose|m: int| 0 <= m < n - 1 && s[m] == p[k];
                    assert(s[m] == r[k]);
                } else {
                    assert(s[n - 1] == r[k]);
                }
            }
        }
    }
}

/// No two holdings of a report (see `stock_units`) share a person's name, an
/// account name and a ticker.
pub proof fn law_stock_report_keys_distinct(gs: Seq<StockAmount>, l: Lookup)
    ensures
        ({
            let s = sort_units(reports_upto(gs, l, gs.len() as int));
            keys_distinct(positive_upto(s, s.len() as int))
        }),
{
    let n = gs.len() as int;
    lemma_report_keys(gs, l, n);
    let keys = report_keys_upto(gs, l, n);
    let reps = reports_upto(gs, l, n);
    assert forall|i: int, j: int| 0 <= i < j < reps.len() implies unit_key(#[trigger] reps[i]) != unit_key(
        #[trigger] reps[j],
    ) by {
        assert(unit_key(reps[i]) == keys[i]);
        assert(unit_key(reps[j]) == keys[j]);
    }
    lemma_sort_units_keys(reps);
    let s = sort_units(reps);
    lemma_positive_keys(s, s.len() as int);
}

} // verus!
