//! Listings of ledger entries: the entries of a transaction, of an account,
//! and the trades of a ticker.

use vstd::prelude::*;
use crate::account_kind::AccountKindQuery;
use crate::date::LocalDateTime;
use crate::decimal::{
    dec_int, is_normal, law_add_associative, lemma_rep_mul_abs, law_add_commutative, law_add_zero, lemma_add_scale, lemma_normalize, is_decimal, is_decimal_opt, parse_required, parsed, parsed_decimal, parsed_or_zero, in_range, in_range_opt, is_within_range, is_within_range_opt, parses, parses_opt, DecValue, Decimal,
};

verus! {

/// An optional decimal string, read; it must parse where it is there.
fn parse_optional(s: &Option<String>) -> (r: Option<Decimal>)
    requires
        parses_opt(*s),
    ensures
        r is Some <==> s is Some,
        r matches Some(d) ==> d@ == parsed(s.unwrap()@) && d.rep() == parsed_decimal(s.unwrap()@).unwrap(),
{
    match s {
        Some(x) => match parse_required(x) {
            Ok(d) => Some(d),
            Err(_) => None,
        },
        None => None,
    }
}

/// The values of an optional decimal.
pub open spec fn opt_value(d: Option<Decimal>) -> Option<DecValue> {
    match d {
        Some(x) => Some(x@),
        None => None,
    }
}

/// The value of an optional decimal string, where it is there.
pub open spec fn opt_parsed(s: Option<String>) -> Option<DecValue> {
    match s {
        Some(x) => Some(parsed(x@)),
        None => None,
    }
}

/// An entry of a transaction as the ledger stores it.
pub struct GetTransactionRow {
    pub item_id: i64,
    pub date: LocalDateTime,
    pub account_key: String,
    pub account_kind: String,
    pub forex_rate: Option<String>,
    pub unit: String,
    pub debit: Option<String>,
    pub credit: Option<String>,
    pub description: String,
}

/// An entry of a transaction, with its balance in the home currency.
pub struct GetTransaction {
    pub item_id: i64,
    pub date: LocalDateTime,
    pub account_key: String,
    pub account_kind: String,
    pub forex_rate: Option<Decimal>,
    pub unit: Decimal,
    pub debit: Option<Decimal>,
    pub credit: Option<Decimal>,
    pub balance: Decimal,
    pub description: String,
}

/// Every decimal string of the entry parses.
pub open spec fn get_transaction_row_parses(r: GetTransactionRow) -> bool {
    parses(r.unit@) && parses_opt(r.forex_rate) && parses_opt(r.debit) && parses_opt(r.credit)
}

/// Every decimal string of the entry lies within the ledger's bounds
/// (`in_range`), which keeps the balance's scales within `i64`.
pub open spec fn get_transaction_row_in_range(r: GetTransactionRow) -> bool {
    in_range(r.unit@) && in_range_opt(r.forex_rate) && in_range_opt(r.debit) && in_range_opt(r.credit)
}

/// `forex_rate * unit * (debit - credit)` rounded to cents; an absent rate
/// is one, an absent debit or credit zero.
pub open spec fn entry_balance(r: GetTransactionRow) -> DecValue {
    let fx = match r.forex_rate {
        Some(f) => parsed(f@),
        None => dec_int(1),
    };
    fx.mul(parsed(r.unit@)).mul(parsed_or_zero(r.debit).sub(parsed_or_zero(r.credit))).round2()
}

/// `e` is the entry that row `r` stores.
pub open spec fn is_transaction_of(e: GetTransaction, r: GetTransactionRow) -> bool {
    &&& e.item_id == r.item_id
    &&& e.date == r.date
    &&& e.account_key@ == r.account_key@
    &&& e.account_kind@ == r.account_kind@
    &&& opt_value(e.forex_rate) == opt_parsed(r.forex_rate)
    &&& e.unit@ == parsed(r.unit@)
    &&& opt_value(e.debit) == opt_parsed(r.debit)
    &&& opt_value(e.credit) == opt_parsed(r.credit)
    &&& e.balance@ == entry_balance(r)
    &&& e.description@ == r.description@
}

/// The entry that a row stores, with its balance.
fn transaction_of(row: &GetTransactionRow) -> (r: GetTransaction)
    requires
        get_transaction_row_parses(*row),
        get_transaction_row_in_range(*row),
    ensures
        is_transaction_of(r, *row),
        r.balance.scale == 2,
{
    let forex_rate = parse_optional(&row.forex_rate);
    let unit = match parse_required(&row.unit) {
        Ok(d) => d,
        Err(_) => Decimal::zero(),
    };
    let debit = parse_optional(&row.debit);
    let credit = parse_optional(&row.credit);
    let fx = match &forex_rate {
        Some(f) => f.copy(),
        None => Decimal::from_i64(1),
    };
    let d = match &debit {
        Some(x) => x.copy(),
        None => Decimal::zero(),
    };
    let c = match &credit {
        Some(x) => x.copy(),
        None => Decimal::zero(),
    };
    let fx_unit = fx.mul(&unit);
    let net = d.sub(&c);
    proof {
        lemma_rep_mul_abs(fx.rep(), unit.rep());
    }
    let balance = fx_unit.mul(&net);
    proof {
        lemma_rep_mul_abs(fx_unit.rep(), net.rep());
    }
    let balance = balance.round2();
    GetTransaction {
        item_id: row.item_id,
        date: row.date,
        account_key: row.account_key.clone(),
        account_kind: row.account_kind.clone(),
        forex_rate,
        unit,
        debit,
        credit,
        balance,
        description: row.description.clone(),
    }
}

/// The entries of a transaction, in ledger order, each with its balance.
pub fn get_transaction_entries(rows: &Vec<GetTransactionRow>) -> (r: Vec<GetTransaction>)
    requires
        forall|i: int| 0 <= i < rows@.len() ==> get_transaction_row_parses(#[trigger] rows@[i]),
        forall|i: int| 0 <= i < rows@.len() ==> get_transaction_row_in_range(#[trigger] rows@[i]),
    ensures
        r@.len() == rows@.len(),
        forall|i: int| 0 <= i < rows@.len() ==> is_transaction_of(#[trigger] r@[i], rows@[i]),
        forall|i: int| 0 <= i < r@.len() ==> (#[trigger] r@[i]).balance.scale == 2,
{
    let mut out: Vec<GetTransaction> = Vec::new();
    let n = rows.len();
    for i in 0..n
        invariant
            n == rows@.len(),
            forall|k: int| 0 <= k < rows@.len() ==> get_transaction_row_parses(#[trigger] rows@[k]),
            forall|k: int| 0 <= k < rows@.len() ==> get_transaction_row_in_range(#[trigger] rows@[k]),
            out@.len() == i,
            forall|k: int| 0 <= k < i ==> is_transaction_of(#[trigger] out@[k], rows@[k]),
            forall|k: int| 0 <= k < i ==> (#[trigger] out@[k]).balance.scale == 2,
    {
        assert(get_transaction_row_parses(rows@[i as int]));
        assert(get_transaction_row_in_range(rows@[i as int]));
        out.push(transaction_of(&rows[i]));
    }
    out
}

/// The entries of a transaction (see `get_transaction_entries`), or `None`
/// where a decimal string of some entry does not parse or lies beyond the
/// ledger's bounds.
pub fn try_get_transaction_entries(rows: &Vec<GetTransactionRow>) -> (r: Option<Vec<GetTransaction>>)
    ensures
        r is Some <==> forall|i: int|
            0 <= i < rows@.len() ==> get_transaction_row_parses(#[trigger] rows@[i])
                && get_transaction_row_in_range(rows@[i]),
        r matches Some(v) ==> v@.len() == rows@.len() && forall|i: int|
            0 <= i < rows@.len() ==> is_transaction_of(#[trigger] v@[i], rows@[i]),
        r matches Some(v) ==> forall|i: int| 0 <= i < v@.len() ==> (#[trigger] v@[i]).balance.scale == 2,
{
    let n = rows.len();
    for i in 0..n
        invariant
            n == rows@.len(),
            forall|k: int| 0 <= k < i ==> get_transaction_row_parses(#[trigger] rows@[k])
                && get_transaction_row_in_range(rows@[k]),
    {
        let row = &rows[i];
        if !(is_decimal(&row.unit) && is_decimal_opt(&row.forex_rate) && is_decimal_opt(&row.debit)
            && is_decimal_opt(&row.credit) && is_within_range(&row.unit) && is_within_range_opt(&row.forex_rate)
            && is_within_range_opt(&row.debit) && is_within_range_opt(&row.credit)) {
            assert(!(get_transaction_row_parses(rows@[i as int]) && get_transaction_row_in_range(rows@[i as int])));
            return None;
        }
    }
    Some(get_transaction_entries(rows))
}

/// An entry of an account as the ledger stores it, with the kind of its
/// account.
pub struct AccountEntryRow {
    pub transaction_id: i64,
    pub item_id: i64,
    pub date: LocalDateTime,
    pub unit: String,
    pub debit: Option<String>,
    pub credit: Option<String>,
    pub exchange_rate: Option<String>,
    pub description: String,
    pub account_kind_id: i64,
}

/// An entry of an account statement; the first one of a statement is the
/// opening balance, which has no transaction.
pub struct TransactionByAccountKey {
    pub transaction_id: Option<i64>,
    pub item_id: Option<i64>,
    pub date: LocalDateTime,
    pub unit: Decimal,
    pub debit: Option<Decimal>,
    pub credit: Option<Decimal>,
    pub exchange_rate: Option<Decimal>,
    pub total_amount: Decimal,
    pub description: String,
}

/// Every decimal string of the entry parses.
pub open spec fn account_entry_parses(r: AccountEntryRow) -> bool {
    parses(r.unit@) && parses_opt(r.debit) && parses_opt(r.credit) && parses_opt(r.exchange_rate)
}

/// The amounts of the entry lie within the ledger's bounds (`in_range`),
/// which keeps the scales of its total within `i64`.
pub open spec fn account_entry_in_range(r: AccountEntryRow) -> bool {
    in_range(r.unit@) && in_range_opt(r.debit) && in_range_opt(r.credit)
}

/// The amount of an entry on the side where its account keeps its balance:
/// `unit * (debit - credit)` for a debit-balance kind, else
/// `unit * (credit - debit)`; an absent debit or credit is zero.
pub open spec fn entry_total(r: AccountEntryRow, q: AccountKindQuery) -> DecValue {
    let d = parsed_or_zero(r.debit);
    let c = parsed_or_zero(r.credit);
    if r.account_kind_id == q.asset_id() || r.account_kind_id == q.expense_id() {
        parsed(r.unit@).mul(d.sub(c))
    } else {
        parsed(r.unit@).mul(c.sub(d))
    }
}

/// The sums of the debits, the credits and the amounts of the entries among
/// the first `n` dated before `start`, each added in order to zero.
pub open spec fn opening_sums(rows: Seq<AccountEntryRow>, q: AccountKindQuery, start: LocalDateTime, n: int) -> (DecValue, DecValue, DecValue)
    decreases n,
{
    if n <= 0 {
        (dec_int(0), dec_int(0), dec_int(0))
    } else {
        let prev = opening_sums(rows, q, start, n - 1);
        let r = rows[n - 1];
        if r.date.precedes(start) {
            (
                prev.0.add(parsed_or_zero(r.debit)),
                prev.1.add(parsed_or_zero(r.credit)),
                prev.2.add(entry_total(r, q)),
            )
        } else {
            prev
        }
    }
}

/// The indices of the entries among the first `n` dated on or after `start`.
pub open spec fn period_indices(rows: Seq<AccountEntryRow>, start: LocalDateTime, n: int) -> Seq<int>
    decreases n,
{
    if n <= 0 {
        Seq::empty()
    } else if rows[n - 1].date.precedes(start) {
        period_indices(rows, start, n - 1)
    } else {
        period_indices(rows, start, n - 1).push(n - 1)
    }
}

/// `e` is the statement entry of row `r`.
pub open spec fn is_statement_entry_of(e: TransactionByAccountKey, r: AccountEntryRow, q: AccountKindQuery) -> bool {
    &&& e.transaction_id == Some(r.transaction_id)
    &&& e.item_id == Some(r.item_id)
    &&& e.date == r.date
    &&& e.unit@ == parsed(r.unit@)
    &&& opt_value(e.debit) == opt_parsed(r.debit)
    &&& opt_value(e.credit) == opt_parsed(r.credit)
    &&& opt_value(e.exchange_rate) == opt_parsed(r.exchange_rate)
    &&& e.total_amount@ == entry_total(r, q)
    &&& e.description@ == r.description@
}

/// `e` is the opening balance at `start` of the first `n` rows.
pub open spec fn is_opening_of(e: TransactionByAccountKey, rows: Seq<AccountEntryRow>, q: AccountKindQuery, start: LocalDateTime, n: int) -> bool {
    let sums = opening_sums(rows, q, start, n);
    &&& e.transaction_id is None
    &&& e.item_id is None
    &&& e.date == start
    &&& e.unit@ == dec_int(1)
    &&& opt_value(e.debit) == Some(sums.0)
    &&& opt_value(e.credit) == Some(sums.1)
    &&& e.exchange_rate is None
    &&& e.total_amount@ == sums.2
    &&& e.description@ == "Open Balance"@
}

/// The statement of an account from `start` on: first the opening balance
/// (the sums of the debits, credits and amounts of the entries before
/// `start`), then each entry dated on or after `start`, in ledger order, with
/// its amount on the side where its account keeps its balance.
pub fn account_statement(rows: &Vec<AccountEntryRow>, query: &AccountKindQuery, start: LocalDateTime) -> (r: Vec<
    TransactionByAccountKey,
>)
    requires
        forall|i: int| 0 <= i < rows@.len() ==> account_entry_parses(#[trigger] rows@[i]),
        forall|i: int| 0 <= i < rows@.len() ==> account_entry_in_range(#[trigger] rows@[i]),
    ensures
        ({
            let idx = period_indices(rows@, start, rows@.len() as int);
            &&& r@.len() == idx.len() + 1
            &&& is_opening_of(r@[0], rows@, *query, start, rows@.len() as int)
            &&& forall|k: int|
                0 <= k < idx.len() ==> is_statement_entry_of(#[trigger] r@[k + 1], rows@[idx[k]], *query)
        }),
{
    let mut open_debit = Decimal::zero();
    let mut open_credit = Decimal::zero();
    let mut open_total = Decimal::zero();
    let mut period: Vec<TransactionByAccountKey> = Vec::new();
    let n = rows.len();
    for i in 0..n
        invariant
            n == rows@.len(),
            forall|k: int| 0 <= k < rows@.len() ==> account_entry_parses(#[trigger] rows@[k]),
            forall|k: int| 0 <= k < rows@.len() ==> account_entry_in_range(#[trigger] rows@[k]),
            open_debit@ == opening_sums(rows@, *query, start, i as int).0,
            open_credit@ == opening_sums(rows@, *query, start, i as int).1,
            open_total@ == opening_sums(rows@, *query, start, i as int).2,
            period@.len() == period_indices(rows@, start, i as int).len(),
            forall|k: int|
                0 <= k < period@.len() ==> is_statement_entry_of(
                    #[trigger] period@[k],
                    rows@[period_indices(rows@, start, i as int)[k]],
                    *query,
                ),
    {
        let row = &rows[i];
        assert(account_entry_parses(rows@[i as int]));
        assert(account_entry_in_range(rows@[i as int]));
        let unit = match parse_required(&row.unit) {
            Ok(d) => d,
            Err(_) => Decimal::zero(),
        };
        let debit = parse_optional(&row.debit);
        let credit = parse_optional(&row.credit);
        let exchange_rate = parse_optional(&row.exchange_rate);
        let d = match &debit {
            Some(x) => x.copy(),
            None => Decimal::zero(),
        };
        let c = match &credit {
            Some(x) => x.copy(),
            None => Decimal::zero(),
        };
        let total_amount = if query.is_using_debit_balance(row.account_kind_id) {
            let net = d.sub(&c);
            unit.mul(&net)
        } else {
            let net = c.sub(&d);
            unit.mul(&net)
        };
        assert(d@ == parsed_or_zero(row.debit));
        assert(c@ == parsed_or_zero(row.credit));
        assert(total_amount@ == entry_total(*row, *query));
        let ghost prev_idx = period_indices(rows@, start, i as int);
        if row.date.is_before(&start) {
            open_debit = open_debit.add(&d);
            open_credit = open_credit.add(&c);
            open_total = open_total.add(&total_amount);
        } else {
            period.push(
                TransactionByAccountKey {
                    transaction_id: Some(row.transaction_id),
                    item_id: Some(row.item_id),
                    date: row.date,
                    unit,
                    debit,
                    credit,
                    exchange_rate,
                    total_amount,
                    description: row.description.clone(),
                },
            );
            proof {
                assert(period_indices(rows@, start, i + 1) == prev_idx.push(i as int));
                assert forall|k: int|
                    0 <= k < period@.len() implies is_statement_entry_of(
                        #[trigger] period@[k],
                        rows@[period_indices(rows@, start, i + 1)[k]],
                        *query,
                    ) by {
                    if k < prev_idx.len() {
                        assert(period_indices(rows@, start, i + 1)[k] == prev_idx[k]);
                    }
                }
            }
        }
    }
    let mut out: Vec<TransactionByAccountKey> = Vec::new();
    out.push(
        TransactionByAccountKey {
            transaction_id: None,
            item_id: None,
            date: start,
            unit: Decimal::from_i64(1),
            debit: Some(open_debit),
            credit: Some(open_credit),
            exchange_rate: None,
            total_amount: open_total,
            description: "Open Balance".to_string(),
        },
    );
    let ghost before = out@;
    let ghost p = period@;
    out.append(&mut period);
    proof {
        assert(out@ =~= before + p);
        assert forall|k: int| 0 <= k < p.len() implies #[trigger] out@[k + 1] == p[k] by {}
    }
    out
}

/// The statement of an account (see `account_statement`), or `None` where a
/// decimal string of some entry does not parse or an amount lies beyond the
/// ledger's bounds.
pub fn try_account_statement(rows: &Vec<AccountEntryRow>, query: &AccountKindQuery, start: LocalDateTime) -> (r:
    Option<Vec<TransactionByAccountKey>>)
    ensures
        r is Some <==> forall|i: int|
            0 <= i < rows@.len() ==> account_entry_parses(#[trigger] rows@[i]) && account_entry_in_range(rows@[i]),
        r matches Some(v) ==> ({
            let idx = period_indices(rows@, start, rows@.len() as int);
            &&& v@.len() == idx.len() + 1
            &&& is_opening_of(v@[0], rows@, *query, start, rows@.len() as int)
            &&& forall|k: int|
                0 <= k < idx.len() ==> is_statement_entry_of(#[trigger] v@[k + 1], rows@[idx[k]], *query)
        }),
{
    let n = rows.len();
    for i in 0..n
        invariant
            n == rows@.len(),
            forall|k: int| 0 <= k < i ==> account_entry_parses(#[trigger] rows@[k]) && account_entry_in_range(rows@[k]),
    {
        let row = &rows[i];
        if !(is_decimal(&row.unit) && is_decimal_opt(&row.debit) && is_decimal_opt(&row.credit)
            && is_decimal_opt(&row.exchange_rate) && is_within_range(&row.unit) && is_within_range_opt(&row.debit)
            && is_within_range_opt(&row.credit)) {
            assert(!(account_entry_parses(rows@[i as int]) && account_entry_in_range(rows@[i as int])));
            return None;
        }
    }
    Some(account_statement(rows, query, start))
}

/// A stock trade as the ledger stores it.
pub struct StockTransactionRow {
    pub name: String,
    pub account_type: String,
    pub ticker: String,
    pub date: LocalDateTime,
    pub unit: String,
    pub debit: Option<String>,
    pub credit: Option<String>,
}

/// A stock trade as reports show it.
pub struct StockTransaction {
    pub name: String,
    pub account_type: String,
    pub ticker: String,
    pub date: LocalDateTime,
    pub unit: Decimal,
    pub debit: Option<Decimal>,
    pub credit: Option<Decimal>,
}

/// The values of a `StockTransaction`.
pub struct StockTransactionModel {
    pub name: Seq<char>,
    pub account_type: Seq<char>,
    pub ticker: Seq<char>,
    pub date: LocalDateTime,
    pub unit: DecValue,
    pub debit: Option<DecValue>,
    pub credit: Option<DecValue>,
}

pub open spec fn stock_transaction_model(t: StockTransaction) -> StockTransactionModel {
    StockTransactionModel {
        name: t.name@,
        account_type: t.account_type@,
        ticker: t.ticker@,
        date: t.date,
        unit: t.unit@,
        debit: opt_value(t.debit),
        credit: opt_value(t.credit),
    }
}

pub open spec fn stock_transaction_models(v: Seq<StockTransaction>) -> Seq<StockTransactionModel> {
    v.map_values(|t: StockTransaction| stock_transaction_model(t))
}

/// The values that a stock trade row stores.
pub open spec fn stock_row_model(r: StockTransactionRow) -> StockTransactionModel {
    StockTransactionModel {
        name: r.name@,
        account_type: r.account_type@,
        ticker: r.ticker@,
        date: r.date,
        unit: parsed(r.unit@),
        debit: opt_parsed(r.debit),
        credit: opt_parsed(r.credit),
    }
}

pub open spec fn stock_row_parses(r: StockTransactionRow) -> bool {
    parses(r.unit@) && parses_opt(r.debit) && parses_opt(r.credit)
}

/// `x` put into `s` after every trade dated no earlier than it.
pub open spec fn insert_latest_first(s: Seq<StockTransactionModel>, x: StockTransactionModel) -> Seq<StockTransactionModel>
    decreases s.len(),
{
    if s.len() == 0 || !s.last().date.precedes(x.date) {
        s.push(x)
    } else {
        insert_latest_first(s.drop_last(), x).push(s.last())
    }
}

/// The trades latest first; trades of the same date keep their order (a
/// stable sort).
pub open spec fn sort_latest_first(s: Seq<StockTransactionModel>) -> Seq<StockTransactionModel>
    decreases s.len(),
{
    if s.len() == 0 {
        s
    } else {
        insert_latest_first(sort_latest_first(s.drop_last()), s.last())
    }
}

proof fn lemma_insert_latest_first(s: Seq<StockTransactionModel>, x: StockTransactionModel, j: int)
    requires
        0 <= j <= s.len(),
        forall|k: int| j <= k < s.len() ==> (#[trigger] s[k]).date.precedes(x.date),
        j == 0 || !s[j - 1].date.precedes(x.date),
    ensures
        insert_latest_first(s, x) == s.insert(j, x),
    decreases s.len(),
{
    if s.len() == j {
        assert(s.insert(j, x) =~= s.push(x));
    } else {
        lemma_insert_latest_first(s.drop_last(), x, j);
        assert(s.drop_last().insert(j, x).push(s.last()) =~= s.insert(j, x));
    }
}

/// The trades of a ticker, latest first (trades of the same date in ledger
/// order).
pub fn stock_transactions(rows: &Vec<StockTransactionRow>) -> (r: Vec<StockTransaction>)
    requires
        forall|i: int| 0 <= i < rows@.len() ==> stock_row_parses(#[trigger] rows@[i]),
    ensures
        stock_transaction_models(r@) == sort_latest_first(rows@.map_values(|r: StockTransactionRow| stock_row_model(r))),
{
    let ghost m = rows@.map_values(|r: StockTransactionRow| stock_row_model(r));
    let mut out: Vec<StockTransaction> = Vec::new();
    let n = rows.len();
    for i in 0..n
        invariant
            n == rows@.len(),
            m == rows@.map_values(|r: StockTransactionRow| stock_row_model(r)),
            forall|k: int| 0 <= k < rows@.len() ==> stock_row_parses(#[trigger] rows@[k]),
            stock_transaction_models(out@) == sort_latest_first(m.take(i as int)),
    {
        let row = &rows[i];
        assert(stock_row_parses(rows@[i as int]));
        let unit = match parse_required(&row.unit) {
            Ok(d) => d,
            Err(_) => Decimal::zero(),
        };
        let x = StockTransaction {
            name: row.name.clone(),
            account_type: row.account_type.clone(),
            ticker: row.ticker.clone(),
            date: row.date,
            unit,
            debit: parse_optional(&row.debit),
            credit: parse_optional(&row.credit),
        };
        assert(stock_transaction_model(x) == m[i as int]);
        let mut j: usize = out.len();
        while j > 0 && out[j - 1].date.is_before(&x.date)
            invariant
                j <= out@.len(),
                forall|k: int| j <= k < out@.len() ==> (#[trigger] out@[k]).date.precedes(x.date),
            decreases j,
        {
            j = j - 1;
        }
        let ghost before = stock_transaction_models(out@);
        proof {
            lemma_insert_latest_first(before, m[i as int], j as int);
            assert(m.take(i + 1).drop_last() =~= m.take(i as int));
            assert(m.take(i + 1).last() == m[i as int]);
        }
        out.insert(j, x);
        proof {
            assert(stock_transaction_models(out@) =~= before.insert(j as int, m[i as int]));
        }
    }
    proof {
        assert(m.take(n as int) =~= m);
    }
    out
}

/// The sum of the amounts of the first `n` entries, added in order to zero.
pub open spec fn entries_total(rows: Seq<AccountEntryRow>, q: AccountKindQuery, n: int) -> DecValue
    decreases n,
{
    if n <= 0 {
        dec_int(0)
    } else {
        entries_total(rows, q, n - 1).add(entry_total(rows[n - 1], q))
    }
}

/// The sum of the amounts of the entries among the first `n` dated on or
/// after `start`, added in order to zero.
pub open spec fn period_total(rows: Seq<AccountEntryRow>, q: AccountKindQuery, start: LocalDateTime, n: int) -> DecValue
    decreases n,
{
    if n <= 0 {
        dec_int(0)
    } else if rows[n - 1].date.precedes(start) {
        period_total(rows, q, start, n - 1)
    } else {
        period_total(rows, q, start, n - 1).add(entry_total(rows[n - 1], q))
    }
}

proof fn lemma_sums_normal(rows: Seq<AccountEntryRow>, q: AccountKindQuery, start: LocalDateTime, n: int)
    ensures
        is_normal(opening_sums(rows, q, start, n).2),
        is_normal(period_total(rows, q, start, n)),
        is_normal(entries_total(rows, q, n)),
    decreases n,
{
    if n <= 0 {
        lemma_normalize(0, 0);
    } else {
        lemma_sums_normal(rows, q, start, n - 1);
        let e = entry_total(rows[n - 1], q);
        lemma_add_scale(opening_sums(rows, q, start, n - 1).2, e);
        lemma_add_scale(period_total(rows, q, start, n - 1), e);
        lemma_add_scale(entries_total(rows, q, n - 1), e);
    }
}

/// The opening balance of a statement plus the amounts of its entries is
/// the sum of the amounts of all the entries of the account: splitting the
/// ledger at `start` loses and adds nothing.
pub proof fn law_statement_keeps_total(rows: Seq<AccountEntryRow>, q: AccountKindQuery, start: LocalDateTime, n: int)
    ensures
        opening_sums(rows, q, start, n).2.add(period_total(rows, q, start, n)) == entries_total(rows, q, n),
    decreases n,
{
    if n <= 0 {
        lemma_normalize(0, 0);
        law_add_zero(dec_int(0));
    } else {
        law_statement_keeps_total(rows, q, start, n - 1);
        lemma_sums_normal(rows, q, start, n - 1);
        let o = opening_sums(rows, q, start, n - 1).2;
        let p = period_total(rows, q, start, n - 1);
        let e = entry_total(rows[n - 1], q);
        let a = parsed(rows[n - 1].unit@);
        let d = parsed_or_zero(rows[n - 1].debit).sub(parsed_or_zero(rows[n - 1].credit));
        let c = parsed_or_zero(rows[n - 1].credit).sub(parsed_or_zero(rows[n - 1].debit));
        lemma_normalize(a.mantissa * d.mantissa, a.scale + d.scale);
        lemma_normalize(a.mantissa * c.mantissa, a.scale + c.scale);
        assert(is_normal(e));
        if rows[n - 1].date.precedes(start) {
            law_add_associative(o, e, p);
            law_add_commutative(e, p);
            law_add_associative(o, p, e);
        } else {
            law_add_associative(o, p, e);
        }
    }
}

/// The trades of a ticker (see `stock_transactions`), or `None` where a
/// decimal string of some trade does not parse.
pub fn try_stock_transactions(rows: &Vec<StockTransactionRow>) -> (r: Option<Vec<StockTransaction>>)
    ensures
        r is Some <==> forall|i: int| 0 <= i < rows@.len() ==> stock_row_parses(#[trigger] rows@[i]),
        r matches Some(v) ==> stock_transaction_models(v@) == sort_latest_first(
            rows@.map_values(|r: StockTransactionRow| stock_row_model(r)),
        ),
{
    let n = rows.len();
    for i in 0..n
        invariant
            n == rows@.len(),
            forall|k: int| 0 <= k < i ==> stock_row_parses(#[trigger] rows@[k]),
    {
        let row = &rows[i];
        if !(is_decimal(&row.unit) && is_decimal_opt(&row.debit) && is_decimal_opt(&row.credit)) {
            assert(!stock_row_parses(rows@[i as int]));
            return None;
        }
    }
    Some(stock_transactions(rows))
}

/// The trades of `s` are latest first.
pub open spec fn latest_first(s: Seq<StockTransactionModel>) -> bool {
    forall|i: int, j: int| 0 <= i < j < s.len() ==> !(#[trigger] s[i]).date.precedes((#[trigger] s[j]).date)
}

/// Every trade of `s` is dated no earlier than `t`.
pub open spec fn dated_from(s: Seq<StockTransactionModel>, t: LocalDateTime) -> bool {
    forall|k: int| 0 <= k < s.len() ==> !(#[trigger] s[k]).date.precedes(t)
}

proof fn lemma_insert_latest_first_bound(s: Seq<StockTransactionModel>, x: StockTransactionModel, t: LocalDateTime)
    requires
        dated_from(s, t),
        !x.date.precedes(t),
    ensures
        dated_from(insert_latest_first(s, x), t),
    decreases s.len(),
{
    if s.len() > 0 && s.last().date.precedes(x.date) {
        lemma_insert_latest_first_bound(s.drop_last(), x, t);
    }
}

proof fn lemma_insert_latest_first_order(s: Seq<StockTransactionModel>, x: StockTransactionModel)
    requires
        latest_first(s),
    ensures
        latest_first(insert_latest_first(s, x)),
        insert_latest_first(s, x).to_multiset() == s.to_multiset().insert(x),
    decreases s.len(),
{
    broadcast use vstd::seq_lib::group_to_multiset_ensures;

    if s.len() == 0 || !s.last().date.precedes(x.date) {
        let r = s.push(x);
        assert forall|i: int, j: int| 0 <= i < j < r.len() implies !(#[trigger] r[i]).date.precedes(
            (#[trigger] r[j]).date,
        ) by {
            if j == s.len() && i < s.len() - 1 {
                assert(!s[i].date.precedes(s[s.len() - 1].date));
            }
        }
    } else {
        let p = s.drop_last();
        lemma_insert_latest_first_order(p, x);
        let q = insert_latest_first(p, x);
        assert(dated_from(p, s.last().date)) by {
            assert forall|k: int| 0 <= k < p.len() implies !(#[trigger] p[k]).date.precedes(s.last().date) by {
                assert(s[k] == p[k]);
            }
        }
        lemma_insert_latest_first_bound(p, x, s.last().date);
        let r = q.push(s.last());
        assert forall|i: int, j: int| 0 <= i < j < r.len() implies !(#[trigger] r[i]).date.precedes(
            (#[trigger] r[j]).date,
        ) by {
            if j < q.len() {
                assert(r[i] == q[i] && r[j] == q[j]);
            } else {
                assert(r[i] == q[i]);
            }
        }
        assert(s =~= p.push(s.last()));
        assert(r.to_multiset() =~= p.to_multiset().insert(x).insert(s.last()));
        assert(s.to_multiset() =~= p.to_multiset().insert(s.last()));
    }
}

/// The listing of a ticker's trades holds the same trades, latest first.
pub proof fn law_sort_latest_first(s: Seq<StockTransactionModel>)
    ensures
        latest_first(sort_latest_first(s)),
        sort_latest_first(s).to_multiset() == s.to_multiset(),
    decreases s.len(),
{
    broadcast use vstd::seq_lib::group_to_multiset_ensures;

    if s.len() > 0 {
        law_sort_latest_first(s.drop_last());
        lemma_insert_latest_first_order(sort_latest_first(s.drop_last()), s.last());
        assert(s =~= s.drop_last().push(s.last()));
    }
}

/// The amount of a statement entry: an asset or expense account keeps a
/// debit balance, `unit * (debit - credit)`; every other kind (liabilities,
/// equity, revenue) keeps a credit balance, `unit * (credit - debit)`; an
/// absent debit or credit is zero.
pub proof fn law_statement_entry_side(r: AccountEntryRow, q: AccountKindQuery)
    ensures
        (r.account_kind_id == q.asset_id() || r.account_kind_id == q.expense_id()) ==> entry_total(r, q)
            == parsed(r.unit@).mul(parsed_or_zero(r.debit).sub(parsed_or_zero(r.credit))),
        !(r.account_kind_id == q.asset_id() || r.account_kind_id == q.expense_id()) ==> entry_total(r, q)
            == parsed(r.unit@).mul(parsed_or_zero(r.credit).sub(parsed_or_zero(r.debit))),
{
}

} // verus!
