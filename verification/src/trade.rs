//! Stock trades: the units each person holds of each security over time, the
//! adjusted cost base (ACB) of a holding, and its yearly gain/loss breakdown.

use vstd::prelude::*;
use std::collections::BTreeSet;
use crate::date::LocalDateTime;
use crate::decimal::{
    abs, dec_int, decimal_quotient, is_normal, law_add_associative, law_add_commutative, law_add_zero, lemma_add_neg_cancel, lemma_rep_add_value, lemma_rep_neg_value, law_round2, ledger_digits, ledger_scale, lemma_add_scale,
    lemma_normalize, lemma_rep_mul_abs, lemma_view_normal, num_digits, parse_required, parsed, parses,
    parses_opt, in_range, in_range_opt, rep_add, rep_in_range, rep_mul, rep_value, DecValue, Decimal, InvalidDecimal,
};
use crate::distribution::{result_scaled, DistributionRefMap, DistributionRefResult};

verus! {

broadcast use vstd::laws_cmp::group_laws_cmp;

#[derive(Clone, Copy, Debug, PartialEq, Eq, Structural)]
pub enum TradeType {
    Buy,
    Sell,
}

/// One trade, with the units of the security held once it is done.
pub struct AccUnitResult {
    pub date: LocalDateTime,
    /// how many units the trade moves
    pub unit: Decimal,
    pub forex_rate: Decimal,
    pub price: Decimal,
    /// how many units are held up to and including this trade
    pub acc_unit: Decimal,
    pub trade_type: TradeType,
}

/// A trade of a person in a security.
pub struct TradeEntry {
    pub person_id: i64,
    pub security_id: i64,
    pub result: AccUnitResult,
}

/// A stock trade as the ledger stores it: a buy has a debit, a sell a credit.
pub struct TradeRow {
    pub person_id: i64,
    pub security_id: i64,
    pub date: LocalDateTime,
    pub forex_rate: Option<String>,
    pub unit: String,
    pub debit: Option<String>,
    pub credit: Option<String>,
}

/// A trade row has exactly one of debit and credit.
pub open spec fn is_one_sided(row: TradeRow) -> bool {
    row.debit is Some != row.credit is Some
}

/// Every decimal string of the row parses.
pub open spec fn row_parses(row: TradeRow) -> bool {
    &&& parses(row.unit@)
    &&& parses_opt(row.debit)
    &&& parses_opt(row.credit)
    &&& parses_opt(row.forex_rate)
}

/// Whatever the decimal strings of the row read as lies within the ledger's
/// bounds (`in_range`).
pub open spec fn trade_row_in_range(row: TradeRow) -> bool {
    &&& in_range(row.unit@)
    &&& in_range_opt(row.debit)
    &&& in_range_opt(row.credit)
    &&& in_range_opt(row.forex_rate)
}

/// The change in units that a trade row makes: plus for a buy, minus for a
/// sell.
pub open spec fn unit_change(row: TradeRow) -> DecValue {
    if row.debit is Some {
        parsed(row.unit@)
    } else {
        parsed(row.unit@).neg()
    }
}

/// The units held after row `i`: the sum of the changes over the run of
/// consecutive rows, ending at `i`, of the same person and security.
pub open spec fn running_unit(rows: Seq<TradeRow>, i: int) -> DecValue
    decreases i,
{
    if i <= 0 || rows[i - 1].person_id != rows[i].person_id || rows[i - 1].security_id
        != rows[i].security_id {
        dec_int(0).add(unit_change(rows[i]))
    } else {
        running_unit(rows, i - 1).add(unit_change(rows[i]))
    }
}

/// `e` is the trade that row `i` of `rows` records.
pub open spec fn is_entry_of(e: TradeEntry, rows: Seq<TradeRow>, i: int) -> bool {
    let row = rows[i];
    &&& e.person_id == row.person_id
    &&& e.security_id == row.security_id
    &&& e.result.date == row.date
    &&& e.result.unit@ == parsed(row.unit@)
    &&& e.result.trade_type == (if row.debit is Some {
        TradeType::Buy
    } else {
        TradeType::Sell
    })
    &&& e.result.price@ == (if row.debit is Some {
        parsed(row.debit.unwrap()@)
    } else {
        parsed(row.credit.unwrap()@)
    })
    &&& e.result.forex_rate@ == (match row.forex_rate {
        Some(f) => parsed(f@),
        None => dec_int(1),
    })
    &&& e.result.acc_unit@ == running_unit(rows, i)
}

/// The amounts of a trade lie within the ledger's bounds: its units (scale
/// and digits), its price and rate (scale), and the units held after it
/// (scale).
pub open spec fn trade_fits(e: TradeEntry) -> bool {
    &&& rep_in_range(e.result.unit.rep())
    &&& e.result.price.small_scale()
    &&& e.result.forex_rate.small_scale()
    &&& e.result.acc_unit.small_scale()
}

/// Whether every trade's amounts lie within the ledger's bounds
/// (`trade_fits`).
pub fn trades_fit(trades: &Vec<TradeEntry>) -> (r: bool)
    ensures
        r == forall|i: int| 0 <= i < trades@.len() ==> trade_fits(#[trigger] trades@[i]),
{
    let n = trades.len();
    for i in 0..n
        invariant
            n == trades@.len(),
            forall|k: int| 0 <= k < i ==> trade_fits(#[trigger] trades@[k]),
    {
        let e = &trades[i];
        if !(e.result.unit.is_in_range() && e.result.price.has_small_scale() && e.result.forex_rate.has_small_scale()
            && e.result.acc_unit.has_small_scale()) {
            assert(!trade_fits(trades@[i as int]));
            return false;
        }
    }
    true
}

/// The trades that the ledger's stock rows record, in ledger order, each with
/// the units held once it is done (the count restarts wherever the person or
/// the security changes from one row to the next). Fails where a decimal
/// string does not parse.
pub fn trade_entries(rows: &Vec<TradeRow>) -> (r: Result<Vec<TradeEntry>, InvalidDecimal>)
    requires
        forall|i: int| 0 <= i < rows@.len() ==> is_one_sided(#[trigger] rows@[i]),
    ensures
        r is Ok <==> forall|i: int| 0 <= i < rows@.len() ==> row_parses(#[trigger] rows@[i]),
        r matches Ok(v) ==> v@.len() == rows@.len() && forall|i: int|
            0 <= i < rows@.len() ==> is_entry_of(#[trigger] v@[i], rows@, i),
        r matches Ok(v) ==> (forall|i: int| 0 <= i < rows@.len() ==> trade_row_in_range(#[trigger] rows@[i]))
            ==> forall|i: int| 0 <= i < v@.len() ==> trade_fits(#[trigger] v@[i]),
{
    let ghost all_in = forall|i: int| 0 <= i < rows@.len() ==> trade_row_in_range(#[trigger] rows@[i]);
    let mut out: Vec<TradeEntry> = Vec::new();
    let mut acc_unit = Decimal::zero();
    let n = rows.len();
    for i in 0..n
        invariant
            n == rows@.len(),
            forall|k: int| 0 <= k < rows@.len() ==> is_one_sided(#[trigger] rows@[k]),
            forall|k: int| 0 <= k < i ==> row_parses(#[trigger] rows@[k]),
            out@.len() == i,
            forall|k: int| 0 <= k < i ==> is_entry_of(#[trigger] out@[k], rows@, k),
            all_in == forall|k: int| 0 <= k < rows@.len() ==> trade_row_in_range(#[trigger] rows@[k]),
            all_in ==> forall|k: int| 0 <= k < i ==> trade_fits(#[trigger] out@[k]),
            i > 0 ==> acc_unit@ == running_unit(rows@, i - 1),
            all_in ==> acc_unit.small_scale(),
    {
        let row = &rows[i];
        let unit = match parse_required(&row.unit) {
            Ok(d) => d,
            Err(e) => {
                return Err(e);
            },
        };
        let (trade_type, price, change) = match &row.debit {
            Some(debit) => match parse_required(debit) {
                Ok(d) => (TradeType::Buy, d, unit.copy()),
                Err(e) => {
                    return Err(e);
                },
            },
            None => match &row.credit {
                Some(credit) => match parse_required(credit) {
                    Ok(d) => (TradeType::Sell, d, unit.neg()),
                    Err(e) => {
                        return Err(e);
                    },
                },
                None => {
                    proof {
                        assert(is_one_sided(rows@[i as int]));
                    }
                    return Err(InvalidDecimal);
                },
            },
        };
        let forex_rate = match &row.forex_rate {
            Some(f) => match parse_required(f) {
                Ok(d) => d,
                Err(e) => {
                    return Err(e);
                },
            },
            None => Decimal::from_i64(1),
        };
        if i == 0 || rows[i - 1].person_id != row.person_id || rows[i - 1].security_id
            != row.security_id {
            acc_unit = Decimal::zero();
        }
        acc_unit = acc_unit.add(&change);
        out.push(
            TradeEntry {
                person_id: row.person_id,
                security_id: row.security_id,
                result: AccUnitResult {
                    date: row.date,
                    unit,
                    forex_rate,
                    price,
                    acc_unit: acc_unit.copy(),
                    trade_type,
                },
            },
        );
        proof {
            assert(is_entry_of(out@[i as int], rows@, i as int));
            if all_in {
                assert(trade_row_in_range(rows@[i as int]));
                assert(trade_fits(out@[i as int]));
            }
        }
    }
    Ok(out)
}

/// The trades of all persons, with the distributions of all securities.
pub struct TradeData {
    trades: Vec<TradeEntry>,
    distribution_ref_map: DistributionRefMap,
}

/// Trade `e` is one of `person_id` in `security_id` made before `at`.
pub open spec fn is_trade_before(e: TradeEntry, person_id: i64, security_id: i64, at: LocalDateTime) -> bool {
    &&& e.person_id == person_id
    &&& e.security_id == security_id
    &&& e.result.date.precedes(at)
}

/// Trade `i` is the latest of `person_id` in `security_id` before
/// `at`: none is later, and of those at the same moment it comes last.
pub open spec fn is_latest_before(
    trades: Seq<TradeEntry>,
    person_id: i64,
    security_id: i64,
    at: LocalDateTime,
    i: int,
) -> bool {
    &&& 0 <= i < trades.len()
    &&& is_trade_before(trades[i], person_id, security_id, at)
    &&& forall|j: int|
        0 <= j < trades.len() && is_trade_before(#[trigger] trades[j], person_id, security_id, at)
            ==> trades[j].result.date.precedes(trades[i].result.date) || (!trades[i].result.date.precedes(
            trades[j].result.date,
        ) && j <= i)
}

/// The units held by `person_id` of `security_id` just before `at`
/// (their representation): those after the latest earlier trade, if there is
/// one.
pub open spec fn units_before(
    trades: Seq<TradeEntry>,
    person_id: i64,
    security_id: i64,
    at: LocalDateTime,
) -> Option<(int, int)> {
    if exists|i: int| is_latest_before(trades, person_id, security_id, at, i) {
        let i = choose|i: int| is_latest_before(trades, person_id, security_id, at, i);
        Some(trades[i].result.acc_unit.rep())
    } else {
        None
    }
}

/// There is at most one latest trade.
pub proof fn lemma_latest_unique(
    trades: Seq<TradeEntry>,
    person_id: i64,
    security_id: i64,
    at: LocalDateTime,
    i: int,
    k: int,
)
    requires
        is_latest_before(trades, person_id, security_id, at, i),
        is_latest_before(trades, person_id, security_id, at, k),
    ensures
        i == k,
{
    assert(is_trade_before(trades[k], person_id, security_id, at));
    assert(is_trade_before(trades[i], person_id, security_id, at));
}

impl TradeData {
    pub closed spec fn trades(&self) -> Seq<TradeEntry> {
        self.trades@
    }

    pub closed spec fn distributions(&self) -> DistributionRefMap {
        self.distribution_ref_map
    }

    #[verifier::type_invariant]
    spec fn inv(&self) -> bool {
        &&& self.distribution_ref_map.wf()
        &&& forall|i: int| 0 <= i < self.trades@.len() ==> trade_fits(#[trigger] self.trades@[i])
    }

    /// Trade data from the trades and the distributions of the ledger.
    pub fn new(trades: Vec<TradeEntry>, distribution_ref_map: DistributionRefMap) -> (r: Self)
        requires
            distribution_ref_map.wf(),
            forall|i: int| 0 <= i < trades@.len() ==> trade_fits(#[trigger] trades@[i]),
        ensures
            r.trades() == trades@,
            r.distributions() == distribution_ref_map,
    {
        TradeData { trades, distribution_ref_map }
    }

    /// The units that `person_id` held of `security_id` just before `date`:
    /// after the latest earlier trade (of several on that day, the last one);
    /// `None` where there is no earlier trade.
    pub fn get_acc_unit(&self, person_id: i64, security_id: i64, date: &LocalDateTime) -> (r:
        Option<Decimal>)
        ensures
            r is None <==> units_before(self.trades(), person_id, security_id, *date) is None,
            r matches Some(u) ==> u.small_scale(),
            r matches Some(u) ==> Some(u.rep()) == units_before(
                self.trades(),
                person_id,
                security_id,
                *date,
            ),
    {
        proof {
            use_type_invariant(self);
        }
        let ghost trades = self.trades@;
        let ts = *date;
        let mut best: Option<usize> = None;
        let n = self.trades.len();
        for i in 0..n
            invariant
                n == trades.len(),
                trades == self.trades@,
                ts == *date,
                best matches Some(b) ==> is_latest_before(trades.take(i as int), person_id, security_id, ts, b as int),
                best is None ==> forall|j: int| 0 <= j < i ==> !is_trade_before(#[trigger] trades[j], person_id, security_id, ts),
        {
            let e = &self.trades[i];
            let ghost prev = best;
            if e.person_id == person_id && e.security_id == security_id && e.result.date.is_before(&ts) {
                match best {
                    Some(b) => {
                        if !e.result.date.is_before(&self.trades[b].result.date) {
                            best = Some(i);
                        }
                    },
                    None => {
                        best = Some(i);
                    },
                }
            }
            proof {
                let t2 = trades.take(i + 1);
                match best {
                    Some(b) => {
                        assert forall|j: int|
                            0 <= j < t2.len() && is_trade_before(#[trigger] t2[j], person_id, security_id, ts)
                            implies t2[j].result.date.precedes(t2[b as int].result.date) || (
                            !t2[b as int].result.date.precedes(t2[j].result.date) && j <= b) by {
                            if j < i {
                                assert(t2[j] == trades.take(i as int)[j]);
                                if let Some(pb) = prev {
                                    assert(trades.take(i as int)[pb as int] == trades[pb as int]);
                                } else {
                                    assert(!is_trade_before(trades[j], person_id, security_id, ts));
                                }
                            }
                        }
                        if let Some(pb) = prev {
                            if b == pb {
                                assert(trades.take(i as int)[pb as int] == trades[pb as int]);
                            }
                        }
                        assert(is_latest_before(t2, person_id, security_id, ts, b as int));
                    },
                    None => {},
                }
            }
        }
        proof {
            assert(trades.take(n as int) == trades);
        }
        match best {
            Some(b) => {
                proof {
                    lemma_latest_unique(
                        trades,
                        person_id,
                        security_id,
                        ts,
                        b as int,
                        choose|i: int| is_latest_before(trades, person_id, security_id, ts, i),
                    );
                    assert(trade_fits(trades[b as int]));
                }
                Some(self.trades[b].result.acc_unit.copy())
            },
            None => {
                proof {
                    if exists|i: int| is_latest_before(trades, person_id, security_id, ts, i) {
                        let i = choose|i: int| is_latest_before(trades, person_id, security_id, ts, i);
                        assert(is_trade_before(trades[i], person_id, security_id, ts));
                    }
                }
                None
            },
        }
    }

    /// The securities that `person_id` holds or held.
    pub fn get_owned_securities(&self, person_id: i64) -> (r: BTreeSet<i64>)
        ensures
            forall|s: i64| #[trigger] r@.contains(s) <==> exists|i: int|
                0 <= i < self.trades().len() && (#[trigger] self.trades()[i]).person_id == person_id
                    && self.trades()[i].security_id == s,
    {
        let mut r: BTreeSet<i64> = BTreeSet::new();
        let n = self.trades.len();
        for i in 0..n
            invariant
                n == self.trades@.len(),
                forall|s: i64| #[trigger] r@.contains(s) <==> exists|k: int|
                    0 <= k < i && (#[trigger] self.trades@[k]).person_id == person_id
                        && self.trades@[k].security_id == s,
        {
            if self.trades[i].person_id == person_id {
                r.insert(self.trades[i].security_id);
            }
            proof {
                assert forall|s: i64| #[trigger] r@.contains(s) <==> exists|k: int|
                    0 <= k < i + 1 && (#[trigger] self.trades@[k]).person_id == person_id
                        && self.trades@[k].security_id == s by {
                    if r@.contains(s) && !(exists|k: int| 0 <= k < i && (#[trigger] self.trades@[k]).person_id == person_id
                        && self.trades@[k].security_id == s) {
                        assert(self.trades@[i as int].person_id == person_id);
                    }
                }
            }
        }
        r
    }
}

/// What moves the adjusted cost base of a holding.
#[derive(Clone, Copy, Debug, PartialEq, Eq, Structural)]
pub enum AcbEntryType {
    Buy,
    Sell,
    ReturnOfCapital,
    NonCashDistribution,
}

impl AcbEntryType {
    /// The label of the entry type as reports show it.
    pub fn display(&self) -> (r: String)
        ensures
            r@ == match *self {
                AcbEntryType::Buy => "Buy"@,
                AcbEntryType::Sell => "Sell"@,
                AcbEntryType::ReturnOfCapital => "Return of Capital"@,
                AcbEntryType::NonCashDistribution => "Non-cash Distribution"@,
            },
    {
        match self {
            AcbEntryType::Buy => "Buy".to_string(),
            AcbEntryType::Sell => "Sell".to_string(),
            AcbEntryType::ReturnOfCapital => "Return of Capital".to_string(),
            AcbEntryType::NonCashDistribution => "Non-cash Distribution".to_string(),
        }
    }
}

/// An event of a holding before its effect on the cost base is worked out:
/// `unit` units at `price` each.
pub struct RawAcbEntry {
    pub date: LocalDateTime,
    pub entry_type: AcbEntryType,
    pub unit: Decimal,
    pub price: Decimal,
}

/// The values of a `RawAcbEntry`, with the representations of its amounts.
pub struct RawModel {
    pub date: LocalDateTime,
    pub entry_type: AcbEntryType,
    pub unit: DecValue,
    pub price: DecValue,
    pub unit_rep: (int, int),
    pub price_rep: (int, int),
}

/// An event of a holding with its effect on the cost base.
pub struct AcbEntry {
    pub date: LocalDateTime,
    pub entry_type: AcbEntryType,
    pub unit: Decimal,
    pub price: Decimal,
    /// `unit * price`, rounded to cents
    pub amount: Decimal,
    /// the change of the cost base, rounded to cents
    pub acb_change: Decimal,
    /// the capital gain or loss the event realizes
    pub capital_gl: Decimal,
    /// the cost base after the event
    pub acb: Decimal,
}

/// The values of an `AcbEntry`.
pub struct AcbModel {
    pub date: LocalDateTime,
    pub entry_type: AcbEntryType,
    pub unit: DecValue,
    pub price: DecValue,
    pub amount: DecValue,
    pub acb_change: DecValue,
    pub capital_gl: DecValue,
    pub acb: DecValue,
}

impl RawAcbEntry {
    pub open spec fn model(self) -> RawModel {
        RawModel {
            date: self.date,
            entry_type: self.entry_type,
            unit: self.unit@,
            price: self.price@,
            unit_rep: self.unit.rep(),
            price_rep: self.price.rep(),
        }
    }

    pub fn copy(&self) -> (r: RawAcbEntry)
        ensures
            r.model() == self.model(),
    {
        RawAcbEntry {
            date: self.date,
            entry_type: self.entry_type,
            unit: self.unit.copy(),
            price: self.price.copy(),
        }
    }
}

impl AcbEntry {
    pub open spec fn model(self) -> AcbModel {
        AcbModel {
            date: self.date,
            entry_type: self.entry_type,
            unit: self.unit@,
            price: self.price@,
            amount: self.amount@,
            acb_change: self.acb_change@,
            capital_gl: self.capital_gl@,
            acb: self.acb@,
        }
    }
}

pub open spec fn raw_models(v: Seq<RawAcbEntry>) -> Seq<RawModel> {
    v.map_values(|e: RawAcbEntry| e.model())
}

pub open spec fn acb_models(v: Seq<AcbEntry>) -> Seq<AcbModel> {
    v.map_values(|e: AcbEntry| e.model())
}

/// The cost base and the units held at some point of a holding's history,
/// with the representation of the units as the running sum builds it.
pub struct AcbState {
    pub acb: DecValue,
    pub unit: DecValue,
    pub unit_rep: (int, int),
}

/// Nothing held, at no cost.
pub open spec fn acb_start() -> AcbState {
    AcbState { acb: dec_int(0), unit: dec_int(0), unit_rep: (0, 0) }
}

/// The share of the units held that a sale of `unit` units is, negated, as
/// `bigdecimal` divides the representations.
pub open spec fn sale_share(unit: (int, int), held: (int, int)) -> DecValue {
    rep_value(decimal_quotient((-unit.0, unit.1), held))
}

/// The change of the cost base, before rounding, and the capital gain or
/// loss of event `e` in state `st`. A sale takes away the share of the cost
/// base that the units sold are of the units held.
pub open spec fn acb_effect(st: AcbState, e: RawModel) -> (DecValue, DecValue) {
    let amount = e.unit.mul(e.price).round2();
    match e.entry_type {
        AcbEntryType::Buy => (amount, dec_int(0)),
        AcbEntryType::Sell => {
            let change = sale_share(e.unit_rep, st.unit_rep).mul(st.acb);
            (change, amount.add(change))
        },
        AcbEntryType::NonCashDistribution => (amount, amount),
        AcbEntryType::ReturnOfCapital => (amount.neg(), dec_int(0)),
    }
}

/// Event `e` in state `st`, with its effect.
pub open spec fn acb_entry_of(st: AcbState, e: RawModel) -> AcbModel {
    let (change, gl) = acb_effect(st, e);
    AcbModel {
        date: e.date,
        entry_type: e.entry_type,
        unit: e.unit,
        price: e.price,
        amount: e.unit.mul(e.price).round2(),
        acb_change: change.round2(),
        capital_gl: gl,
        acb: st.acb.add(change.round2()),
    }
}

/// The state after event `e`: the rounded change added to the cost base, and
/// the units bought added or the units sold taken away.
pub open spec fn acb_next(st: AcbState, e: RawModel) -> AcbState {
    let unit_change = match e.entry_type {
        AcbEntryType::Buy => e.unit,
        AcbEntryType::Sell => e.unit.neg(),
        _ => dec_int(0),
    };
    let unit_change_rep = match e.entry_type {
        AcbEntryType::Buy => e.unit_rep,
        AcbEntryType::Sell => (-e.unit_rep.0, e.unit_rep.1),
        _ => (0, 0),
    };
    AcbState {
        acb: acb_entry_of(st, e).acb,
        unit: st.unit.add(unit_change),
        unit_rep: rep_add(st.unit_rep, unit_change_rep),
    }
}

/// The state after the first `n` events.
pub open spec fn acb_state_upto(s: Seq<RawModel>, n: int) -> AcbState
    decreases n,
{
    if n <= 0 {
        acb_start()
    } else {
        acb_next(acb_state_upto(s, n - 1), s[n - 1])
    }
}

/// The events with their effects, in order.
pub open spec fn acb_history(s: Seq<RawModel>) -> Seq<AcbModel> {
    Seq::new(s.len(), |i: int| acb_entry_of(acb_state_upto(s, i), s[i]))
}

/// No sale happens while no unit is held (the share of a sale would be a
/// division by zero), nor while the units held have more digits than a
/// division can work on (`2^59`, beyond any machine's memory).
pub open spec fn acb_defined(s: Seq<RawModel>) -> bool {
    forall|i: int|
        0 <= i < s.len() && (#[trigger] s[i]).entry_type == AcbEntryType::Sell ==> {
            &&& !acb_state_upto(s, i).unit.is_zero()
            &&& num_digits(abs(acb_state_upto(s, i).unit_rep.0)) <= 0x0800_0000_0000_0000
        }
}

/// The scales of an event's units and price, and the digits of the units it
/// sells, lie within the bounds that keep the cost-base arithmetic within
/// `i64` scales.
pub open spec fn event_fits(e: RawModel) -> bool {
    &&& -ledger_scale() <= e.unit_rep.1 <= ledger_scale()
    &&& -0x5000_0000_0000_0100 <= e.price_rep.1 <= 0x5000_0000_0000_0100
    &&& e.entry_type == AcbEntryType::Sell ==> num_digits(abs(e.unit_rep.0)) <= ledger_digits()
}

/// Every event fits (`event_fits`).
pub open spec fn events_fit(s: Seq<RawModel>) -> bool {
    forall|i: int| 0 <= i < s.len() ==> event_fits(#[trigger] s[i])
}

/// The amount, the change of the cost base and the cost base of an entry
/// are written in cents (at scale two), as rounding to cents leaves them.
pub open spec fn entry_in_cents(e: AcbEntry) -> bool {
    &&& e.amount.scale == 2
    &&& e.acb_change.scale == 2
    &&& e.acb.scale == 2
}

/// Works out the effect of each event of a holding on its adjusted cost base,
/// in the order given: a buy adds its amount, a sale takes away the share of
/// the cost base that its units are of the units held and realizes the
/// difference to its amount, a non-cash distribution adds its amount (and is
/// a gain), a return of capital takes its amount away.
pub fn acb_entries(raws: &Vec<RawAcbEntry>) -> (r: Vec<AcbEntry>)
    requires
        acb_defined(raw_models(raws@)),
        events_fit(raw_models(raws@)),
    ensures
        acb_models(r@) == acb_history(raw_models(raws@)),
        forall|k: int| 0 <= k < r@.len() ==> (#[trigger] r@[k]).capital_gl.scale >= 0,
        forall|k: int| 0 <= k < r@.len() ==> entry_in_cents(#[trigger] r@[k]),
{
    let ghost s = raw_models(raws@);
    let mut out: Vec<AcbEntry> = Vec::new();
    let mut acc_acb = Decimal::zero();
    let mut acc_unit = Decimal::zero();
    let n = raws.len();
    for i in 0..n
        invariant
            n == raws@.len(),
            s == raw_models(raws@),
            acb_defined(s),
            events_fit(s),
            out@.len() == i,
            forall|k: int| 0 <= k < i ==> (#[trigger] out@[k]).model() == acb_entry_of(acb_state_upto(s, k), s[k]),
            forall|k: int| 0 <= k < i ==> (#[trigger] out@[k]).capital_gl.scale >= 0,
            forall|k: int| 0 <= k < i ==> entry_in_cents(#[trigger] out@[k]),
            acc_acb@ == acb_state_upto(s, i as int).acb,
            acc_unit@ == acb_state_upto(s, i as int).unit,
            acc_unit.rep() == acb_state_upto(s, i as int).unit_rep,
            0 <= acc_acb.scale <= 2,
            -ledger_scale() <= acc_unit.scale <= ledger_scale(),
    {
        let e = &raws[i];
        let ghost st = acb_state_upto(s, i as int);
        assert(s[i as int] == e.model());
        assert(event_fits(s[i as int]));
        let product = e.unit.mul(&e.price);
        proof {
            lemma_rep_mul_abs(e.unit.rep(), e.price.rep());
        }
        let amount = product.round2();
        let (change, capital_gl) = match e.entry_type {
            AcbEntryType::Buy => (amount.copy(), Decimal::zero()),
            AcbEntryType::Sell => {
                assert(!st.unit.is_zero());
                let neg_unit = e.unit.neg();
                let share = neg_unit.div(&acc_unit);
                proof {
                    lemma_rep_mul_abs(share.rep(), acc_acb.rep());
                }
                let change = share.mul(&acc_acb);
                let gl = amount.add(&change);
                (change, gl)
            },
            AcbEntryType::NonCashDistribution => (amount.copy(), amount.copy()),
            AcbEntryType::ReturnOfCapital => (amount.neg(), Decimal::zero()),
        };
        let acb_change = change.round2();
        let cur_acb = acc_acb.add(&acb_change);
        let unit_change = match e.entry_type {
            AcbEntryType::Buy => e.unit.copy(),
            AcbEntryType::Sell => e.unit.neg(),
            _ => Decimal::zero(),
        };
        let cur_unit = acc_unit.add(&unit_change);
        out.push(
            AcbEntry {
                date: e.date,
                entry_type: e.entry_type,
                unit: e.unit.copy(),
                price: e.price.copy(),
                amount,
                acb_change,
                capital_gl,
                acb: cur_acb.copy(),
            },
        );
        acc_acb = cur_acb;
        acc_unit = cur_unit;
    }
    proof {
        assert(acb_models(out@) =~= acb_history(s));
    }
    out
}

/// Whether no sale among `raws` comes while no unit is held, nor while the
/// units held have more digits than a division can work on (`acb_defined`).
pub fn events_acb_defined(raws: &Vec<RawAcbEntry>) -> (r: bool)
    ensures
        r == acb_defined(raw_models(raws@)),
{
    let ghost s = raw_models(raws@);
    let mut acc_unit = Decimal::zero();
    let n = raws.len();
    for i in 0..n
        invariant
            n == raws@.len(),
            s == raw_models(raws@),
            acc_unit@ == acb_state_upto(s, i as int).unit,
            acc_unit.rep() == acb_state_upto(s, i as int).unit_rep,
            forall|k: int|
                0 <= k < i && (#[trigger] s[k]).entry_type == AcbEntryType::Sell ==> {
                    &&& !acb_state_upto(s, k).unit.is_zero()
                    &&& num_digits(abs(acb_state_upto(s, k).unit_rep.0)) <= 0x0800_0000_0000_0000
                },
    {
        let e = &raws[i];
        assert(s[i as int] == e.model());
        if e.entry_type == AcbEntryType::Sell && (acc_unit.is_zero() || acc_unit.digits()
            > 0x0800_0000_0000_0000) {
            return false;
        }
        let unit_change = match e.entry_type {
            AcbEntryType::Buy => e.unit.copy(),
            AcbEntryType::Sell => e.unit.neg(),
            _ => Decimal::zero(),
        };
        acc_unit = acc_unit.add(&unit_change);
    }
    true
}

/// `x` put into `s` after every element dated no later than it, as a stable
/// insertion into a date-ordered sequence does.
pub open spec fn insert_by_date(s: Seq<RawModel>, x: RawModel) -> Seq<RawModel>
    decreases s.len(),
{
    if s.len() == 0 || !x.date.precedes(s.last().date) {
        s.push(x)
    } else {
        insert_by_date(s.drop_last(), x).push(s.last())
    }
}

/// `s` ordered by date; of events on the same date the earlier one in `s`
/// comes first (a stable sort).
pub open spec fn sort_by_date(s: Seq<RawModel>) -> Seq<RawModel>
    decreases s.len(),
{
    if s.len() == 0 {
        s
    } else {
        insert_by_date(sort_by_date(s.drop_last()), s.last())
    }
}

/// Inserting `x` at `j`, where the elements from `j` on are dated later than
/// `x` and the one before `j` is not, is `insert_by_date`.
proof fn lemma_insert_by_date(s: Seq<RawModel>, x: RawModel, j: int)
    requires
        0 <= j <= s.len(),
        forall|k: int| j <= k < s.len() ==> x.date.precedes((#[trigger] s[k]).date),
        j == 0 || !x.date.precedes(s[j - 1].date),
    ensures
        insert_by_date(s, x) == s.insert(j, x),
    decreases s.len(),
{
    if s.len() == j {
        assert(s.insert(j, x) =~= s.push(x));
    } else {
        lemma_insert_by_date(s.drop_last(), x, j);
        assert(s.drop_last().insert(j, x).push(s.last()) =~= s.insert(j, x));
    }
}

/// The events ordered by date, stably.
fn sort_raw_by_date(v: &Vec<RawAcbEntry>) -> (r: Vec<RawAcbEntry>)
    ensures
        raw_models(r@) == sort_by_date(raw_models(v@)),
{
    let mut out: Vec<RawAcbEntry> = Vec::new();
    let n = v.len();
    for i in 0..n
        invariant
            n == v@.len(),
            raw_models(out@) == sort_by_date(raw_models(v@).take(i as int)),
    {
        let x = v[i].copy();
        let mut j: usize = out.len();
        while j > 0 && x.date.is_before(&out[j - 1].date)
            invariant
                j <= out@.len(),
                forall|k: int| j <= k < out@.len() ==> x.date.precedes((#[trigger] out@[k]).date),
            decreases j,
        {
            j = j - 1;
        }
        let ghost before = raw_models(out@);
        proof {
            lemma_insert_by_date(before, x.model(), j as int);
            assert(raw_models(v@).take(i + 1).drop_last() =~= raw_models(v@).take(i as int));
            assert(raw_models(v@).take(i + 1).last() == v@[i as int].model());
        }
        out.insert(j, x);
        proof {
            assert(raw_models(out@) =~= before.insert(j as int, x.model()));
        }
    }
    proof {
        assert(raw_models(v@).take(n as int) =~= raw_models(v@));
    }
    out
}

/// A trade as an event of its holding, at its price in the home currency.
pub open spec fn trade_raw(e: TradeEntry) -> RawModel {
    RawModel {
        date: e.result.date,
        entry_type: if e.result.trade_type == TradeType::Buy {
            AcbEntryType::Buy
        } else {
            AcbEntryType::Sell
        },
        unit: e.result.unit@,
        price: e.result.price@.mul(e.result.forex_rate@),
        unit_rep: e.result.unit.rep(),
        price_rep: rep_mul(e.result.price.rep(), e.result.forex_rate.rep()),
    }
}

/// The trades of `person_id` in `security_id` among the first `n`, in order.
pub open spec fn trade_raws_upto(trades: Seq<TradeEntry>, person_id: i64, security_id: i64, n: int) -> Seq<RawModel>
    decreases n,
{
    if n <= 0 {
        Seq::empty()
    } else if trades[n - 1].person_id == person_id && trades[n - 1].security_id == security_id {
        trade_raws_upto(trades, person_id, security_id, n - 1).push(trade_raw(trades[n - 1]))
    } else {
        trade_raws_upto(trades, person_id, security_id, n - 1)
    }
}

/// The events that a distribution makes in a holding, on its record date, for
/// the units held before its ex-dividend date: a return of capital where it
/// has one, then a non-cash distribution where it has one.
pub open spec fn distribution_raws(
    trades: Seq<TradeEntry>,
    person_id: i64,
    security_id: i64,
    r: DistributionRefResult,
) -> Seq<RawModel> {
    let unit_rep = match units_before(trades, person_id, security_id, r.ex_dividend_date) {
        Some(u) => u,
        None => (0, 0),
    };
    let unit = rep_value(unit_rep);
    let roc = if r.return_of_capital@.is_zero() {
        Seq::empty()
    } else {
        seq![
            RawModel {
                date: r.record_date,
                entry_type: AcbEntryType::ReturnOfCapital,
                unit,
                price: r.return_of_capital@,
                unit_rep,
                price_rep: r.return_of_capital.rep(),
            },
        ]
    };
    let non_cash = if r.total_non_cash_distribution@.is_zero() {
        Seq::empty()
    } else {
        seq![
            RawModel {
                date: r.record_date,
                entry_type: AcbEntryType::NonCashDistribution,
                unit,
                price: r.total_non_cash_distribution@,
                unit_rep,
                price_rep: r.total_non_cash_distribution.rep(),
            },
        ]
    };
    roc + non_cash
}

/// The events that the distributions of `security_id` among the first `n`
/// make in the holding, in order.
pub open spec fn distribution_raws_upto(
    trades: Seq<TradeEntry>,
    dists: Seq<(i64, DistributionRefResult)>,
    person_id: i64,
    security_id: i64,
    n: int,
) -> Seq<RawModel>
    decreases n,
{
    if n <= 0 {
        Seq::empty()
    } else if dists[n - 1].0 == security_id {
        distribution_raws_upto(trades, dists, person_id, security_id, n - 1) + distribution_raws(
            trades,
            person_id,
            security_id,
            dists[n - 1].1,
        )
    } else {
        distribution_raws_upto(trades, dists, person_id, security_id, n - 1)
    }
}

impl TradeData {
    /// The events of the holding of `person_id` in `security_id`: its trades
    /// in ledger order, then the events of the distributions of the security
    /// in order of payment date; every one of them kept, all ordered by date,
    /// stably.
    pub open spec fn acb_input(&self, person_id: i64, security_id: i64) -> Seq<RawModel> {
        sort_by_date(
            trade_raws_upto(self.trades(), person_id, security_id, self.trades().len() as int)
                + distribution_raws_upto(
                self.trades(),
                self.distributions().entries@,
                person_id,
                security_id,
                self.distributions().entries@.len() as int,
            ),
        )
    }

    fn trade_raw_entries(&self, person_id: i64, security_id: i64) -> (r: Vec<RawAcbEntry>)
        ensures
            raw_models(r@) == trade_raws_upto(self.trades(), person_id, security_id, self.trades().len() as int),
            events_fit(raw_models(r@)),
    {
        proof {
            use_type_invariant(self);
        }
        let mut out: Vec<RawAcbEntry> = Vec::new();
        let n = self.trades.len();
        for i in 0..n
            invariant
                n == self.trades@.len(),
                raw_models(out@) == trade_raws_upto(self.trades@, person_id, security_id, i as int),
                events_fit(raw_models(out@)),
                forall|k: int| 0 <= k < self.trades@.len() ==> trade_fits(#[trigger] self.trades@[k]),
        {
            let e = &self.trades[i];
            if e.person_id == person_id && e.security_id == security_id {
                let ghost before = raw_models(out@);
                proof {
                    assert(trade_fits(self.trades@[i as int]));
                    lemma_rep_mul_abs(e.result.price.rep(), e.result.forex_rate.rep());
                }
                out.push(
                    RawAcbEntry {
                        date: e.result.date,
                        entry_type: match e.result.trade_type {
                            TradeType::Buy => AcbEntryType::Buy,
                            TradeType::Sell => AcbEntryType::Sell,
                        },
                        unit: e.result.unit.copy(),
                        price: e.result.price.mul(&e.result.forex_rate),
                    },
                );
                proof {
                    assert(raw_models(out@) =~= before.push(trade_raw(self.trades@[i as int])));
                    assert(event_fits(trade_raw(self.trades@[i as int])));
                    assert forall|k: int| 0 <= k < raw_models(out@).len() implies event_fits(
                        #[trigger] raw_models(out@)[k],
                    ) by {
                        if k < before.len() {
                            assert(raw_models(out@)[k] == before[k]);
                        }
                    }
                }
            }
        }
        out
    }

    fn distribution_raw_entries(&self, person_id: i64, security_id: i64) -> (r: Vec<RawAcbEntry>)
        ensures
            raw_models(r@) == distribution_raws_upto(
                self.trades(),
                self.distributions().entries@,
                person_id,
                security_id,
                self.distributions().entries@.len() as int,
            ),
            events_fit(raw_models(r@)),
    {
        proof {
            use_type_invariant(self);
        }
        let ghost dists = self.distribution_ref_map.entries@;
        let mut out: Vec<RawAcbEntry> = Vec::new();
        let n = self.distribution_ref_map.entries.len();
        for i in 0..n
            invariant
                n == dists.len(),
                dists == self.distribution_ref_map.entries@,
                self.distribution_ref_map.wf(),
                raw_models(out@) == distribution_raws_upto(self.trades@, dists, person_id, security_id, i as int),
                events_fit(raw_models(out@)),
        {
            let (sec, r) = &self.distribution_ref_map.entries[i];
            if *sec == security_id {
                let ghost before = raw_models(out@);
                let unit = match self.get_acc_unit(person_id, security_id, &r.ex_dividend_date) {
                    Some(u) => u,
                    None => Decimal::zero(),
                };
                if !r.return_of_capital.is_zero() {
                    out.push(
                        RawAcbEntry {
                            date: r.record_date,
                            entry_type: AcbEntryType::ReturnOfCapital,
                            unit: unit.copy(),
                            price: r.return_of_capital.copy(),
                        },
                    );
                }
                if !r.total_non_cash_distribution.is_zero() {
                    out.push(
                        RawAcbEntry {
                            date: r.record_date,
                            entry_type: AcbEntryType::NonCashDistribution,
                            unit: unit.copy(),
                            price: r.total_non_cash_distribution.copy(),
                        },
                    );
                }
                proof {
                    assert(raw_models(out@) =~= before + distribution_raws(
                        self.trades@,
                        person_id,
                        security_id,
                        dists[i as int].1,
                    ));
                    assert(result_scaled(dists[i as int].1));
                    assert forall|k: int| 0 <= k < raw_models(out@).len() implies event_fits(
                        #[trigger] raw_models(out@)[k],
                    ) by {
                        if k < before.len() {
                            assert(raw_models(out@)[k] == before[k]);
                        }
                    }
                }
            }
        }
        out
    }

    fn acb_input_entries(&self, person_id: i64, security_id: i64) -> (r: Vec<RawAcbEntry>)
        ensures
            raw_models(r@) == self.acb_input(person_id, security_id),
            events_fit(raw_models(r@)),
    {
        let mut trades = self.trade_raw_entries(person_id, security_id);
        let mut dists = self.distribution_raw_entries(person_id, security_id);
        let ghost t = raw_models(trades@);
        let ghost d = raw_models(dists@);
        trades.append(&mut dists);
        proof {
            assert(raw_models(trades@) =~= t + d);
            assert forall|k: int| 0 <= k < (t + d).len() implies event_fits(#[trigger] (t + d)[k]) by {
                if k < t.len() {
                    assert((t + d)[k] == t[k]);
                } else {
                    assert((t + d)[k] == d[k - t.len()]);
                }
            }
        }
        let sorted = sort_raw_by_date(&trades);
        proof {
            lemma_sort_keeps_fit(raw_models(trades@));
        }
        sorted
    }

    /// The history of the adjusted cost base of the holding of `person_id` in
    /// `security_id` (see `acb_input` and `acb_entries`).
    pub fn get_acb(&self, person_id: i64, security_id: i64) -> (r: Vec<AcbEntry>)
        requires
            acb_defined(self.acb_input(person_id, security_id)),
        ensures
            acb_models(r@) == acb_history(self.acb_input(person_id, security_id)),
            forall|k: int| 0 <= k < r@.len() ==> (#[trigger] r@[k]).capital_gl.scale >= 0,
            forall|k: int| 0 <= k < r@.len() ==> entry_in_cents(#[trigger] r@[k]),
    {
        let entries = self.acb_input_entries(person_id, security_id);
        acb_entries(&entries)
    }

    /// The history of the cost base of the holding (see `get_acb`), or `None`
    /// where a sale comes while no unit is held (`acb_defined`).
    pub fn try_get_acb(&self, person_id: i64, security_id: i64) -> (r: Option<Vec<AcbEntry>>)
        ensures
            r is Some <==> acb_defined(self.acb_input(person_id, security_id)),
            r matches Some(v) ==> acb_models(v@) == acb_history(self.acb_input(person_id, security_id)),
            r matches Some(v) ==> forall|k: int| 0 <= k < v@.len() ==> entry_in_cents(#[trigger] v@[k]),
    {
        let entries = self.acb_input_entries(person_id, security_id);
        if events_acb_defined(&entries) {
            Some(acb_entries(&entries))
        } else {
            None
        }
    }

    /// Whether the cost base of the holding can be worked out: no sale comes
    /// while no unit is held (`acb_defined`).
    pub fn acb_is_defined(&self, person_id: i64, security_id: i64) -> (r: bool)
        ensures
            r == acb_defined(self.acb_input(person_id, security_id)),
    {
        let entries = self.acb_input_entries(person_id, security_id);
        events_acb_defined(&entries)
    }
}

/// A holding's gains, losses and distribution income, by tax category.
pub struct GlBreakDown {
    pub disposition_capital_gl: Decimal,
    pub total_cash_distribution: Decimal,
    pub total_non_cash_distribution: Decimal,
    pub return_of_capital: Decimal,
    pub distribution_capital_gain: Decimal,
    pub eligible_dividend: Decimal,
    pub non_eligible_dividend: Decimal,
    pub foreign_business_income: Decimal,
    pub foreign_non_business_income: Decimal,
    pub other_income: Decimal,
    pub foreign_business_income_tax_paid: Decimal,
    pub foreign_non_business_income_tax_paid: Decimal,
    pub foreign_distribution: Decimal,
}

/// The values of a `GlBreakDown`.
pub struct GlModel {
    pub disposition_capital_gl: DecValue,
    pub total_cash_distribution: DecValue,
    pub total_non_cash_distribution: DecValue,
    pub return_of_capital: DecValue,
    pub distribution_capital_gain: DecValue,
    pub eligible_dividend: DecValue,
    pub non_eligible_dividend: DecValue,
    pub foreign_business_income: DecValue,
    pub foreign_non_business_income: DecValue,
    pub other_income: DecValue,
    pub foreign_business_income_tax_paid: DecValue,
    pub foreign_non_business_income_tax_paid: DecValue,
    pub foreign_distribution: DecValue,
}

/// All zero.
pub open spec fn gl_zero() -> GlModel {
    GlModel {
        disposition_capital_gl: dec_int(0),
        total_cash_distribution: dec_int(0),
        total_non_cash_distribution: dec_int(0),
        return_of_capital: dec_int(0),
        distribution_capital_gain: dec_int(0),
        eligible_dividend: dec_int(0),
        non_eligible_dividend: dec_int(0),
        foreign_business_income: dec_int(0),
        foreign_non_business_income: dec_int(0),
        other_income: dec_int(0),
        foreign_business_income_tax_paid: dec_int(0),
        foreign_non_business_income_tax_paid: dec_int(0),
        foreign_distribution: dec_int(0),
    }
}

/// The sum, category by category.
pub open spec fn gl_add(a: GlModel, b: GlModel) -> GlModel {
    GlModel {
        disposition_capital_gl: a.disposition_capital_gl.add(b.disposition_capital_gl),
        total_cash_distribution: a.total_cash_distribution.add(b.total_cash_distribution),
        total_non_cash_distribution: a.total_non_cash_distribution.add(b.total_non_cash_distribution),
        return_of_capital: a.return_of_capital.add(b.return_of_capital),
        distribution_capital_gain: a.distribution_capital_gain.add(b.distribution_capital_gain),
        eligible_dividend: a.eligible_dividend.add(b.eligible_dividend),
        non_eligible_dividend: a.non_eligible_dividend.add(b.non_eligible_dividend),
        foreign_business_income: a.foreign_business_income.add(b.foreign_business_income),
        foreign_non_business_income: a.foreign_non_business_income.add(b.foreign_non_business_income),
        other_income: a.other_income.add(b.other_income),
        foreign_business_income_tax_paid: a.foreign_business_income_tax_paid.add(b.foreign_business_income_tax_paid),
        foreign_non_business_income_tax_paid: a.foreign_non_business_income_tax_paid.add(b.foreign_non_business_income_tax_paid),
        foreign_distribution: a.foreign_distribution.add(b.foreign_distribution),
    }
}

impl GlBreakDown {
    pub open spec fn model(self) -> GlModel {
        GlModel {
            disposition_capital_gl: self.disposition_capital_gl@,
            total_cash_distribution: self.total_cash_distribution@,
            total_non_cash_distribution: self.total_non_cash_distribution@,
            return_of_capital: self.return_of_capital@,
            distribution_capital_gain: self.distribution_capital_gain@,
            eligible_dividend: self.eligible_dividend@,
            non_eligible_dividend: self.non_eligible_dividend@,
            foreign_business_income: self.foreign_business_income@,
            foreign_non_business_income: self.foreign_non_business_income@,
            other_income: self.other_income@,
            foreign_business_income_tax_paid: self.foreign_business_income_tax_paid@,
            foreign_non_business_income_tax_paid: self.foreign_non_business_income_tax_paid@,
            foreign_distribution: self.foreign_distribution@,
        }
    }

    /// Some category is not zero.
    pub fn has_activity(&self) -> (r: bool)
        ensures
            r == !(self.model() == gl_zero()),
    {
        !self.disposition_capital_gl.is_zero()
            || !self.total_cash_distribution.is_zero()
            || !self.total_non_cash_distribution.is_zero()
            || !self.return_of_capital.is_zero()
            || !self.distribution_capital_gain.is_zero()
            || !self.eligible_dividend.is_zero()
            || !self.non_eligible_dividend.is_zero()
            || !self.foreign_business_income.is_zero()
            || !self.foreign_non_business_income.is_zero()
            || !self.other_income.is_zero()
            || !self.foreign_business_income_tax_paid.is_zero()
            || !self.foreign_non_business_income_tax_paid.is_zero()
            || !self.foreign_distribution.is_zero()
    }

    /// The sum, category by category.
    pub fn add(self, rhs: GlBreakDown) -> (r: GlBreakDown)
        ensures
            r.model() == gl_add(self.model(), rhs.model()),
            r.disposition_capital_gl.rep() == rep_add(
                self.disposition_capital_gl.rep(),
                rhs.disposition_capital_gl.rep(),
            ),
    {
        GlBreakDown {
            disposition_capital_gl: self.disposition_capital_gl.add(&rhs.disposition_capital_gl),
            total_cash_distribution: self.total_cash_distribution.add(&rhs.total_cash_distribution),
            total_non_cash_distribution: self.total_non_cash_distribution.add(&rhs.total_non_cash_distribution),
            return_of_capital: self.return_of_capital.add(&rhs.return_of_capital),
            distribution_capital_gain: self.distribution_capital_gain.add(&rhs.distribution_capital_gain),
            eligible_dividend: self.eligible_dividend.add(&rhs.eligible_dividend),
            non_eligible_dividend: self.non_eligible_dividend.add(&rhs.non_eligible_dividend),
            foreign_business_income: self.foreign_business_income.add(&rhs.foreign_business_income),
            foreign_non_business_income: self.foreign_non_business_income.add(&rhs.foreign_non_business_income),
            other_income: self.other_income.add(&rhs.other_income),
            foreign_business_income_tax_paid: self.foreign_business_income_tax_paid.add(&rhs.foreign_business_income_tax_paid),
            foreign_non_business_income_tax_paid: self.foreign_non_business_income_tax_paid.add(&rhs.foreign_non_business_income_tax_paid),
            foreign_distribution: self.foreign_distribution.add(&rhs.foreign_distribution),
        }
    }
}

impl Default for GlBreakDown {
    fn default() -> (r: GlBreakDown)
        ensures
            r.model() == gl_zero(),
    {
        GlBreakDown {
            disposition_capital_gl: Decimal::zero(),
            total_cash_distribution: Decimal::zero(),
            total_non_cash_distribution: Decimal::zero(),
            return_of_capital: Decimal::zero(),
            distribution_capital_gain: Decimal::zero(),
            eligible_dividend: Decimal::zero(),
            non_eligible_dividend: Decimal::zero(),
            foreign_business_income: Decimal::zero(),
            foreign_non_business_income: Decimal::zero(),
            other_income: Decimal::zero(),
            foreign_business_income_tax_paid: Decimal::zero(),
            foreign_non_business_income_tax_paid: Decimal::zero(),
            foreign_distribution: Decimal::zero(),
        }
    }
}

/// `date` falls in `year`, or no year is asked for.
pub open spec fn in_year(year: Option<i32>, date: LocalDateTime) -> bool {
    match year {
        Some(y) => date.year == y,
        None => true,
    }
}

/// The sum of the capital gains and losses of the sales among the first `n`
/// events of `h` that fall in `year`.
pub open spec fn sale_gl_upto(h: Seq<AcbModel>, year: Option<i32>, n: int) -> DecValue
    decreases n,
{
    if n <= 0 {
        dec_int(0)
    } else if h[n - 1].entry_type == AcbEntryType::Sell && in_year(year, h[n - 1].date) {
        sale_gl_upto(h, year, n - 1).add(h[n - 1].capital_gl)
    } else {
        sale_gl_upto(h, year, n - 1)
    }
}

/// The income that a distribution pays on the units held before its
/// ex-dividend date (none held: zero), category by category.
pub open spec fn distribution_gl(
    trades: Seq<TradeEntry>,
    person_id: i64,
    security_id: i64,
    r: DistributionRefResult,
) -> GlModel {
    let unit_rep = match units_before(trades, person_id, security_id, r.ex_dividend_date) {
        Some(u) => u,
        None => (0, 0),
    };
    gl_of_units(rep_value(unit_rep), r)
}

/// The income that distribution `r` pays on `unit` units (the taxes paid
/// abroad are not part of it).
pub open spec fn gl_of_units(unit: DecValue, r: DistributionRefResult) -> GlModel {
    GlModel {
        disposition_capital_gl: dec_int(0),
        total_cash_distribution: r.total_cash_distribution@.mul(unit),
        total_non_cash_distribution: r.total_non_cash_distribution@.mul(unit),
        return_of_capital: r.return_of_capital@.mul(unit),
        distribution_capital_gain: r.capital_gain@.mul(unit),
        eligible_dividend: r.eligible_dividend@.mul(unit),
        non_eligible_dividend: r.non_eligible_dividend@.mul(unit),
        foreign_business_income: r.foreign_business_income@.mul(unit),
        foreign_non_business_income: r.foreign_non_business_income@.mul(unit),
        other_income: r.other_income@.mul(unit),
        foreign_business_income_tax_paid: dec_int(0),
        foreign_non_business_income_tax_paid: dec_int(0),
        foreign_distribution: r.foreign_distribution@.mul(unit),
    }
}

/// No income yet, and `disposition_capital_gl` as the gain of the sales.
pub open spec fn gl_with_disposition(disposition_capital_gl: DecValue) -> GlModel {
    GlModel { disposition_capital_gl, ..gl_zero() }
}

/// `init` plus the income of the distributions of `security_id` among the
/// first `n` whose record date falls in `year`.
pub open spec fn breakdown_upto(
    trades: Seq<TradeEntry>,
    dists: Seq<(i64, DistributionRefResult)>,
    person_id: i64,
    security_id: i64,
    year: Option<i32>,
    init: GlModel,
    n: int,
) -> GlModel
    decreases n,
{
    if n <= 0 {
        init
    } else if dists[n - 1].0 == security_id && in_year(year, dists[n - 1].1.record_date) {
        gl_add(
            breakdown_upto(trades, dists, person_id, security_id, year, init, n - 1),
            distribution_gl(trades, person_id, security_id, dists[n - 1].1),
        )
    } else {
        breakdown_upto(trades, dists, person_id, security_id, year, init, n - 1)
    }
}

fn distribution_gl_exec(unit: &Decimal, r: &DistributionRefResult) -> (g: GlBreakDown)
    requires
        unit.small_scale(),
        result_scaled(*r),
    ensures
        g.model() == gl_of_units(unit@, *r),
        g.disposition_capital_gl.scale == 0,
{
    GlBreakDown {
        disposition_capital_gl: Decimal::zero(),
        total_cash_distribution: r.total_cash_distribution.mul(unit),
        total_non_cash_distribution: r.total_non_cash_distribution.mul(unit),
        return_of_capital: r.return_of_capital.mul(unit),
        distribution_capital_gain: r.capital_gain.mul(unit),
        eligible_dividend: r.eligible_dividend.mul(unit),
        non_eligible_dividend: r.non_eligible_dividend.mul(unit),
        foreign_business_income: r.foreign_business_income.mul(unit),
        foreign_non_business_income: r.foreign_non_business_income.mul(unit),
        other_income: r.other_income.mul(unit),
        foreign_business_income_tax_paid: Decimal::zero(),
        foreign_non_business_income_tax_paid: Decimal::zero(),
        foreign_distribution: r.foreign_distribution.mul(unit),
    }
}

impl TradeData {
    /// The breakdown of the holding of `person_id` in `security_id` for
    /// `year` (or all years): the capital gains and losses of its sales that
    /// year, summed and rounded to cents, and the income of the security's
    /// distributions recorded that year, each on the units held before its
    /// ex-dividend date.
    #[verifier::spinoff_prover]
    #[verifier::rlimit(50)]
    pub fn get_single_breakdown(&self, person_id: i64, security_id: i64, year: &Option<i32>) -> (r:
        GlBreakDown)
        requires
            acb_defined(self.acb_input(person_id, security_id)),
        ensures
            r.model() == breakdown_upto(
                self.trades(),
                self.distributions().entries@,
                person_id,
                security_id,
                *year,
                gl_with_disposition(
                    sale_gl_upto(
                        acb_history(self.acb_input(person_id, security_id)),
                        *year,
                        acb_history(self.acb_input(person_id, security_id)).len() as int,
                    ).round2(),
                ),
                self.distributions().entries@.len() as int,
            ),
            r.disposition_capital_gl.scale == 2,
    {
        let history = self.get_acb(person_id, security_id);
        let ghost h = acb_models(history@);
        let mut gl = Decimal::zero();
        let n = history.len();
        for i in 0..n
            invariant
                n == history@.len(),
                h == acb_models(history@),
                gl@ == sale_gl_upto(h, *year, i as int),
                gl.scale >= 0,
                forall|k: int| 0 <= k < history@.len() ==> (#[trigger] history@[k]).capital_gl.scale >= 0,
        {
            let e = &history[i];
            let in_y = match year {
                Some(y) => e.date.year == *y,
                None => true,
            };
            if e.entry_type == AcbEntryType::Sell && in_y {
                gl = gl.add(&e.capital_gl);
            }
        }
        let mut acc = GlBreakDown { disposition_capital_gl: gl.round2(), ..GlBreakDown::default() };
        let ghost init = acc.model();
        proof {
            use_type_invariant(self);
        }
        let ghost dists = self.distribution_ref_map.entries@;
        let m = self.distribution_ref_map.entries.len();
        for i in 0..m
            invariant
                m == dists.len(),
                dists == self.distribution_ref_map.entries@,
                self.distribution_ref_map.wf(),
                acc.model() == breakdown_upto(self.trades@, dists, person_id, security_id, *year, init, i as int),
                acc.disposition_capital_gl.scale == 2,
        {
            let (sec, r) = &self.distribution_ref_map.entries[i];
            let in_y = match year {
                Some(y) => r.record_date.year == *y,
                None => true,
            };
            if *sec == security_id && in_y {
                let unit = match self.get_acc_unit(person_id, security_id, &r.ex_dividend_date) {
                    Some(u) => u,
                    None => Decimal::zero(),
                };
                acc = acc.add(distribution_gl_exec(&unit, r));
            }
        }
        acc
    }

    /// The breakdown of the holding (see `get_single_breakdown`), or `None`
    /// where a sale comes while no unit is held (`acb_defined`).
    pub fn try_get_single_breakdown(&self, person_id: i64, security_id: i64, year: &Option<i32>) -> (r: Option<
        GlBreakDown,
    >)
        ensures
            r is Some <==> acb_defined(self.acb_input(person_id, security_id)),
            r matches Some(g) ==> g.model() == breakdown_upto(
                self.trades(),
                self.distributions().entries@,
                person_id,
                security_id,
                *year,
                gl_with_disposition(
                    sale_gl_upto(
                        acb_history(self.acb_input(person_id, security_id)),
                        *year,
                        acb_history(self.acb_input(person_id, security_id)).len() as int,
                    ).round2(),
                ),
                self.distributions().entries@.len() as int,
            ),
            r matches Some(g) ==> g.disposition_capital_gl.scale == 2,
    {
        if self.acb_is_defined(person_id, security_id) {
            Some(self.get_single_breakdown(person_id, security_id, year))
        } else {
            None
        }
    }
}

/// The events of `s` are in date order.
pub open spec fn dated_in_order(s: Seq<RawModel>) -> bool {
    forall|i: int, j: int| 0 <= i < j < s.len() ==> !(#[trigger] s[j]).date.precedes((#[trigger] s[i]).date)
}

/// Every event of `s` is dated no later than `t`.
pub open spec fn dated_by(s: Seq<RawModel>, t: LocalDateTime) -> bool {
    forall|k: int| 0 <= k < s.len() ==> !t.precedes((#[trigger] s[k]).date)
}

proof fn lemma_insert_by_date_bound(s: Seq<RawModel>, x: RawModel, t: LocalDateTime)
    requires
        dated_by(s, t),
        !t.precedes(x.date),
    ensures
        dated_by(insert_by_date(s, x), t),
    decreases s.len(),
{
    if s.len() > 0 && x.date.precedes(s.last().date) {
        lemma_insert_by_date_bound(s.drop_last(), x, t);
    }
}

proof fn lemma_insert_by_date_order(s: Seq<RawModel>, x: RawModel)
    requires
        dated_in_order(s),
    ensures
        dated_in_order(insert_by_date(s, x)),
        insert_by_date(s, x).to_multiset() == s.to_multiset().insert(x),
    decreases s.len(),
{
    broadcast use vstd::seq_lib::group_to_multiset_ensures;

    if s.len() == 0 || !x.date.precedes(s.last().date) {
        let r = s.push(x);
        assert forall|i: int, j: int| 0 <= i < j < r.len() implies !(#[trigger] r[j]).date.precedes(
            (#[trigger] r[i]).date,
        ) by {
            if j == s.len() && i < s.len() - 1 {
                assert(!s[s.len() - 1].date.precedes(s[i].date));
            }
        }
    } else {
        let p = s.drop_last();
        lemma_insert_by_date_order(p, x);
        let q = insert_by_date(p, x);
        assert(dated_by(p, s.last().date)) by {
            assert forall|k: int| 0 <= k < p.len() implies !s.last().date.precedes((#[trigger] p[k]).date) by {
                assert(s[k] == p[k]);
            }
        }
        lemma_insert_by_date_bound(p, x, s.last().date);
        let r = q.push(s.last());
        assert forall|i: int, j: int| 0 <= i < j < r.len() implies !(#[trigger] r[j]).date.precedes(
            (#[trigger] r[i]).date,
        ) by {
            if j < q.len() {
                assert(r[i] == q[i] && r[j] == q[j]);
            } else {
                assert(r[i] == q[i]);
            }
        }
        assert(s =~= p.push(s.last()));
        assert(r.to_multiset() =~= p.to_multiset().insert(x).insert(s.last()));
        assert(s.to_multiset() =~= p.to_multiset().insert(s.last()));
    }
}

/// Ordering by date yields the same events, in date order.
pub proof fn law_sort_by_date(s: Seq<RawModel>)
    ensures
        dated_in_order(sort_by_date(s)),
        sort_by_date(s).to_multiset() == s.to_multiset(),
    decreases s.len(),
{
    broadcast use vstd::seq_lib::group_to_multiset_ensures;

    if s.len() > 0 {
        law_sort_by_date(s.drop_last());
        lemma_insert_by_date_order(sort_by_date(s.drop_last()), s.last());
        assert(s =~= s.drop_last().push(s.last()));
    }
}

/// Ordering by date keeps every event's bounds.
proof fn lemma_sort_keeps_fit(s: Seq<RawModel>)
    requires
        events_fit(s),
    ensures
        events_fit(sort_by_date(s)),
{
    broadcast use vstd::seq_lib::group_to_multiset_ensures;

    law_sort_by_date(s);
    let t = sort_by_date(s);
    assert forall|k: int| 0 <= k < t.len() implies event_fits(#[trigger] t[k]) by {
        assert(t.contains(t[k]));
        assert(t.to_multiset().count(t[k]) > 0);
        assert(s.contains(t[k]));
        let j = choose|j: int| 0 <= j < s.len() && s[j] == t[k];
        assert(event_fits(s[j]));
    }
}

/// The events of a holding (see `acb_input`) come in date order.
pub proof fn law_acb_input_in_date_order(data: TradeData, person_id: i64, security_id: i64)
    ensures
        dated_in_order(data.acb_input(person_id, security_id)),
{
    law_acb_input_keeps_every_event(data, person_id, security_id);
}

/// The events of a holding are all its trades and all the events of its
/// security's distributions, each once, none dropped and none added.
pub proof fn law_acb_input_keeps_every_event(data: TradeData, person_id: i64, security_id: i64)
    ensures
        ({
            let all = trade_raws_upto(data.trades(), person_id, security_id, data.trades().len() as int)
                + distribution_raws_upto(
                data.trades(),
                data.distributions().entries@,
                person_id,
                security_id,
                data.distributions().entries@.len() as int,
            );
            &&& data.acb_input(person_id, security_id).to_multiset() == all.to_multiset()
            &&& data.acb_input(person_id, security_id).len() == all.len()
            &&& dated_in_order(data.acb_input(person_id, security_id))
        }),
{
    broadcast use vstd::seq_lib::group_to_multiset_ensures;

    let all = trade_raws_upto(data.trades(), person_id, security_id, data.trades().len() as int)
        + distribution_raws_upto(
        data.trades(),
        data.distributions().entries@,
        person_id,
        security_id,
        data.distributions().entries@.len() as int,
    );
    law_sort_by_date(all);
    let sorted = sort_by_date(all);
    assert(sorted == data.acb_input(person_id, security_id));
    assert(sorted.to_multiset().len() == sorted.len());
    assert(all.to_multiset().len() == all.len());
}

/// Each event of the history takes the date, kind, units and price of the
/// event it comes from.
pub proof fn law_acb_history_events(s: Seq<RawModel>)
    ensures
        acb_history(s).len() == s.len(),
        forall|i: int|
            0 <= i < s.len() ==> {
                let h = #[trigger] acb_history(s)[i];
                &&& h.date == s[i].date
                &&& h.entry_type == s[i].entry_type
                &&& h.unit == s[i].unit
                &&& h.price == s[i].price
            },
{
}

/// The cost base after each event is the cost base after the event before
/// (zero before the first) plus the event's rounded change.
pub proof fn law_acb_running_total(s: Seq<RawModel>)
    ensures
        forall|i: int|
            0 <= i < s.len() ==> (#[trigger] acb_history(s)[i]).acb == (if i == 0 {
                dec_int(0)
            } else {
                acb_history(s)[i - 1].acb
            }).add(acb_history(s)[i].acb_change),
{
    assert forall|i: int| 0 <= i < s.len() implies (#[trigger] acb_history(s)[i]).acb == (if i == 0 {
        dec_int(0)
    } else {
        acb_history(s)[i - 1].acb
    }).add(acb_history(s)[i].acb_change) by {
        if i > 0 {
            assert(acb_state_upto(s, i) == acb_next(acb_state_upto(s, i - 1), s[i - 1]));
        }
    }
}

/// The history of the cost base of a holding comes in date order.
pub proof fn law_acb_history_in_date_order(data: TradeData, person_id: i64, security_id: i64)
    ensures
        ({
            let h = acb_history(data.acb_input(person_id, security_id));
            forall|i: int, j: int|
                0 <= i < j < h.len() ==> !(#[trigger] h[j]).date.precedes((#[trigger] h[i]).date)
        }),
{
    let s = data.acb_input(person_id, security_id);
    law_acb_input_in_date_order(data, person_id, security_id);
    law_acb_history_events(s);
    let h = acb_history(s);
    assert forall|i: int, j: int| 0 <= i < j < h.len() implies !(#[trigger] h[j]).date.precedes(
        (#[trigger] h[i]).date,
    ) by {
        assert(!s[j].date.precedes(s[i].date));
    }
}

/// Adding breakdowns does not depend on their order.
pub proof fn law_gl_add_commutative(a: GlModel, b: GlModel)
    ensures
        gl_add(a, b) == gl_add(b, a),
{
}

/// The all-zero breakdown adds nothing.
pub proof fn law_gl_add_zero(g: GlBreakDown)
    ensures
        gl_add(gl_zero(), g.model()) == g.model(),
        gl_add(g.model(), gl_zero()) == g.model(),
{
    lemma_view_normal(g.disposition_capital_gl);
    lemma_view_normal(g.total_cash_distribution);
    lemma_view_normal(g.total_non_cash_distribution);
    lemma_view_normal(g.return_of_capital);
    lemma_view_normal(g.distribution_capital_gain);
    lemma_view_normal(g.eligible_dividend);
    lemma_view_normal(g.non_eligible_dividend);
    lemma_view_normal(g.foreign_business_income);
    lemma_view_normal(g.foreign_non_business_income);
    lemma_view_normal(g.other_income);
    lemma_view_normal(g.foreign_business_income_tax_paid);
    lemma_view_normal(g.foreign_non_business_income_tax_paid);
    lemma_view_normal(g.foreign_distribution);
    law_add_zero(g.disposition_capital_gl@);
    law_add_zero(g.total_cash_distribution@);
    law_add_zero(g.total_non_cash_distribution@);
    law_add_zero(g.return_of_capital@);
    law_add_zero(g.distribution_capital_gain@);
    law_add_zero(g.eligible_dividend@);
    law_add_zero(g.non_eligible_dividend@);
    law_add_zero(g.foreign_business_income@);
    law_add_zero(g.foreign_non_business_income@);
    law_add_zero(g.other_income@);
    law_add_zero(g.foreign_business_income_tax_paid@);
    law_add_zero(g.foreign_non_business_income_tax_paid@);
    law_add_zero(g.foreign_distribution@);
}

proof fn lemma_acb_state_in_cents(s: Seq<RawModel>, n: int)
    ensures
        acb_state_upto(s, n).acb.scale <= 2,
    decreases n,
{
    if n <= 0 {
        lemma_normalize(0, 0);
    } else {
        lemma_acb_state_in_cents(s, n - 1);
        let st = acb_state_upto(s, n - 1);
        let change = acb_effect(st, s[n - 1]).0;
        law_round2(change);
        lemma_add_scale(st.acb, change.round2());
    }
}

/// Every amount, change of the cost base and cost base of a history is a
/// whole number of cents.
pub proof fn law_acb_in_cents(s: Seq<RawModel>)
    ensures
        forall|i: int|
            0 <= i < s.len() ==> {
                let h = #[trigger] acb_history(s)[i];
                &&& h.amount.scale <= 2
                &&& h.acb_change.scale <= 2
                &&& h.acb.scale <= 2
            },
{
    assert forall|i: int| 0 <= i < s.len() implies {
        let h = #[trigger] acb_history(s)[i];
        &&& h.amount.scale <= 2
        &&& h.acb_change.scale <= 2
        &&& h.acb.scale <= 2
    } by {
        let st = acb_state_upto(s, i);
        law_round2(s[i].unit.mul(s[i].price));
        law_round2(acb_effect(st, s[i]).0);
        lemma_acb_state_in_cents(s, i);
        lemma_add_scale(st.acb, acb_effect(st, s[i]).0.round2());
    }
}

/// Every amount of a breakdown is canonical.
pub open spec fn gl_normal(g: GlModel) -> bool {
    &&& is_normal(g.disposition_capital_gl)
    &&& is_normal(g.total_cash_distribution)
    &&& is_normal(g.total_non_cash_distribution)
    &&& is_normal(g.return_of_capital)
    &&& is_normal(g.distribution_capital_gain)
    &&& is_normal(g.eligible_dividend)
    &&& is_normal(g.non_eligible_dividend)
    &&& is_normal(g.foreign_business_income)
    &&& is_normal(g.foreign_non_business_income)
    &&& is_normal(g.other_income)
    &&& is_normal(g.foreign_business_income_tax_paid)
    &&& is_normal(g.foreign_non_business_income_tax_paid)
    &&& is_normal(g.foreign_distribution)
}

proof fn lemma_gl_add_normal(a: GlModel, b: GlModel)
    ensures
        gl_normal(gl_add(a, b)),
{
    lemma_add_scale(a.disposition_capital_gl, b.disposition_capital_gl);
    lemma_add_scale(a.total_cash_distribution, b.total_cash_distribution);
    lemma_add_scale(a.total_non_cash_distribution, b.total_non_cash_distribution);
    lemma_add_scale(a.return_of_capital, b.return_of_capital);
    lemma_add_scale(a.distribution_capital_gain, b.distribution_capital_gain);
    lemma_add_scale(a.eligible_dividend, b.eligible_dividend);
    lemma_add_scale(a.non_eligible_dividend, b.non_eligible_dividend);
    lemma_add_scale(a.foreign_business_income, b.foreign_business_income);
    lemma_add_scale(a.foreign_non_business_income, b.foreign_non_business_income);
    lemma_add_scale(a.other_income, b.other_income);
    lemma_add_scale(a.foreign_business_income_tax_paid, b.foreign_business_income_tax_paid);
    lemma_add_scale(a.foreign_non_business_income_tax_paid, b.foreign_non_business_income_tax_paid);
    lemma_add_scale(a.foreign_distribution, b.foreign_distribution);
}

proof fn lemma_gl_zero_normal()
    ensures
        gl_normal(gl_zero()),
{
    lemma_normalize(0, 0);
}

proof fn lemma_gl_of_units_normal(unit: DecValue, r: DistributionRefResult)
    ensures
        gl_normal(gl_of_units(unit, r)),
{
    lemma_normalize(0, 0);
    let u = unit;
    lemma_normalize(r.total_cash_distribution@.mantissa * u.mantissa, r.total_cash_distribution@.scale + u.scale);
    lemma_normalize(r.total_non_cash_distribution@.mantissa * u.mantissa, r.total_non_cash_distribution@.scale + u.scale);
    lemma_normalize(r.return_of_capital@.mantissa * u.mantissa, r.return_of_capital@.scale + u.scale);
    lemma_normalize(r.capital_gain@.mantissa * u.mantissa, r.capital_gain@.scale + u.scale);
    lemma_normalize(r.eligible_dividend@.mantissa * u.mantissa, r.eligible_dividend@.scale + u.scale);
    lemma_normalize(r.non_eligible_dividend@.mantissa * u.mantissa, r.non_eligible_dividend@.scale + u.scale);
    lemma_normalize(r.foreign_business_income@.mantissa * u.mantissa, r.foreign_business_income@.scale + u.scale);
    lemma_normalize(r.foreign_non_business_income@.mantissa * u.mantissa, r.foreign_non_business_income@.scale + u.scale);
    lemma_normalize(r.other_income@.mantissa * u.mantissa, r.other_income@.scale + u.scale);
    lemma_normalize(r.foreign_distribution@.mantissa * u.mantissa, r.foreign_distribution@.scale + u.scale);
}

/// Adding breakdowns is associative (on canonical amounts).
pub proof fn law_gl_add_associative(a: GlModel, b: GlModel, c: GlModel)
    requires
        gl_normal(a),
        gl_normal(b),
        gl_normal(c),
    ensures
        gl_add(gl_add(a, b), c) == gl_add(a, gl_add(b, c)),
{
    law_add_associative(a.disposition_capital_gl, b.disposition_capital_gl, c.disposition_capital_gl);
    law_add_associative(a.total_cash_distribution, b.total_cash_distribution, c.total_cash_distribution);
    law_add_associative(a.total_non_cash_distribution, b.total_non_cash_distribution, c.total_non_cash_distribution);
    law_add_associative(a.return_of_capital, b.return_of_capital, c.return_of_capital);
    law_add_associative(a.distribution_capital_gain, b.distribution_capital_gain, c.distribution_capital_gain);
    law_add_associative(a.eligible_dividend, b.eligible_dividend, c.eligible_dividend);
    law_add_associative(a.non_eligible_dividend, b.non_eligible_dividend, c.non_eligible_dividend);
    law_add_associative(a.foreign_business_income, b.foreign_business_income, c.foreign_business_income);
    law_add_associative(a.foreign_non_business_income, b.foreign_non_business_income, c.foreign_non_business_income);
    law_add_associative(a.other_income, b.other_income, c.other_income);
    law_add_associative(
        a.foreign_business_income_tax_paid,
        b.foreign_business_income_tax_paid,
        c.foreign_business_income_tax_paid,
    );
    law_add_associative(
        a.foreign_non_business_income_tax_paid,
        b.foreign_non_business_income_tax_paid,
        c.foreign_non_business_income_tax_paid,
    );
    law_add_associative(a.foreign_distribution, b.foreign_distribution, c.foreign_distribution);
}

/// The distribution income of a breakdown: all but the sales' gain.
pub open spec fn income_of(g: GlModel) -> GlModel {
    GlModel { disposition_capital_gl: dec_int(0), ..g }
}

/// The income of the breakdowns of the years `ys`, summed in order.
pub open spec fn income_by_years(
    trades: Seq<TradeEntry>,
    dists: Seq<(i64, DistributionRefResult)>,
    person_id: i64,
    security_id: i64,
    ys: Seq<i32>,
    n: int,
) -> GlModel
    decreases ys.len(),
{
    if ys.len() == 0 {
        gl_zero()
    } else {
        gl_add(
            income_by_years(trades, dists, person_id, security_id, ys.drop_last(), n),
            breakdown_upto(trades, dists, person_id, security_id, Some(ys.last()), gl_zero(), n),
        )
    }
}

/// The record year of every distribution of `security_id` among the first
/// `n` is one of `ys`.
pub open spec fn years_cover(dists: Seq<(i64, DistributionRefResult)>, security_id: i64, ys: Seq<i32>, n: int) -> bool {
    forall|i: int| 0 <= i < n && dists[i].0 == security_id ==> ys.contains(#[trigger] dists[i].1.record_date.year)
}

proof fn lemma_breakdown_normal(
    trades: Seq<TradeEntry>,
    dists: Seq<(i64, DistributionRefResult)>,
    person_id: i64,
    security_id: i64,
    year: Option<i32>,
    n: int,
)
    ensures
        gl_normal(breakdown_upto(trades, dists, person_id, security_id, year, gl_zero(), n)),
    decreases n,
{
    lemma_gl_zero_normal();
    if n > 0 {
        lemma_breakdown_normal(trades, dists, person_id, security_id, year, n - 1);
        let b = breakdown_upto(trades, dists, person_id, security_id, year, gl_zero(), n - 1);
        lemma_gl_add_normal(b, distribution_gl(trades, person_id, security_id, dists[n - 1].1));
    }
}

proof fn lemma_income_by_years_normal(
    trades: Seq<TradeEntry>,
    dists: Seq<(i64, DistributionRefResult)>,
    person_id: i64,
    security_id: i64,
    ys: Seq<i32>,
    n: int,
)
    ensures
        gl_normal(income_by_years(trades, dists, person_id, security_id, ys, n)),
    decreases ys.len(),
{
    lemma_gl_zero_normal();
    if ys.len() > 0 {
        lemma_income_by_years_normal(trades, dists, person_id, security_id, ys.drop_last(), n);
        lemma_gl_add_normal(
            income_by_years(trades, dists, person_id, security_id, ys.drop_last(), n),
            breakdown_upto(trades, dists, person_id, security_id, Some(ys.last()), gl_zero(), n),
        );
    }
}

/// Adding `d` to the breakdown of year `y`, one of the distinct years `ys`,
/// adds `d` to their sum.
proof fn lemma_income_by_years_step(
    trades: Seq<TradeEntry>,
    dists: Seq<(i64, DistributionRefResult)>,
    person_id: i64,
    security_id: i64,
    ys: Seq<i32>,
    n: int,
)
    requires
        0 < n,
        ys.no_duplicates(),
        dists[n - 1].0 == security_id,
    ensures
        income_by_years(trades, dists, person_id, security_id, ys, n) == (if ys.contains(
            dists[n - 1].1.record_date.year,
        ) {
            gl_add(
                income_by_years(trades, dists, person_id, security_id, ys, n - 1),
                distribution_gl(trades, person_id, security_id, dists[n - 1].1),
            )
        } else {
            income_by_years(trades, dists, person_id, security_id, ys, n - 1)
        }),
    decreases ys.len(),
{
    let d = distribution_gl(trades, person_id, security_id, dists[n - 1].1);
    let y0 = dists[n - 1].1.record_date.year;
    if ys.len() > 0 {
        let init = ys.drop_last();
        let y = ys.last();
        assert(init.no_duplicates());
        lemma_income_by_years_step(trades, dists, person_id, security_id, init, n);
        let s_old = income_by_years(trades, dists, person_id, security_id, init, n - 1);
        let t_old = breakdown_upto(trades, dists, person_id, security_id, Some(y), gl_zero(), n - 1);
        lemma_income_by_years_normal(trades, dists, person_id, security_id, init, n - 1);
        lemma_breakdown_normal(trades, dists, person_id, security_id, Some(y), n - 1);
        lemma_gl_of_units_normal(
            rep_value(
                match units_before(trades, person_id, security_id, dists[n - 1].1.ex_dividend_date) {
                    Some(u) => u,
                    None => (0, 0),
                },
            ),
            dists[n - 1].1,
        );
        assert(ys =~= init.push(y));
        if y == y0 {
            assert(!init.contains(y0)) by {
                if init.contains(y0) {
                    let k = choose|k: int| 0 <= k < init.len() && init[k] == y0;
                    assert(ys[k] == ys[ys.len() - 1]);
                }
            }
            law_gl_add_associative(s_old, t_old, d);
        } else if init.contains(y0) {
            law_gl_add_associative(s_old, t_old, d);
            law_gl_add_commutative(t_old, d);
            law_gl_add_associative(s_old, d, t_old);
            assert(ys.contains(y0)) by {
                let k = choose|k: int| 0 <= k < init.len() && init[k] == y0;
                assert(ys[k] == y0);
            }
        } else {
            assert(!ys.contains(y0)) by {
                if ys.contains(y0) {
                    let k = choose|k: int| 0 <= k < ys.len() && ys[k] == y0;
                    if k < init.len() {
                        assert(init[k] == y0);
                    }
                }
            }
        }
    }
}

/// The income of a holding over all years is the sum of its income in each
/// year, for any list of distinct years that holds every record year of the
/// security's distributions; a year with no distribution adds nothing.
pub proof fn law_breakdown_by_year(
    trades: Seq<TradeEntry>,
    dists: Seq<(i64, DistributionRefResult)>,
    person_id: i64,
    security_id: i64,
    ys: Seq<i32>,
    n: int,
)
    requires
        0 <= n <= dists.len(),
        ys.no_duplicates(),
        years_cover(dists, security_id, ys, n),
    ensures
        breakdown_upto(trades, dists, person_id, security_id, None, gl_zero(), n) == income_by_years(
            trades,
            dists,
            person_id,
            security_id,
            ys,
            n,
        ),
    decreases n,
{
    if n == 0 {
        lemma_income_by_years_zero(trades, dists, person_id, security_id, ys);
    } else {
        assert(years_cover(dists, security_id, ys, n - 1));
        law_breakdown_by_year(trades, dists, person_id, security_id, ys, n - 1);
        if dists[n - 1].0 == security_id {
            assert(ys.contains(dists[n - 1].1.record_date.year));
            lemma_income_by_years_step(trades, dists, person_id, security_id, ys, n);
        } else {
            lemma_income_by_years_same(trades, dists, person_id, security_id, ys, n);
        }
    }
}

proof fn lemma_income_by_years_zero(
    trades: Seq<TradeEntry>,
    dists: Seq<(i64, DistributionRefResult)>,
    person_id: i64,
    security_id: i64,
    ys: Seq<i32>,
)
    ensures
        income_by_years(trades, dists, person_id, security_id, ys, 0) == gl_zero(),
    decreases ys.len(),
{
    lemma_normalize(0, 0);
    if ys.len() > 0 {
        lemma_income_by_years_zero(trades, dists, person_id, security_id, ys.drop_last());
        law_add_zero(dec_int(0));
        let z = gl_zero();
        assert(breakdown_upto(trades, dists, person_id, security_id, Some(ys.last()), z, 0) == z);
        assert(gl_add(z, z) == z);
    }
}

proof fn lemma_income_by_years_same(
    trades: Seq<TradeEntry>,
    dists: Seq<(i64, DistributionRefResult)>,
    person_id: i64,
    security_id: i64,
    ys: Seq<i32>,
    n: int,
)
    requires
        0 < n,
        dists[n - 1].0 != security_id,
    ensures
        income_by_years(trades, dists, person_id, security_id, ys, n) == income_by_years(
            trades,
            dists,
            person_id,
            security_id,
            ys,
            n - 1,
        ),
    decreases ys.len(),
{
    if ys.len() > 0 {
        lemma_income_by_years_same(trades, dists, person_id, security_id, ys.drop_last(), n);
    }
}

/// A year in which no distribution of the security is recorded has no
/// distribution income.
pub proof fn law_breakdown_of_a_quiet_year(
    trades: Seq<TradeEntry>,
    dists: Seq<(i64, DistributionRefResult)>,
    person_id: i64,
    security_id: i64,
    y: i32,
    init: GlModel,
    n: int,
)
    requires
        forall|i: int| 0 <= i < n && (#[trigger] dists[i]).0 == security_id ==> dists[i].1.record_date.year != y,
    ensures
        breakdown_upto(trades, dists, person_id, security_id, Some(y), init, n) == init,
    decreases n,
{
    if n > 0 {
        law_breakdown_of_a_quiet_year(trades, dists, person_id, security_id, y, init, n - 1);
    }
}

/// The distribution income of a breakdown does not depend on the sales' gain
/// it starts from: it is the breakdown started from zero.
pub proof fn law_breakdown_income(
    trades: Seq<TradeEntry>,
    dists: Seq<(i64, DistributionRefResult)>,
    person_id: i64,
    security_id: i64,
    year: Option<i32>,
    init: GlModel,
    n: int,
)
    requires
        income_of(init) == gl_zero(),
    ensures
        income_of(breakdown_upto(trades, dists, person_id, security_id, year, init, n)) == breakdown_upto(
            trades,
            dists,
            person_id,
            security_id,
            year,
            gl_zero(),
            n,
        ),
    decreases n,
{
    lemma_normalize(0, 0);
    if n > 0 {
        law_breakdown_income(trades, dists, person_id, security_id, year, init, n - 1);
    }
}

/// The sales' gain of a breakdown is the one it starts from: distributions
/// add no gain on disposition. With the start that `get_single_breakdown`
/// uses, it is the sum of the year's sale gains, rounded to cents.
pub proof fn law_breakdown_disposition(
    trades: Seq<TradeEntry>,
    dists: Seq<(i64, DistributionRefResult)>,
    person_id: i64,
    security_id: i64,
    year: Option<i32>,
    init: GlModel,
    n: int,
)
    requires
        is_normal(init.disposition_capital_gl),
    ensures
        breakdown_upto(trades, dists, person_id, security_id, year, init, n).disposition_capital_gl
            == init.disposition_capital_gl,
    decreases n,
{
    if n > 0 {
        law_breakdown_disposition(trades, dists, person_id, security_id, year, init, n - 1);
        law_add_zero(init.disposition_capital_gl);
    }
}

/// The units of the events of kind `t` among the first `n`, added in order
/// to zero.
pub open spec fn units_of_kind(s: Seq<RawModel>, t: AcbEntryType, n: int) -> DecValue
    decreases n,
{
    if n <= 0 {
        dec_int(0)
    } else if s[n - 1].entry_type == t {
        units_of_kind(s, t, n - 1).add(s[n - 1].unit)
    } else {
        units_of_kind(s, t, n - 1)
    }
}

/// Each event's units are canonical and its representation stands for them,
/// as for the events of `RawAcbEntry`s (`law_raw_models_consistent`).
pub open spec fn events_consistent(s: Seq<RawModel>) -> bool {
    forall|k: int| 0 <= k < s.len() ==> is_normal((#[trigger] s[k]).unit) && rep_value(s[k].unit_rep) == s[k].unit
}

/// The events of `RawAcbEntry`s are consistent.
pub proof fn law_raw_models_consistent(v: Seq<RawAcbEntry>)
    ensures
        events_consistent(raw_models(v)),
{
    assert forall|k: int| 0 <= k < raw_models(v).len() implies is_normal((#[trigger] raw_models(v)[k]).unit)
        && rep_value(raw_models(v)[k].unit_rep) == raw_models(v)[k].unit by {
        lemma_view_normal(v[k].unit);
    }
}

proof fn lemma_units_of_kind_normal(s: Seq<RawModel>, t: AcbEntryType, n: int)
    ensures
        is_normal(units_of_kind(s, t, n)),
    decreases n,
{
    lemma_normalize(0, 0);
    if n > 0 {
        lemma_units_of_kind_normal(s, t, n - 1);
        lemma_add_scale(units_of_kind(s, t, n - 1), s[n - 1].unit);
    }
}

/// The units held after the first `n` events of a holding, plus the units
/// sold among them, are the units bought among them: a return of capital or
/// a non-cash distribution leaves the units held unchanged. The
/// representation that a sale's share is divided by stands for those units.
pub proof fn law_acb_units_held(s: Seq<RawModel>, n: int)
    requires
        0 <= n <= s.len(),
        events_consistent(s),
    ensures
        acb_state_upto(s, n).unit.add(units_of_kind(s, AcbEntryType::Sell, n)) == units_of_kind(
            s,
            AcbEntryType::Buy,
            n,
        ),
        rep_value(acb_state_upto(s, n).unit_rep) == acb_state_upto(s, n).unit,
        is_normal(acb_state_upto(s, n).unit),
    decreases n,
{
    lemma_normalize(0, 0);
    if n == 0 {
        law_add_zero(dec_int(0));
    } else {
        law_acb_units_held(s, n - 1);
        let st = acb_state_upto(s, n - 1);
        let e = s[n - 1];
        assert(is_normal(e.unit) && rep_value(e.unit_rep) == e.unit);
        let u = st.unit;
        let x = e.unit;
        let sold = units_of_kind(s, AcbEntryType::Sell, n - 1);
        let bought = units_of_kind(s, AcbEntryType::Buy, n - 1);
        lemma_units_of_kind_normal(s, AcbEntryType::Sell, n - 1);
        lemma_units_of_kind_normal(s, AcbEntryType::Buy, n - 1);
        assert(acb_state_upto(s, n) == acb_next(st, e));
        match e.entry_type {
            AcbEntryType::Buy => {
                law_add_associative(u, x, sold);
                law_add_commutative(x, sold);
                law_add_associative(u, sold, x);
                lemma_add_scale(u, x);
                lemma_rep_add_value(st.unit_rep, e.unit_rep);
            },
            AcbEntryType::Sell => {
                let nx = x.neg();
                lemma_normalize(-x.mantissa, x.scale);
                lemma_add_scale(sold, x);
                law_add_associative(u, nx, sold.add(x));
                law_add_commutative(nx, sold.add(x));
                law_add_associative(sold, x, nx);
                lemma_add_neg_cancel(x);
                law_add_zero(sold);
                lemma_add_scale(u, nx);
                lemma_rep_add_value(st.unit_rep, (-e.unit_rep.0, e.unit_rep.1));
                lemma_rep_neg_value(e.unit_rep);
            },
            _ => {
                law_add_zero(u);
                lemma_rep_add_value(st.unit_rep, (0, 0));
            },
        }
    }
}

/// A buy and a return of capital realize no gain or loss; a non-cash
/// distribution's gain is its amount.
pub proof fn law_acb_gain_by_kind(s: Seq<RawModel>)
    ensures
        forall|i: int|
            0 <= i < s.len() ==> {
                let h = #[trigger] acb_history(s)[i];
                &&& (s[i].entry_type == AcbEntryType::Buy || s[i].entry_type == AcbEntryType::ReturnOfCapital)
                    ==> h.capital_gl == dec_int(0)
                &&& s[i].entry_type == AcbEntryType::NonCashDistribution ==> h.capital_gl == h.amount
            },
{
}

/// The gain on disposition of the first `n` history entries grows only by
/// sales dated in the year asked for (any year where none is), each by its
/// capital gain or loss; every other entry adds nothing.
pub proof fn law_disposition_counts_only_sales(h: Seq<AcbModel>, year: Option<i32>, n: int)
    requires
        0 < n <= h.len(),
    ensures
        ({
            let counted = h[n - 1].entry_type == AcbEntryType::Sell && (year is None || h[n - 1].date.year
                == year.unwrap());
            &&& counted ==> sale_gl_upto(h, year, n) == sale_gl_upto(h, year, n - 1).add(h[n - 1].capital_gl)
            &&& !counted ==> sale_gl_upto(h, year, n) == sale_gl_upto(h, year, n - 1)
        }),
{
}

/// Each distribution of the security recorded in the year asked for adds to
/// each income category of the breakdown its own per-unit amount times the
/// units held before its ex-dividend date (none held: zero), and nothing to
/// the gain on disposition or the taxes paid abroad; any other distribution
/// adds nothing.
pub proof fn law_breakdown_step(
    trades: Seq<TradeEntry>,
    dists: Seq<(i64, DistributionRefResult)>,
    person_id: i64,
    security_id: i64,
    year: Option<i32>,
    init: GlModel,
    n: int,
)
    requires
        0 < n,
    ensures
        ({
            let prev = breakdown_upto(trades, dists, person_id, security_id, year, init, n - 1);
            let cur = breakdown_upto(trades, dists, person_id, security_id, year, init, n);
            let r = dists[n - 1].1;
            let u = rep_value(
                match units_before(trades, person_id, security_id, r.ex_dividend_date) {
                    Some(x) => x,
                    None => (0, 0),
                },
            );
            let counted = dists[n - 1].0 == security_id && (year is None || r.record_date.year
                == year.unwrap());
            &&& counted ==> {
                &&& cur.total_cash_distribution == prev.total_cash_distribution.add(r.total_cash_distribution@.mul(u))
                &&& cur.total_non_cash_distribution == prev.total_non_cash_distribution.add(
                    r.total_non_cash_distribution@.mul(u),
                )
                &&& cur.return_of_capital == prev.return_of_capital.add(r.return_of_capital@.mul(u))
                &&& cur.distribution_capital_gain == prev.distribution_capital_gain.add(r.capital_gain@.mul(u))
                &&& cur.eligible_dividend == prev.eligible_dividend.add(r.eligible_dividend@.mul(u))
                &&& cur.non_eligible_dividend == prev.non_eligible_dividend.add(r.non_eligible_dividend@.mul(u))
                &&& cur.foreign_business_income == prev.foreign_business_income.add(
                    r.foreign_business_income@.mul(u),
                )
                &&& cur.foreign_non_business_income == prev.foreign_non_business_income.add(
                    r.foreign_non_business_income@.mul(u),
                )
                &&& cur.other_income == prev.other_income.add(r.other_income@.mul(u))
                &&& cur.foreign_distribution == prev.foreign_distribution.add(r.foreign_distribution@.mul(u))
                &&& cur.disposition_capital_gl == prev.disposition_capital_gl.add(dec_int(0))
                &&& cur.foreign_business_income_tax_paid == prev.foreign_business_income_tax_paid.add(dec_int(0))
                &&& cur.foreign_non_business_income_tax_paid == prev.foreign_non_business_income_tax_paid.add(
                    dec_int(0),
                )
            }
            &&& !counted ==> cur == prev
        }),
{
}

/// The cost base before event `i` of a history (zero before the first).
pub open spec fn acb_before(s: Seq<RawModel>, i: int) -> DecValue {
    if i == 0 {
        dec_int(0)
    } else {
        acb_history(s)[i - 1].acb
    }
}

/// The effect of event `i` on the cost base (see `law_acb_entry_effects`).
pub open spec fn entry_effect_holds(s: Seq<RawModel>, i: int) -> bool {
    let h = acb_history(s)[i];
    let before = acb_before(s, i);
    let share = rep_value(
        decimal_quotient((-s[i].unit_rep.0, s[i].unit_rep.1), acb_state_upto(s, i).unit_rep),
    );
    &&& h.amount == s[i].unit.mul(s[i].price).round2()
    &&& h.acb == before.add(h.acb_change)
    &&& (s[i].entry_type == AcbEntryType::Buy || s[i].entry_type == AcbEntryType::NonCashDistribution)
        ==> h.acb_change == h.amount
    &&& s[i].entry_type == AcbEntryType::ReturnOfCapital ==> h.acb_change == h.amount.neg().round2()
    &&& s[i].entry_type == AcbEntryType::Sell ==> {
        &&& h.acb_change == share.mul(before).round2()
        &&& h.capital_gl == h.amount.add(share.mul(before))
    }
}

#[verifier::spinoff_prover]
proof fn lemma_acb_entry_effect(s: Seq<RawModel>, i: int)
    requires
        0 <= i < s.len(),
    ensures
        entry_effect_holds(s, i),
{
    let st = acb_state_upto(s, i);
    assert(st.acb == acb_before(s, i)) by {
        if i == 0 {
        } else {
            assert(st == acb_next(acb_state_upto(s, i - 1), s[i - 1]));
        }
    }
    law_round2(s[i].unit.mul(s[i].price));
    law_round2(s[i].unit.mul(s[i].price).round2());
}

/// Each history entry's amount is its units times its price, rounded to
/// cents; its cost base is the one before it plus its change. A buy or a
/// non-cash distribution raises the cost base by its amount and a return of
/// capital lowers it by its amount; a sale lowers it by its share of the
/// units held (the units sold over the units held, as divided) times the
/// cost base before it, rounded to cents, and realizes its amount less that
/// unrounded share of the cost base.
pub proof fn law_acb_entry_effects(s: Seq<RawModel>)
    ensures
        forall|i: int| 0 <= i < s.len() ==> #[trigger] entry_effect_holds(s, i),
{
    assert forall|i: int| 0 <= i < s.len() implies #[trigger] entry_effect_holds(s, i) by {
        lemma_acb_entry_effect(s, i);
    }
}

/// The units held just before `at` are those after a trade of the person
/// in the security made strictly before `at`, with no such trade later than
/// it (of several at one moment, the last in order); where there is no such
/// trade there are none to report.
pub proof fn law_units_before_latest_trade(trades: Seq<TradeEntry>, person_id: i64, security_id: i64, at: LocalDateTime)
    ensures
        units_before(trades, person_id, security_id, at) matches Some(u) ==> exists|i: int|
            0 <= i < trades.len() && #[trigger] trades[i].person_id == person_id && trades[i].security_id == security_id
                && trades[i].result.date.precedes(at) && trades[i].result.acc_unit.rep() == u && forall|j: int|
                0 <= j < trades.len() && trades[j].person_id == person_id && trades[j].security_id == security_id
                    && (#[trigger] trades[j]).result.date.precedes(at) ==> !trades[i].result.date.precedes(
                    trades[j].result.date,
                ) && (trades[j].result.date.precedes(trades[i].result.date) || j <= i),
        units_before(trades, person_id, security_id, at) is None ==> forall|j: int|
            0 <= j < trades.len() && (#[trigger] trades[j]).person_id == person_id && trades[j].security_id
                == security_id ==> !trades[j].result.date.precedes(at),
{
    if exists|i: int| is_latest_before(trades, person_id, security_id, at, i) {
        let i = choose|i: int| is_latest_before(trades, person_id, security_id, at, i);
        assert forall|j: int|
            0 <= j < trades.len() && trades[j].person_id == person_id && trades[j].security_id == security_id
                && (#[trigger] trades[j]).result.date.precedes(at) implies !trades[i].result.date.precedes(
            trades[j].result.date,
        ) && (trades[j].result.date.precedes(trades[i].result.date) || j <= i) by {
            assert(is_trade_before(trades[j], person_id, security_id, at));
        }
    } else {
        assert forall|j: int|
            0 <= j < trades.len() && (#[trigger] trades[j]).person_id == person_id && trades[j].security_id
                == security_id implies !trades[j].result.date.precedes(at) by {
            if trades[j].result.date.precedes(at) {
                // a latest trade exists: take the latest among those before `at`
                lemma_latest_exists(trades, person_id, security_id, at, j);
            }
        }
    }
}

/// Where some trade comes before `at`, a latest one does.
proof fn lemma_latest_exists(trades: Seq<TradeEntry>, person_id: i64, security_id: i64, at: LocalDateTime, j: int)
    requires
        0 <= j < trades.len(),
        is_trade_before(trades[j], person_id, security_id, at),
    ensures
        exists|i: int| is_latest_before(trades, person_id, security_id, at, i),
    decreases trades.len(),
{
    let n = trades.len() as int;
    let t = trades.take(n - 1);
    let last = trades[n - 1];
    if exists|k: int| 0 <= k < n - 1 && is_trade_before(#[trigger] t[k], person_id, security_id, at) {
        let j2 = choose|k: int| 0 <= k < n - 1 && is_trade_before(#[trigger] t[k], person_id, security_id, at);
        lemma_latest_exists(t, person_id, security_id, at, j2);
        let i = choose|i: int| is_latest_before(t, person_id, security_id, at, i);
        assert(t[i] == trades[i]);
        if is_trade_before(last, person_id, security_id, at) && !last.result.date.precedes(trades[i].result.date) {
            assert forall|k: int|
                0 <= k < trades.len() && is_trade_before(#[trigger] trades[k], person_id, security_id, at)
                    implies trades[k].result.date.precedes(trades[n - 1].result.date) || (
                !trades[n - 1].result.date.precedes(trades[k].result.date) && k <= n - 1) by {
                if k < n - 1 {
                    assert(t[k] == trades[k]);
                }
            }
            assert(is_latest_before(trades, person_id, security_id, at, n - 1));
        } else {
            assert forall|k: int|
                0 <= k < trades.len() && is_trade_before(#[trigger] trades[k], person_id, security_id, at)
                    implies trades[k].result.date.precedes(trades[i].result.date) || (
                !trades[i].result.date.precedes(trades[k].result.date) && k <= i) by {
                if k < n - 1 {
                    assert(t[k] == trades[k]);
                }
            }
            assert(is_latest_before(trades, person_id, security_id, at, i));
        }
    } else {
        assert(j == n - 1) by {
            if j < n - 1 {
                assert(t[j] == trades[j]);
            }
        }
        assert forall|k: int|
            0 <= k < trades.len() && is_trade_before(#[trigger] trades[k], person_id, security_id, at)
                implies trades[k].result.date.precedes(trades[n - 1].result.date) || (
            !trades[n - 1].result.date.precedes(trades[k].result.date) && k <= n - 1) by {
            if k < n - 1 {
                assert(t[k] == trades[k]);
            }
        }
        assert(is_latest_before(trades, person_id, security_id, at, n - 1));
    }
}

} // verus!
