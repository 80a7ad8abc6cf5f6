//! The distributions that securities pay, per unit held, and their tax
//! breakdown.

use vstd::prelude::*;
use crate::date::LocalDateTime;
use crate::decimal::{
    abs, dec_int, decimal_quotient, lemma_digits_mul, lemma_rep_mul_abs, rep_mul, rep_value, lemma_normalize_nonzero, num_digits, rep_add, DecValue,
    Decimal,
};

verus! {

/// A distribution as the ledger stores it. Where `is_percent` holds, the
/// breakdown components are percentages of the total distribution; else they
/// are amounts per unit.
pub struct DistributionRow {
    pub security_id: i64,
    pub distribution_id: i64,
    pub ex_dividend_date: LocalDateTime,
    pub record_date: LocalDateTime,
    pub payment_date: LocalDateTime,
    pub total_cash_distribution: Decimal,
    pub total_non_cash_distribution: Decimal,
    pub is_percent: bool,
    pub return_of_capital: Decimal,
    pub capital_gain: Decimal,
    pub capital_gain_pre_20240624: Decimal,
    pub capital_gain_post_20240624: Decimal,
    pub eligible_dividend: Decimal,
    pub non_eligible_dividend: Decimal,
    pub foreign_business_income: Decimal,
    pub foreign_non_business_income: Decimal,
    pub other_income: Decimal,
    pub foreign_business_income_tax_paid: Decimal,
    pub foreign_non_business_income_tax_paid: Decimal,
    pub foreign_distribution: Decimal,
}

/// A distribution with its breakdown in amounts per unit.
pub struct DistributionRefResult {
    pub distribution_id: i64,
    pub ex_dividend_date: LocalDateTime,
    pub record_date: LocalDateTime,
    pub payment_date: LocalDateTime,
    /// decreases the adjusted cost base
    pub total_cash_distribution: Decimal,
    /// increases the adjusted cost base
    pub total_non_cash_distribution: Decimal,
    pub return_of_capital: Decimal,
    pub capital_gain: Decimal,
    pub capital_gain_pre_20240624: Decimal,
    pub capital_gain_post_20240624: Decimal,
    pub eligible_dividend: Decimal,
    pub non_eligible_dividend: Decimal,
    pub foreign_business_income: Decimal,
    pub foreign_non_business_income: Decimal,
    pub other_income: Decimal,
    pub foreign_business_income_tax_paid: Decimal,
    pub foreign_non_business_income_tax_paid: Decimal,
    pub foreign_distribution: Decimal,
}

/// `percent` percent of `total`, as `total * percent / 100` on their
/// representations.
pub open spec fn percent_of(total: (int, int), percent: (int, int)) -> DecValue {
    rep_value(decimal_quotient(rep_mul(total, percent), (100, 0)))
}

/// A breakdown component as an amount per unit.
pub open spec fn component(row: DistributionRow, x: Decimal) -> DecValue {
    if row.is_percent {
        percent_of(
            rep_add(row.total_cash_distribution.rep(), row.total_non_cash_distribution.rep()),
            x.rep(),
        )
    } else {
        x@
    }
}

/// `r` is the per-unit form of `row`.
pub open spec fn is_result_of(r: DistributionRefResult, row: DistributionRow) -> bool {
    &&& r.distribution_id == row.distribution_id
    &&& r.ex_dividend_date == row.ex_dividend_date
    &&& r.record_date == row.record_date
    &&& r.payment_date == row.payment_date
    &&& r.total_cash_distribution@ == row.total_cash_distribution@
    &&& r.total_non_cash_distribution@ == row.total_non_cash_distribution@
    &&& r.return_of_capital@ == component(row, row.return_of_capital)
    &&& r.capital_gain@ == component(row, row.capital_gain)
    &&& r.capital_gain_pre_20240624@ == component(row, row.capital_gain_pre_20240624)
    &&& r.capital_gain_post_20240624@ == component(row, row.capital_gain_post_20240624)
    &&& r.eligible_dividend@ == component(row, row.eligible_dividend)
    &&& r.non_eligible_dividend@ == component(row, row.non_eligible_dividend)
    &&& r.foreign_business_income@ == component(row, row.foreign_business_income)
    &&& r.foreign_non_business_income@ == component(row, row.foreign_non_business_income)
    &&& r.other_income@ == component(row, row.other_income)
    &&& r.foreign_business_income_tax_paid@ == component(row, row.foreign_business_income_tax_paid)
    &&& r.foreign_non_business_income_tax_paid@ == component(row, row.foreign_non_business_income_tax_paid)
    &&& r.foreign_distribution@ == component(row, row.foreign_distribution)
}

/// The number of digits of the total distribution (cash plus non-cash) as
/// `bigdecimal` writes the sum.
pub open spec fn total_digits(row: DistributionRow) -> nat {
    num_digits(abs(rep_add(row.total_cash_distribution.rep(), row.total_non_cash_distribution.rep()).0))
}

/// A percentage `x` of the total can be taken: the product's digits fit the
/// division's bound.
pub open spec fn percent_fits(row: DistributionRow, x: Decimal) -> bool {
    total_digits(row) + x.digit_count() <= 0x0800_0000_0000_0000
}

/// The scales of a distribution lie within the ledger's bounds, and where its
/// components are percentages, each can be converted.
pub open spec fn row_in_range(row: DistributionRow) -> bool {
    &&& row.total_cash_distribution.small_scale()
    &&& row.total_non_cash_distribution.small_scale()
    &&& row.return_of_capital.small_scale()
    &&& row.capital_gain.small_scale()
    &&& row.capital_gain_pre_20240624.small_scale()
    &&& row.capital_gain_post_20240624.small_scale()
    &&& row.eligible_dividend.small_scale()
    &&& row.non_eligible_dividend.small_scale()
    &&& row.foreign_business_income.small_scale()
    &&& row.foreign_non_business_income.small_scale()
    &&& row.other_income.small_scale()
    &&& row.foreign_business_income_tax_paid.small_scale()
    &&& row.foreign_non_business_income_tax_paid.small_scale()
    &&& row.foreign_distribution.small_scale()
    &&& row.is_percent ==> {
        &&& percent_fits(row, row.return_of_capital)
        &&& percent_fits(row, row.capital_gain)
        &&& percent_fits(row, row.capital_gain_pre_20240624)
        &&& percent_fits(row, row.capital_gain_post_20240624)
        &&& percent_fits(row, row.eligible_dividend)
        &&& percent_fits(row, row.non_eligible_dividend)
        &&& percent_fits(row, row.foreign_business_income)
        &&& percent_fits(row, row.foreign_non_business_income)
        &&& percent_fits(row, row.other_income)
        &&& percent_fits(row, row.foreign_business_income_tax_paid)
        &&& percent_fits(row, row.foreign_non_business_income_tax_paid)
        &&& percent_fits(row, row.foreign_distribution)
    }
}

/// The scale of a per-unit amount lies within what arithmetic on it allows.
pub open spec fn amount_scaled(x: Decimal) -> bool {
    -0x5000_0000_0000_0100 <= x.scale <= 0x5000_0000_0000_0100
}

/// Every amount of a distribution result has a scale within what arithmetic
/// on it allows.
pub open spec fn result_scaled(r: DistributionRefResult) -> bool {
    &&& amount_scaled(r.total_cash_distribution)
    &&& amount_scaled(r.total_non_cash_distribution)
    &&& amount_scaled(r.return_of_capital)
    &&& amount_scaled(r.capital_gain)
    &&& amount_scaled(r.capital_gain_pre_20240624)
    &&& amount_scaled(r.capital_gain_post_20240624)
    &&& amount_scaled(r.eligible_dividend)
    &&& amount_scaled(r.non_eligible_dividend)
    &&& amount_scaled(r.foreign_business_income)
    &&& amount_scaled(r.foreign_non_business_income)
    &&& amount_scaled(r.other_income)
    &&& amount_scaled(r.foreign_business_income_tax_paid)
    &&& amount_scaled(r.foreign_non_business_income_tax_paid)
    &&& amount_scaled(r.foreign_distribution)
}

fn percent_fits_exec(row: &DistributionRow, t: u64, x: &Decimal) -> (r: bool)
    requires
        t == total_digits(*row),
    ensures
        r == percent_fits(*row, *x),
{
    let d = x.digits();
    d <= 0x0800_0000_0000_0000 && t <= 0x0800_0000_0000_0000 - d
}

/// Whether a distribution's scales lie within the ledger's bounds and, where
/// its components are percentages, each can be converted (`row_in_range`).
pub fn distribution_row_in_range(row: &DistributionRow) -> (r: bool)
    ensures
        r == row_in_range(*row),
{
    let scales = row.total_cash_distribution.has_small_scale()
        && row.total_non_cash_distribution.has_small_scale()
        && row.return_of_capital.has_small_scale()
        && row.capital_gain.has_small_scale()
        && row.capital_gain_pre_20240624.has_small_scale()
        && row.capital_gain_post_20240624.has_small_scale()
        && row.eligible_dividend.has_small_scale()
        && row.non_eligible_dividend.has_small_scale()
        && row.foreign_business_income.has_small_scale()
        && row.foreign_non_business_income.has_small_scale()
        && row.other_income.has_small_scale()
        && row.foreign_business_income_tax_paid.has_small_scale()
        && row.foreign_non_business_income_tax_paid.has_small_scale()
        && row.foreign_distribution.has_small_scale();
    if !scales {
        return false;
    }
    if !row.is_percent {
        return true;
    }
    let total = row.total_cash_distribution.add(&row.total_non_cash_distribution);
    let t = total.digits();
    percent_fits_exec(row, t, &row.return_of_capital)
        && percent_fits_exec(row, t, &row.capital_gain)
        && percent_fits_exec(row, t, &row.capital_gain_pre_20240624)
        && percent_fits_exec(row, t, &row.capital_gain_post_20240624)
        && percent_fits_exec(row, t, &row.eligible_dividend)
        && percent_fits_exec(row, t, &row.non_eligible_dividend)
        && percent_fits_exec(row, t, &row.foreign_business_income)
        && percent_fits_exec(row, t, &row.foreign_non_business_income)
        && percent_fits_exec(row, t, &row.other_income)
        && percent_fits_exec(row, t, &row.foreign_business_income_tax_paid)
        && percent_fits_exec(row, t, &row.foreign_non_business_income_tax_paid)
        && percent_fits_exec(row, t, &row.foreign_distribution)
}

fn convert(row: &DistributionRow, total: &Decimal, hundred: &Decimal, x: &Decimal) -> (r: Decimal)
    requires
        total@ == row.total_cash_distribution@.add(row.total_non_cash_distribution@),
        total.rep() == rep_add(row.total_cash_distribution.rep(), row.total_non_cash_distribution.rep()),
        row.total_cash_distribution.small_scale(),
        row.total_non_cash_distribution.small_scale(),
        x.small_scale(),
        row.is_percent ==> percent_fits(*row, *x),
        hundred@ == dec_int(100),
        hundred.rep() == (100int, 0int),
    ensures
        r@ == component(*row, *x),
        amount_scaled(r),
{
    if row.is_percent {
        proof {
            lemma_normalize_nonzero(100, 0);
        }
        let p = total.mul(x);
        proof {
            lemma_rep_mul_abs(total.rep(), x.rep());
            lemma_digits_mul(abs(total.int_val()), abs(x.int_val()), abs(p.int_val()));
            reveal_with_fuel(num_digits, 3);
            assert(hundred.digit_count() == 3);
        }
        p.div(hundred)
    } else {
        x.copy()
    }
}

/// The per-unit form of a distribution: where the components are
/// percentages, each becomes that percentage of the total distribution.
pub fn distribution_result(row: &DistributionRow) -> (r: DistributionRefResult)
    requires
        row_in_range(*row),
    ensures
        is_result_of(r, *row),
        result_scaled(r),
{
    let total = row.total_cash_distribution.add(&row.total_non_cash_distribution);
    let hundred = Decimal::from_i64(100);
    DistributionRefResult {
        distribution_id: row.distribution_id,
        ex_dividend_date: row.ex_dividend_date,
        record_date: row.record_date,
        payment_date: row.payment_date,
        total_cash_distribution: row.total_cash_distribution.copy(),
        total_non_cash_distribution: row.total_non_cash_distribution.copy(),
        return_of_capital: convert(row, &total, &hundred, &row.return_of_capital),
        capital_gain: convert(row, &total, &hundred, &row.capital_gain),
        capital_gain_pre_20240624: convert(row, &total, &hundred, &row.capital_gain_pre_20240624),
        capital_gain_post_20240624: convert(
            row,
            &total,
            &hundred,
            &row.capital_gain_post_20240624,
        ),
        eligible_dividend: convert(row, &total, &hundred, &row.eligible_dividend),
        non_eligible_dividend: convert(row, &total, &hundred, &row.non_eligible_dividend),
        foreign_business_income: convert(row, &total, &hundred, &row.foreign_business_income),
        foreign_non_business_income: convert(
            row,
            &total,
            &hundred,
            &row.foreign_non_business_income,
        ),
        other_income: convert(row, &total, &hundred, &row.other_income),
        foreign_business_income_tax_paid: convert(
            row,
            &total,
            &hundred,
            &row.foreign_business_income_tax_paid,
        ),
        foreign_non_business_income_tax_paid: convert(
            row,
            &total,
            &hundred,
            &row.foreign_non_business_income_tax_paid,
        ),
        foreign_distribution: convert(row, &total, &hundred, &row.foreign_distribution),
    }
}

/// The distributions of all securities, one per security and payment date,
/// in order of payment date.
pub struct DistributionRefMap {
    pub entries: Vec<(i64, DistributionRefResult)>,
}

/// The key under which a distribution is kept: security and the moment of
/// payment (second and nanosecond).
pub open spec fn entry_key(e: (i64, DistributionRefResult)) -> (i64, i64, u32) {
    (e.0, e.1.payment_date.timestamp, e.1.payment_date.nanosecond)
}

pub open spec fn row_key(row: DistributionRow) -> (i64, i64, u32) {
    (row.security_id, row.payment_date.timestamp, row.payment_date.nanosecond)
}

impl DistributionRefMap {
    /// Ordered by payment date, no key twice, and every amount's scale within
    /// what arithmetic on it allows.
    pub open spec fn wf(&self) -> bool {
        &&& forall|i: int| 0 <= i < self.entries@.len() ==> result_scaled(#[trigger] self.entries@[i].1)
        &&& forall|i: int, j: int|
            0 <= i < j < self.entries@.len() ==> !(#[trigger] self.entries@[j]).1.payment_date.precedes(
                (#[trigger] self.entries@[i]).1.payment_date,
            )
        &&& forall|i: int, j: int|
            0 <= i < j < self.entries@.len() ==> entry_key(#[trigger] self.entries@[i])
                != entry_key(#[trigger] self.entries@[j])
    }

    pub open spec fn has_key(&self, k: (i64, i64, u32)) -> bool {
        exists|i: int| 0 <= i < self.entries@.len() && entry_key(#[trigger] self.entries@[i]) == k
    }

    /// The empty map.
    pub fn new() -> (m: Self)
        ensures
            m.wf(),
            m.entries@.len() == 0,
    {
        DistributionRefMap { entries: Vec::new() }
    }

    /// Puts the distribution of `security_id` under its payment date,
    /// replacing the one that was there.
    pub fn insert(&mut self, security_id: i64, r: DistributionRefResult)
        requires
            old(self).wf(),
            result_scaled(r),
        ensures
            final(self).wf(),
            final(self).entries@.contains((security_id, r)),
            forall|e: (i64, DistributionRefResult)|
                #[trigger] final(self).entries@.contains(e) ==> e == (security_id, r) || (
                old(self).entries@.contains(e) && entry_key(e) != (
                security_id,
                r.payment_date.timestamp,
                r.payment_date.nanosecond,
            )),
            forall|e: (i64, DistributionRefResult)|
                #[trigger] old(self).entries@.contains(e) && entry_key(e) != (
                    security_id,
                    r.payment_date.timestamp,
                    r.payment_date.nanosecond,
                ) ==> final(self).entries@.contains(e),
    {
        let ts = r.payment_date.timestamp;
        let ns = r.payment_date.nanosecond;
        let n = self.entries.len();
        let mut i: usize = 0;
        while i < n
            invariant
                n == self.entries@.len(),
                self.entries@ == old(self).entries@,
                self.wf(),
                result_scaled(r),
                ts == r.payment_date.timestamp,
                ns == r.payment_date.nanosecond,
                i <= n,
                forall|k: int| 0 <= k < i ==> entry_key(#[trigger] self.entries@[k]) != (security_id, ts, ns),
            decreases n - i,
        {
            if self.entries[i].0 == security_id && self.entries[i].1.payment_date.timestamp == ts
                && self.entries[i].1.payment_date.nanosecond == ns {
                let ghost before = self.entries@;
                assert(forall|k: int| 0 <= k < before.len() ==> result_scaled(#[trigger] before[k].1));
                self.entries.set(i, (security_id, r));
                proof {
                    assert(self.entries@[i as int] == (security_id, r));
                    assert(entry_key(before[i as int]) == (security_id, ts, ns));
                    assert forall|k: int| 0 <= k < self.entries@.len() implies entry_key(#[trigger] self.entries@[k])
                        == entry_key(before[k]) && self.entries@[k].1.payment_date.timestamp == before[k].1.payment_date.timestamp
                        && self.entries@[k].1.payment_date.nanosecond == before[k].1.payment_date.nanosecond by {
                        if k != i {
                            assert(self.entries@[k] == before[k]);
                        } else {
                            assert(self.entries@[k] == (security_id, r));
                            assert(before[k].0 == security_id);
                            assert(before[k].1.payment_date.timestamp == ts);
                            assert(before[k].1.payment_date.nanosecond == ns);
                        }
                    }
                    assert forall|k: int| 0 <= k < self.entries@.len() implies result_scaled(
                        #[trigger] self.entries@[k].1,
                    ) by {
                        if k != i {
                            assert(self.entries@[k] == before[k]);
                        }
                    }
                    assert forall|e: (i64, DistributionRefResult)|
                        #[trigger] self.entries@.contains(e) implies e == (security_id, r) || (
                        before.contains(e) && entry_key(e) != (security_id, ts, ns)) by {
                        let k = choose|k: int| 0 <= k < self.entries@.len() && self.entries@[k] == e;
                        if k != i {
                            assert(before[k] == e);
                            assert(entry_key(before[k]) != entry_key(before[i as int]));
                        }
                    }
                    assert forall|e: (i64, DistributionRefResult)|
                        #[trigger] old(self).entries@.contains(e) && entry_key(e) != (security_id, ts, ns)
                        implies self.entries@.contains(e) by {
                        let k = choose|k: int| 0 <= k < before.len() && before[k] == e;
                        assert(k != i);
                        assert(self.entries@[k] == e);
                    }
                }
                return;
            }
            i = i + 1;
        }
        let mut j: usize = n;
        while j > 0 && r.payment_date.is_before(&self.entries[j - 1].1.payment_date)
            invariant
                n == self.entries@.len(),
                self.entries@ == old(self).entries@,
                self.wf(),
                result_scaled(r),
                ts == r.payment_date.timestamp,
                ns == r.payment_date.nanosecond,
                j <= n,
                forall|k: int| j <= k < n ==> r.payment_date.precedes((#[trigger] self.entries@[k]).1.payment_date),
            decreases j,
        {
            j = j - 1;
        }
        let ghost before = self.entries@;
        assert(forall|k: int| 0 <= k < before.len() ==> result_scaled(#[trigger] before[k].1));
        proof {
            if j > 0 {
                assert forall|k: int| 0 <= k < j implies !r.payment_date.precedes((#[trigger] before[k]).1.payment_date) by {
                    assert(!before[j - 1].1.payment_date.precedes(before[k].1.payment_date));
                }
            }
        }
        self.entries.insert(j, (security_id, r));
        proof {
            let after = self.entries@;
            assert(after[j as int] == (security_id, r));
            assert forall|k: int| 0 <= k < after.len() && k != j implies #[trigger] after[k] == (
            if k < j { before[k] } else { before[k - 1] }) by {}
            assert forall|e: (i64, DistributionRefResult)|
                #[trigger] after.contains(e) implies e == (security_id, r) || (before.contains(e)
                && entry_key(e) != (security_id, ts, ns)) by {
                let k = choose|k: int| 0 <= k < after.len() && after[k] == e;
                if k < j {
                    assert(before[k] == e);
                } else if k > j {
                    assert(before[k - 1] == e);
                }
            }
            assert forall|e: (i64, DistributionRefResult)|
                #[trigger] old(self).entries@.contains(e) && entry_key(e) != (security_id, ts, ns)
                implies after.contains(e) by {
                let k = choose|k: int| 0 <= k < before.len() && before[k] == e;
                if k < j {
                    assert(after[k] == e);
                } else {
                    assert(after[k + 1] == e);
                }
            }
        }
    }
}

/// Row `i` is the last of the first `n` rows with its key.
pub open spec fn is_last_row(rows: Seq<DistributionRow>, n: int, i: int) -> bool {
    &&& 0 <= i < n
    &&& forall|j: int| i < j < n ==> row_key(#[trigger] rows[j]) != row_key(rows[i])
}

/// `e` is the per-unit form of the last of the first `n` rows with its key.
pub open spec fn entry_from_rows(e: (i64, DistributionRefResult), rows: Seq<DistributionRow>, n: int) -> bool {
    exists|i: int|
        is_last_row(rows, n, i) && e.0 == (#[trigger] rows[i]).security_id && is_result_of(e.1, rows[i])
}

/// The distributions of the ledger, each in its per-unit form and kept under
/// its security and payment date; of several rows with one key, the last one
/// stays.
pub fn build_distribution_ref_map(rows: &Vec<DistributionRow>) -> (m: DistributionRefMap)
    requires
        forall|i: int| 0 <= i < rows@.len() ==> row_in_range(#[trigger] rows@[i]),
    ensures
        m.wf(),
        forall|k: (i64, i64, u32)|
            m.has_key(k) <==> exists|i: int| 0 <= i < rows@.len() && row_key(#[trigger] rows@[i]) == k,
        forall|k: int|
            0 <= k < m.entries@.len() ==> entry_from_rows(#[trigger] m.entries@[k], rows@, rows@.len() as int),
{
    let mut m = DistributionRefMap::new();
    let n = rows.len();
    for i in 0..n
        invariant
            n == rows@.len(),
            m.wf(),
            forall|k: (i64, i64, u32)|
                m.has_key(k) <==> exists|j: int| 0 <= j < i && row_key(#[trigger] rows@[j]) == k,
            forall|k: int| 0 <= k < m.entries@.len() ==> entry_from_rows(#[trigger] m.entries@[k], rows@, i as int),
            forall|k: int| 0 <= k < rows@.len() ==> row_in_range(#[trigger] rows@[k]),
    {
        assert(row_in_range(rows@[i as int]));
        let r = distribution_result(&rows[i]);
        let ghost before = m;
        m.insert(rows[i].security_id, r);
        proof {
            lemma_insert_keeps_entries(before, m, rows@, i as int, r);
            lemma_insert_keys(before, m, rows@, i as int, r);
        }
    }
    m
}

/// After the insert of row `i`, every entry comes from the first `i + 1`
/// rows.
proof fn lemma_insert_keeps_entries(
    before: DistributionRefMap,
    after: DistributionRefMap,
    rows: Seq<DistributionRow>,
    i: int,
    r: DistributionRefResult,
)
    requires
        0 <= i < rows.len(),
        is_result_of(r, rows[i]),
        forall|k: int| 0 <= k < before.entries@.len() ==> entry_from_rows(#[trigger] before.entries@[k], rows, i),
        forall|e: (i64, DistributionRefResult)|
            #[trigger] after.entries@.contains(e) ==> e == (rows[i].security_id, r) || (
            before.entries@.contains(e) && entry_key(e) != row_key(rows[i])),
    ensures
        forall|k: int| 0 <= k < after.entries@.len() ==> entry_from_rows(#[trigger] after.entries@[k], rows, i + 1),
{
    assert forall|k: int| 0 <= k < after.entries@.len() implies entry_from_rows(
        #[trigger] after.entries@[k],
        rows,
        i + 1,
    ) by {
        let e = after.entries@[k];
        assert(after.entries@.contains(e));
        if e == (rows[i].security_id, r) {
            assert(is_last_row(rows, i + 1, i));
        } else {
            let k0 = choose|k0: int| 0 <= k0 < before.entries@.len() && before.entries@[k0] == e;
            assert(entry_from_rows(before.entries@[k0], rows, i));
            let j = choose|j: int|
                is_last_row(rows, i, j) && e.0 == (#[trigger] rows[j]).security_id && is_result_of(
                    e.1,
                    rows[j],
                );
            assert(is_last_row(rows, i + 1, j));
        }
    }
}

/// After the insert of row `i`, the keys are those of the first `i + 1` rows.
proof fn lemma_insert_keys(
    before: DistributionRefMap,
    after: DistributionRefMap,
    rows: Seq<DistributionRow>,
    i: int,
    r: DistributionRefResult,
)
    requires
        0 <= i < rows.len(),
        r.payment_date == rows[i].payment_date,
        forall|k: (i64, i64, u32)|
            before.has_key(k) <==> exists|j: int| 0 <= j < i && row_key(#[trigger] rows[j]) == k,
        after.entries@.contains((rows[i].security_id, r)),
        forall|e: (i64, DistributionRefResult)|
            #[trigger] after.entries@.contains(e) ==> e == (rows[i].security_id, r) || (
            before.entries@.contains(e) && entry_key(e) != row_key(rows[i])),
        forall|e: (i64, DistributionRefResult)|
            #[trigger] before.entries@.contains(e) && entry_key(e) != row_key(rows[i])
                ==> after.entries@.contains(e),
    ensures
        forall|k: (i64, i64, u32)|
            after.has_key(k) <==> exists|j: int| 0 <= j < i + 1 && row_key(#[trigger] rows[j]) == k,
{
    let key = row_key(rows[i]);
    assert forall|k: (i64, i64, u32)| after.has_key(k) <==> exists|j: int|
        0 <= j < i + 1 && row_key(#[trigger] rows[j]) == k by {
        if after.has_key(k) {
            let a = choose|a: int| 0 <= a < after.entries@.len() && entry_key(#[trigger] after.entries@[a]) == k;
            let e = after.entries@[a];
            assert(after.entries@.contains(e));
            if e != (rows[i].security_id, r) {
                let a0 = choose|a0: int| 0 <= a0 < before.entries@.len() && before.entries@[a0] == e;
                assert(entry_key(before.entries@[a0]) == k);
                assert(before.has_key(k));
            } else {
                assert(row_key(rows[i]) == k);
            }
        }
        if exists|j: int| 0 <= j < i + 1 && row_key(#[trigger] rows[j]) == k {
            if k == key {
                let a = after.entries@.index_of((rows[i].security_id, r));
                assert(entry_key(after.entries@[a]) == k);
            } else {
                let j = choose|j: int| 0 <= j < i + 1 && row_key(#[trigger] rows[j]) == k;
                assert(j < i);
                assert(before.has_key(k));
                let a0 = choose|a0: int| 0 <= a0 < before.entries@.len() && entry_key(#[trigger] before.entries@[a0]) == k;
                assert(before.entries@.contains(before.entries@[a0]));
                assert(after.entries@.contains(before.entries@[a0]));
                let a = after.entries@.index_of(before.entries@[a0]);
                assert(entry_key(after.entries@[a]) == k);
            }
        }
    }
}

} // verus!
