//! Yearly contributions to a tax shelter. An RRSP's year runs from its first
//! day (early March) to the next one.

use vstd::prelude::*;
use chrono::{Local, NaiveDate};
use crate::date::LocalDateTime;
use crate::decimal::{dec_int, DecValue, Decimal};

verus! {

/// An entry of a tax-shelter account, dated by its local calendar date.
pub struct ContributionRow {
    pub date: LocalDateTime,
    pub forex_rate: Decimal,
    pub unit: Decimal,
    pub debit: Decimal,
    pub credit: Decimal,
}

/// The balance and the contributions of a year.
pub struct GetContributionsResult {
    pub year: u32,
    pub ytd_balance: Decimal,
    pub ytd_contributions: Decimal,
}

/// `year` is a leap year of the Gregorian calendar.
pub open spec fn is_leap_year(year: int) -> bool {
    year % 4 == 0 && (year % 100 != 0 || year % 400 == 0)
}

/// The day in March of the first day of the RRSP year that begins in
/// `year`: sixty-one days after the last day of the year before, so March 1
/// in a leap year and March 2 otherwise.
pub open spec fn rrsp_first_march_day(year: int) -> u32 {
    if is_leap_year(year) {
        1
    } else {
        2
    }
}

/// The first day of the RRSP year that begins in `year`, as (month, day).
pub fn rrsp_first_day(year: i32) -> (r: (u32, u32))
    ensures
        r == (3u32, rrsp_first_march_day(year as int)),
{
    let leap = year % 4 == 0 && (year % 100 != 0 || year % 400 == 0);
    if leap {
        (3, 1)
    } else {
        (3, 2)
    }
}

/// `chrono`: the Unix timestamp of the local midnight that starts
/// `year`-`month`-`day`, where the date exists and the machine's time zone
/// gives that midnight exactly one moment; `None` otherwise. Which moment it
/// is depends on the time zone, so nothing more is stated.
#[verifier::external_body]
fn local_midnight(year: i32, month: u32, day: u32) -> (r: Option<i64>) {
    let midnight = NaiveDate::from_ymd_opt(year, month, day)?.and_hms_opt(0, 0, 0)?;
    midnight.and_local_timezone(Local).single().map(|t| t.timestamp())
}

/// The first day of the RRSP year that begins in `year` (see
/// `rrsp_first_day`), at local midnight; `None` where the time zone gives
/// that midnight no single moment. The last day of the year before and the
/// first day must both lie within `chrono`'s calendar (years -262143 to
/// 262142).
pub fn get_rrsp_first_day(year: i32) -> (r: Option<LocalDateTime>)
    requires
        -262142 <= year <= 262142,
    ensures
        r matches Some(d) ==> d.year == year && d.month == 3 && d.day == rrsp_first_march_day(year as int)
            && d.nanosecond == 0,
{
    let (month, day) = rrsp_first_day(year);
    match local_midnight(year, month, day) {
        Some(timestamp) => Some(LocalDateTime { timestamp, nanosecond: 0, year, month, day }),
        None => None,
    }
}

/// `date` falls before the first day of the RRSP year of its calendar year.
pub open spec fn before_rrsp_first_day(date: LocalDateTime) -> bool {
    date.month < 3 || (date.month == 3 && date.day < rrsp_first_march_day(date.year as int))
}

/// `a`'s calendar date comes before `b`'s within one year.
pub open spec fn day_before(a: LocalDateTime, b: LocalDateTime) -> bool {
    a.month < b.month || (a.month == b.month && a.day < b.day)
}

/// In an RRSP, an entry dated before the first day of its year's RRSP year,
/// as `get_rrsp_first_day` gives it, counts for the year before; any other
/// entry, and every entry of another shelter, counts for its calendar year.
pub proof fn law_rrsp_year_of_an_entry(r: ContributionRow, first: LocalDateTime, is_rrsp: bool)
    requires
        first.year == r.date.year,
        first.month == 3,
        first.day == rrsp_first_march_day(r.date.year as int),
    ensures
        contribution_year(r, is_rrsp) == (if is_rrsp && day_before(r.date, first) {
            r.date.year - 1
        } else {
            r.date.year as int
        }),
{
}

/// The days of the months of `year` before `month` (January to December).
pub open spec fn days_before_month(year: int, month: int) -> int {
    let l: int = if is_leap_year(year) { 1 } else { 0 };
    if month <= 1 {
        0
    } else if month == 2 {
        31
    } else if month == 3 {
        59 + l
    } else if month == 4 {
        90 + l
    } else if month == 5 {
        120 + l
    } else if month == 6 {
        151 + l
    } else if month == 7 {
        181 + l
    } else if month == 8 {
        212 + l
    } else if month == 9 {
        243 + l
    } else if month == 10 {
        273 + l
    } else if month == 11 {
        304 + l
    } else {
        334 + l
    }
}

/// The day of the year of a calendar date (January 1 is day one).
pub open spec fn day_of_year(date: LocalDateTime) -> int {
    days_before_month(date.year as int, date.month as int) + date.day
}

/// A date is before the first day of the RRSP year exactly when it is one
/// of the first sixty days of its calendar year.
pub proof fn law_rrsp_first_sixty_days(date: LocalDateTime)
    requires
        1 <= date.month <= 12,
        1 <= date.day <= 31,
        date.month == 2 ==> date.day <= (if is_leap_year(date.year as int) { 29int } else { 28int }),
    ensures
        before_rrsp_first_day(date) <==> day_of_year(date) <= 60,
{
}

/// The year an entry counts for: its calendar year, except that in an RRSP
/// an entry before the first day of the RRSP year (early March) counts for
/// the year before.
pub open spec fn contribution_year(r: ContributionRow, is_rrsp: bool) -> int {
    if is_rrsp && before_rrsp_first_day(r.date) {
        r.date.year - 1
    } else {
        r.date.year as int
    }
}

/// The scales of an entry lie within the ledger's bounds.
pub open spec fn contribution_row_in_range(r: ContributionRow) -> bool {
    r.forex_rate.small_scale() && r.unit.small_scale() && r.debit.small_scale() && r.credit.small_scale()
}

/// What an entry adds to the balance: `forex_rate * unit * (debit - credit)`
/// rounded to cents.
pub open spec fn balance_change(r: ContributionRow) -> DecValue {
    r.forex_rate@.mul(r.unit@).mul(r.debit@.sub(r.credit@)).round2()
}

/// What an entry adds to the contributions: `forex_rate * debit`.
pub open spec fn contribution_change(r: ContributionRow) -> DecValue {
    r.forex_rate@.mul(r.debit@)
}

/// The balance and the contributions of year `y` over the first `n` entries,
/// each added in order to zero.
pub open spec fn year_sums(rows: Seq<ContributionRow>, is_rrsp: bool, y: int, n: int) -> (DecValue, DecValue)
    decreases n,
{
    if n <= 0 {
        (dec_int(0), dec_int(0))
    } else {
        let prev = year_sums(rows, is_rrsp, y, n - 1);
        if contribution_year(rows[n - 1], is_rrsp) == y {
            (prev.0.add(balance_change(rows[n - 1])), prev.1.add(contribution_change(rows[n - 1])))
        } else {
            prev
        }
    }
}

/// The years of the results strictly decrease.
#[verifier::opaque]
pub open spec fn years_decreasing(r: Seq<GetContributionsResult>) -> bool {
    forall|i: int, j: int| 0 <= i < j < r.len() ==> (#[trigger] r[i]).year > (#[trigger] r[j]).year
}

/// Each year of the results is one that one of the first `n` entries counts
/// for.
#[verifier::opaque]
pub open spec fn years_sourced(r: Seq<GetContributionsResult>, rows: Seq<ContributionRow>, is_rrsp: bool, n: int) -> bool {
    forall|i: int|
        0 <= i < r.len() ==> exists|k: int|
            0 <= k < n && contribution_year(#[trigger] rows[k], is_rrsp) == (#[trigger] r[i]).year
}

/// The year that each of the first `n` entries counts for has a result.
#[verifier::opaque]
pub open spec fn years_covered(r: Seq<GetContributionsResult>, rows: Seq<ContributionRow>, is_rrsp: bool, n: int) -> bool {
    forall|k: int|
        0 <= k < n ==> exists|i: int|
            0 <= i < r.len() && (#[trigger] r[i]).year == contribution_year(#[trigger] rows[k], is_rrsp)
}

/// Each result holds the sums of its year over the first `n` entries.
#[verifier::opaque]
pub open spec fn sums_match(r: Seq<GetContributionsResult>, rows: Seq<ContributionRow>, is_rrsp: bool, n: int) -> bool {
    forall|i: int|
        0 <= i < r.len() ==> ((#[trigger] r[i]).ytd_balance@, r[i].ytd_contributions@) == year_sums(
            rows,
            is_rrsp,
            r[i].year as int,
            n,
        )
}

/// The results for the first `n` entries: years strictly decreasing, exactly
/// the years the entries count for, each with its sums.
pub open spec fn contributions_upto(r: Seq<GetContributionsResult>, rows: Seq<ContributionRow>, is_rrsp: bool, n: int) -> bool {
    &&& years_decreasing(r)
    &&& years_sourced(r, rows, is_rrsp, n)
    &&& years_covered(r, rows, is_rrsp, n)
    &&& sums_match(r, rows, is_rrsp, n)
}

/// The years an entry can count for fit a `u32`.
pub open spec fn years_in_range(rows: Seq<ContributionRow>, is_rrsp: bool) -> bool {
    forall|k: int| 0 <= k < rows.len() ==> 0 <= contribution_year(#[trigger] rows[k], is_rrsp) <= u32::MAX
}

/// Whether every entry's year, as `contributions` counts it for
/// `tax_shelter_type`, lies within `u32` (`years_in_range`).
pub fn contribution_years_fit(rows: &Vec<ContributionRow>, tax_shelter_type: &str) -> (r: bool)
    ensures
        r == years_in_range(rows@, tax_shelter_type@ == "RRSP"@),
{
    let is_rrsp = tax_shelter_type.to_string().eq(&"RRSP".to_string());
    let n = rows.len();
    for i in 0..n
        invariant
            n == rows@.len(),
            is_rrsp == (tax_shelter_type@ == "RRSP"@),
            forall|k: int| 0 <= k < i ==> 0 <= contribution_year(#[trigger] rows@[k], is_rrsp) <= u32::MAX,
    {
        let row = &rows[i];
        let (first_month, first_day) = rrsp_first_day(row.date.year);
        let before = row.date.month < first_month || (row.date.month == first_month && row.date.day
            < first_day);
        let fits = if is_rrsp && before {
            row.date.year >= 1
        } else {
            row.date.year >= 0
        };
        if !fits {
            assert(!(0 <= contribution_year(rows@[i as int], is_rrsp) <= u32::MAX));
            return false;
        }
    }
    true
}

/// A year absent from the first `n` entries sums to zero.
proof fn lemma_year_unseen(rows: Seq<ContributionRow>, is_rrsp: bool, y: int, n: int)
    requires
        forall|k: int| 0 <= k < n ==> contribution_year(#[trigger] rows[k], is_rrsp) != y,
    ensures
        year_sums(rows, is_rrsp, y, n) == (dec_int(0), dec_int(0)),
    decreases n,
{
    if n > 0 {
        lemma_year_unseen(rows, is_rrsp, y, n - 1);
    }
}

/// Adding entry `i` to the results of its year, at `j`, keeps them the
/// results of the first `i + 1` entries.
proof fn lemma_update_year(
    before: Seq<GetContributionsResult>,
    out: Seq<GetContributionsResult>,
    rows: Seq<ContributionRow>,
    is_rrsp: bool,
    i: int,
    j: int,
)
    requires
        0 <= i < rows.len(),
        0 <= j < before.len(),
        contributions_upto(before, rows, is_rrsp, i),
        before[j].year == contribution_year(rows[i], is_rrsp),
        out.len() == before.len(),
        forall|a: int| 0 <= a < out.len() && a != j ==> out[a] == before[a],
        out[j].year == before[j].year,
        out[j].ytd_balance@ == before[j].ytd_balance@.add(balance_change(rows[i])),
        out[j].ytd_contributions@ == before[j].ytd_contributions@.add(contribution_change(rows[i])),
    ensures
        contributions_upto(out, rows, is_rrsp, i + 1),
{
    assert(years_decreasing(out)) by {
        reveal(years_decreasing);
        assert forall|a: int, b2: int| 0 <= a < b2 < out.len() implies (#[trigger] out[a]).year > (#[trigger] out[b2]).year by {
            assert(before[a].year > before[b2].year);
        }
    }
    assert(years_covered(out, rows, is_rrsp, i + 1)) by {
        reveal(years_covered);
        assert forall|k: int| 0 <= k < i + 1 implies exists|a: int|
            0 <= a < out.len() && (#[trigger] out[a]).year == contribution_year(#[trigger] rows[k], is_rrsp) by {
            if k < i {
                let a = choose|a: int| 0 <= a < before.len() && (#[trigger] before[a]).year == contribution_year(rows[k], is_rrsp);
                assert(out[a].year == before[a].year);
            } else {
                assert(out[j].year == contribution_year(rows[i], is_rrsp));
            }
        }
    }
    assert(years_sourced(out, rows, is_rrsp, i + 1)) by {
        reveal(years_sourced);
        assert forall|a: int| 0 <= a < out.len() implies exists|k: int|
            0 <= k < i + 1 && contribution_year(#[trigger] rows[k], is_rrsp) == (#[trigger] out[a]).year by {
            if a != j {
                let k = choose|k: int| 0 <= k < i && contribution_year(#[trigger] rows[k], is_rrsp) == before[a].year;
                assert(out[a] == before[a]);
            } else {
                assert(contribution_year(rows[i], is_rrsp) == out[a].year);
            }
        }
    }
    assert(sums_match(out, rows, is_rrsp, i + 1)) by {
        reveal(sums_match);
        reveal(years_decreasing);
        assert forall|a: int| 0 <= a < out.len() implies ((#[trigger] out[a]).ytd_balance@, out[a].ytd_contributions@)
            == year_sums(rows, is_rrsp, out[a].year as int, i + 1) by {
            if a != j {
                assert(out[a] == before[a]);
                assert(before[a].year != before[j].year);
            }
        }
    }
}

/// A year absent from the results is counted by none of the first `i`
/// entries.
proof fn lemma_absent_year(before: Seq<GetContributionsResult>, rows: Seq<ContributionRow>, is_rrsp: bool, i: int, y: int)
    requires
        years_covered(before, rows, is_rrsp, i),
        forall|a: int| 0 <= a < before.len() ==> (#[trigger] before[a]).year != y,
    ensures
        forall|k: int| 0 <= k < i ==> contribution_year(#[trigger] rows[k], is_rrsp) != y,
{
    reveal(years_covered);
    assert forall|k: int| 0 <= k < i implies contribution_year(#[trigger] rows[k], is_rrsp) != y by {
        let a = choose|a: int| 0 <= a < before.len() && (#[trigger] before[a]).year == contribution_year(rows[k], is_rrsp);
    }
}

/// Inserting the results of a year not seen before at `j`, where the years
/// before `j` are later and those from `j` on earlier, keeps them the results
/// of the first `i + 1` entries.
proof fn lemma_insert_year(
    before: Seq<GetContributionsResult>,
    out: Seq<GetContributionsResult>,
    rows: Seq<ContributionRow>,
    is_rrsp: bool,
    i: int,
    j: int,
)
    requires
        0 <= i < rows.len(),
        0 <= j <= before.len(),
        contributions_upto(before, rows, is_rrsp, i),
        forall|k: int| 0 <= k < j ==> (#[trigger] before[k]).year > contribution_year(rows[i], is_rrsp),
        j < before.len() ==> before[j].year < contribution_year(rows[i], is_rrsp),
        out.len() == before.len() + 1,
        forall|a: int| 0 <= a < j ==> out[a] == before[a],
        forall|a: int| j < a < out.len() ==> out[a] == before[a - 1],
        out[j].year == contribution_year(rows[i], is_rrsp),
        out[j].ytd_balance@ == dec_int(0).add(balance_change(rows[i])),
        out[j].ytd_contributions@ == dec_int(0).add(contribution_change(rows[i])),
    ensures
        contributions_upto(out, rows, is_rrsp, i + 1),
{
    let y = contribution_year(rows[i], is_rrsp);
    assert forall|a: int| 0 <= a < before.len() implies (#[trigger] before[a]).year != y by {
        if a > j {
            reveal(years_decreasing);
            assert(before[j].year > before[a].year);
        }
    }
    lemma_absent_year(before, rows, is_rrsp, i, y);
    lemma_year_unseen(rows, is_rrsp, y, i);
    assert(years_decreasing(out)) by {
        reveal(years_decreasing);
        assert forall|a: int, b2: int| 0 <= a < b2 < out.len() implies (#[trigger] out[a]).year > (#[trigger] out[b2]).year by {
            if a < j && b2 > j {
                assert(before[a].year > y);
                if b2 - 1 > j {
                    assert(before[j].year > before[b2 - 1].year);
                }
            } else if a == j && b2 > j {
                if b2 - 1 > j {
                    assert(before[j].year > before[b2 - 1].year);
                }
            } else if a > j {
                assert(before[a - 1].year > before[b2 - 1].year);
            } else if b2 < j {
                assert(before[a].year > before[b2].year);
            }
        }
    }
    assert(years_covered(out, rows, is_rrsp, i + 1)) by {
        reveal(years_covered);
        assert forall|k: int| 0 <= k < i + 1 implies exists|a: int|
            0 <= a < out.len() && (#[trigger] out[a]).year == contribution_year(#[trigger] rows[k], is_rrsp) by {
            if k < i {
                let a = choose|a: int| 0 <= a < before.len() && (#[trigger] before[a]).year == contribution_year(rows[k], is_rrsp);
                if a < j {
                    assert(out[a].year == before[a].year);
                } else {
                    assert(out[a + 1].year == before[a].year);
                }
            } else {
                assert(out[j].year == y);
            }
        }
    }
    assert(years_sourced(out, rows, is_rrsp, i + 1)) by {
        reveal(years_sourced);
        assert forall|a: int| 0 <= a < out.len() implies exists|k: int|
            0 <= k < i + 1 && contribution_year(#[trigger] rows[k], is_rrsp) == (#[trigger] out[a]).year by {
            if a < j {
                let k = choose|k: int| 0 <= k < i && contribution_year(#[trigger] rows[k], is_rrsp) == before[a].year;
            } else if a > j {
                let k = choose|k: int| 0 <= k < i && contribution_year(#[trigger] rows[k], is_rrsp) == before[a - 1].year;
            } else {
                assert(contribution_year(rows[i], is_rrsp) == out[a].year);
            }
        }
    }
    assert(sums_match(out, rows, is_rrsp, i + 1)) by {
        reveal(sums_match);
        assert forall|a: int| 0 <= a < out.len() implies ((#[trigger] out[a]).ytd_balance@, out[a].ytd_contributions@)
            == year_sums(rows, is_rrsp, out[a].year as int, i + 1) by {
            if a < j {
                assert(before[a].year != y);
            } else if a > j {
                assert(before[a - 1].year != y);
            }
        }
    }
}

/// The balance and the contributions of each year, latest year first. The
/// year of an entry is that of its date, except that for an RRSP
/// (`tax_shelter_type` "RRSP") an entry before the first day of the RRSP year
/// counts for the year before.
pub fn contributions(rows: &Vec<ContributionRow>, tax_shelter_type: &str) -> (r: Vec<GetContributionsResult>)
    requires
        years_in_range(rows@, tax_shelter_type@ == "RRSP"@),
        forall|i: int| 0 <= i < rows@.len() ==> contribution_row_in_range(#[trigger] rows@[i]),
    ensures
        contributions_upto(r@, rows@, tax_shelter_type@ == "RRSP"@, rows@.len() as int),
        forall|k: int| 0 <= k < r@.len() ==> (#[trigger] r@[k]).ytd_balance.scale == 2,
{
    let is_rrsp = tax_shelter_type.to_string().eq(&"RRSP".to_string());
    let mut out: Vec<GetContributionsResult> = Vec::new();
    proof {
        reveal(years_decreasing);
        reveal(years_sourced);
        reveal(years_covered);
        reveal(sums_match);
    }
    let n = rows.len();
    for i in 0..n
        invariant
            n == rows@.len(),
            is_rrsp == (tax_shelter_type@ == "RRSP"@),
            years_in_range(rows@, is_rrsp),
            contributions_upto(out@, rows@, is_rrsp, i as int),
            forall|k: int| 0 <= k < out@.len() ==> (#[trigger] out@[k]).ytd_balance.scale == 2,
            forall|k: int| 0 <= k < rows@.len() ==> contribution_row_in_range(#[trigger] rows@[k]),
    {
        let row = &rows[i];
        assert(0 <= contribution_year(rows@[i as int], is_rrsp) <= u32::MAX);
        assert(contribution_row_in_range(rows@[i as int]));
        let (first_month, first_day) = rrsp_first_day(row.date.year);
        let before = row.date.month < first_month || (row.date.month == first_month && row.date.day
            < first_day);
        let y: u32 = if is_rrsp && before {
            (row.date.year - 1) as u32
        } else {
            row.date.year as u32
        };
        let balance = row.forex_rate.mul(&row.unit).mul(&row.debit.sub(&row.credit)).round2();
        let contribution = row.forex_rate.mul(&row.debit);
        let mut j: usize = 0;
        while j < out.len() && out[j].year > y
            invariant
                j <= out@.len(),
                forall|k: int| 0 <= k < j ==> (#[trigger] out@[k]).year > y,
            decreases out@.len() - j,
        {
            j = j + 1;
        }
        let ghost before = out@;
        if j < out.len() && out[j].year == y {
            let b = out[j].ytd_balance.add(&balance);
            let c = out[j].ytd_contributions.add(&contribution);
            out.set(j, GetContributionsResult { year: y, ytd_balance: b, ytd_contributions: c });
            proof {
                lemma_update_year(before, out@, rows@, is_rrsp, i as int, j as int);
                assert forall|k: int| 0 <= k < out@.len() implies (#[trigger] out@[k]).ytd_balance.scale == 2 by {
                    if k != j {
                        assert(out@[k] == before[k]);
                    }
                }
            }
        } else {
            out.insert(
                j,
                GetContributionsResult {
                    year: y,
                    ytd_balance: Decimal::zero().add(&balance),
                    ytd_contributions: Decimal::zero().add(&contribution),
                },
            );
            proof {
                lemma_insert_year(before, out@, rows@, is_rrsp, i as int, j as int);
                assert forall|k: int| 0 <= k < out@.len() implies (#[trigger] out@[k]).ytd_balance.scale == 2 by {
                    if k < j {
                        assert(out@[k] == before[k]);
                    } else if k > j {
                        assert(out@[k] == before[k - 1]);
                    }
                }
            }
        }
    }
    out
}

} // verus!
