use bigdecimal::num_bigint::BigInt;
use bigdecimal::BigDecimal;
use std::str::FromStr;
use transaction::contributions::{contribution_years_fit, contributions, get_rrsp_first_day, rrsp_first_day, ContributionRow};
use transaction::date::LocalDateTime;
use transaction::decimal::Decimal;
use transaction::inactivity::should_make_a_move;
use transaction::lookup::single_id;
use transaction::text::{chars_lt, chars_of};
use transaction::upsert::count_upserts;

fn d(s: &str) -> Decimal {
    Decimal::parse(s).unwrap()
}

fn big(x: &Decimal) -> BigDecimal {
    BigDecimal::new(BigInt::from_signed_bytes_le(&x.mantissa), x.scale)
}

fn assert_dec(x: &Decimal, s: &str) {
    assert_eq!(big(x), BigDecimal::from_str(s).unwrap(), "expected {}", s);
}

fn contribution(ts: i64, year: i32, month: u32, day: u32, fx: &str, unit: &str, debit: &str, credit: &str) -> ContributionRow {
    ContributionRow {
        date: LocalDateTime { timestamp: ts, nanosecond: 0, year, month, day },
        forex_rate: d(fx),
        unit: d(unit),
        debit: d(debit),
        credit: d(credit),
    }
}

#[test]
fn contributions_per_calendar_year() {
    let rows = vec![
        contribution(100, 2022, 1, 1, "1", "1", "1000", "0"),
        contribution(200, 2023, 5, 1, "1", "1", "500", "0"),
        contribution(300, 2023, 6, 1, "1", "1", "0", "200"),
        contribution(400, 2022, 7, 1, "1.25", "2", "10", "0"),
    ];
    let r = contributions(&rows, "TFSA");
    assert_eq!(r.len(), 2);
    assert_eq!(r[0].year, 2023);
    assert_dec(&r[0].ytd_balance, "300");
    assert_dec(&r[0].ytd_contributions, "500");
    assert_eq!(r[1].year, 2022);
    assert_dec(&r[1].ytd_balance, "1025");
    assert_dec(&r[1].ytd_contributions, "1012.5");
}

#[test]
fn rrsp_entries_before_the_first_day_count_for_the_year_before() {
    let rows = vec![
        contribution(100, 2023, 2, 28, "1", "1", "1000", "0"),
        contribution(200, 2023, 3, 2, "1", "1", "300", "0"),
    ];
    let r = contributions(&rows, "RRSP");
    assert_eq!(r.len(), 2);
    assert_eq!(r[0].year, 2023);
    assert_dec(&r[0].ytd_contributions, "300");
    assert_eq!(r[1].year, 2022);
    assert_dec(&r[1].ytd_contributions, "1000");
    let tfsa = contributions(&rows, "TFSA");
    assert_eq!(tfsa.len(), 1);
    assert_dec(&tfsa[0].ytd_contributions, "1300");
}

#[test]
fn rrsp_first_day_is_sixty_one_days_after_new_year() {
    assert_eq!(rrsp_first_day(2023), (3, 2));
    assert_eq!(rrsp_first_day(2024), (3, 1));
    assert_eq!(rrsp_first_day(1900), (3, 2));
    assert_eq!(rrsp_first_day(2000), (3, 1));
    let rows = vec![
        contribution(100, 2023, 3, 1, "1", "1", "10", "0"),
        contribution(200, 2024, 3, 1, "1", "1", "20", "0"),
    ];
    let r = contributions(&rows, "RRSP");
    assert_eq!(r.len(), 2);
    assert_eq!(r[0].year, 2024);
    assert_dec(&r[0].ytd_contributions, "20");
    assert_eq!(r[1].year, 2022);
    assert_dec(&r[1].ytd_contributions, "10");
    assert_eq!(contributions(&rows, "rrsp")[1].year, 2023);
    let leap_day = vec![contribution(300, 2024, 2, 29, "1", "1", "5", "0")];
    assert_eq!(contributions(&leap_day, "RRSP")[0].year, 2023);
}

#[test]
fn contributions_round_the_balance_change() {
    let rows = vec![contribution(100, 2024, 4, 1, "1.333", "1", "1", "0")];
    let r = contributions(&rows, "TFSA");
    assert_dec(&r[0].ytd_balance, "1.33");
    assert_dec(&r[0].ytd_contributions, "1.333");
    assert!(contributions(&Vec::new(), "RRSP").is_empty());
}

#[test]
fn inactivity_moves_within_two_weeks_of_the_fee() {
    assert!(should_make_a_move(365, 352));
    assert!(!should_make_a_move(365, 351));
    assert!(should_make_a_move(365, 353));
    assert!(should_make_a_move(30, 40));
    assert!(!should_make_a_move(30, 0));
}

#[test]
fn single_id_of_a_lookup() {
    assert_eq!(single_id(&vec![]), None);
    assert_eq!(single_id(&vec![42]), Some(42));
}

#[test]
fn count_upserts_counts_single_row_changes() {
    assert_eq!(count_upserts(&vec![1, 0, 1, 2, 1]), (5, 3));
    assert_eq!(count_upserts(&vec![]), (0, 0));
}

#[test]
fn strings_compare_by_characters() {
    let a = chars_of("Alice");
    let b = chars_of("Bob");
    let ab = chars_of("Al");
    assert_eq!(a, vec!['A', 'l', 'i', 'c', 'e']);
    assert!(chars_lt(&a, &b));
    assert!(!chars_lt(&b, &a));
    assert!(chars_lt(&ab, &a));
    assert!(!chars_lt(&a, &a));
    assert!(chars_lt(&chars_of(""), &ab));
}

#[test]
fn get_rrsp_first_day_is_local_midnight_of_the_first_day() {
    let d = get_rrsp_first_day(2023).unwrap();
    assert_eq!((d.year, d.month, d.day, d.nanosecond), (2023, 3, 2, 0));
    let midnight = chrono::NaiveDate::from_ymd_opt(2023, 3, 2)
        .unwrap()
        .and_hms_opt(0, 0, 0)
        .unwrap()
        .and_local_timezone(chrono::Local)
        .single()
        .unwrap();
    assert_eq!(d.timestamp, midnight.timestamp());
    let leap = get_rrsp_first_day(2024).unwrap();
    assert_eq!((leap.month, leap.day), (3, 1));
}

#[test]
fn contribution_years_fit_checks_the_counted_year() {
    let early = vec![contribution(100, 0, 1, 15, "1", "1", "10", "0")];
    assert!(contribution_years_fit(&early, "TFSA"));
    assert!(!contribution_years_fit(&early, "RRSP"));
    let later = vec![contribution(100, 0, 4, 15, "1", "1", "10", "0")];
    assert!(contribution_years_fit(&later, "RRSP"));
    let r = contributions(&later, "RRSP");
    assert_eq!(r[0].ytd_balance.scale, 2);
}
