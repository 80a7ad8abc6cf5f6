use bigdecimal::num_bigint::BigInt;
use bigdecimal::BigDecimal;
use std::str::FromStr;
use transaction::date::LocalDateTime;
use transaction::decimal::{Decimal, InvalidDecimal};
use transaction::distribution::{build_distribution_ref_map, DistributionRefMap, DistributionRow};
use transaction::trade::{
    acb_entries, events_acb_defined, trade_entries, trades_fit, AcbEntryType, GlBreakDown, RawAcbEntry, TradeData, TradeRow, TradeType,
};

fn d(s: &str) -> Decimal {
    Decimal::parse(s).unwrap()
}

fn big(x: &Decimal) -> BigDecimal {
    BigDecimal::new(BigInt::from_signed_bytes_le(&x.mantissa), x.scale)
}

fn assert_dec(x: &Decimal, s: &str) {
    assert_eq!(big(x), BigDecimal::from_str(s).unwrap(), "expected {}", s);
}

fn day(timestamp: i64, year: i32) -> LocalDateTime {
    LocalDateTime { timestamp, nanosecond: 0, year, month: 1, day: 1 }
}

fn buy(person_id: i64, security_id: i64, ts: i64, unit: &str, price: &str) -> TradeRow {
    TradeRow {
        person_id,
        security_id,
        date: day(ts, 2023),
        forex_rate: None,
        unit: unit.to_string(),
        debit: Some(price.to_string()),
        credit: None,
    }
}

fn sell(person_id: i64, security_id: i64, ts: i64, unit: &str, price: &str) -> TradeRow {
    TradeRow {
        person_id,
        security_id,
        date: day(ts, 2023),
        forex_rate: None,
        unit: unit.to_string(),
        debit: None,
        credit: Some(price.to_string()),
    }
}

fn zero_distribution(security_id: i64, distribution_id: i64, ex: i64, record: i64, payment: i64) -> DistributionRow {
    DistributionRow {
        security_id,
        distribution_id,
        ex_dividend_date: day(ex, 2023),
        record_date: day(record, 2023),
        payment_date: day(payment, 2023),
        total_cash_distribution: d("0"),
        total_non_cash_distribution: d("0"),
        is_percent: false,
        return_of_capital: d("0"),
        capital_gain: d("0"),
        capital_gain_pre_20240624: d("0"),
        capital_gain_post_20240624: d("0"),
        eligible_dividend: d("0"),
        non_eligible_dividend: d("0"),
        foreign_business_income: d("0"),
        foreign_non_business_income: d("0"),
        other_income: d("0"),
        foreign_business_income_tax_paid: d("0"),
        foreign_non_business_income_tax_paid: d("0"),
        foreign_distribution: d("0"),
    }
}

fn holding_rows() -> Vec<TradeRow> {
    vec![
        buy(1, 7, 100, "10", "5"),
        buy(1, 7, 200, "10", "7"),
        sell(1, 7, 300, "5", "8"),
    ]
}

#[test]
fn trade_entries_track_running_units() {
    let rows = vec![
        buy(1, 7, 100, "10", "5"),
        sell(1, 7, 200, "4", "6"),
        buy(1, 8, 300, "3", "2"),
        buy(2, 8, 400, "1", "2"),
        buy(2, 8, 500, "2.5", "2"),
    ];
    let v = trade_entries(&rows).unwrap();
    assert_eq!(v.len(), 5);
    assert_dec(&v[0].result.acc_unit, "10");
    assert_dec(&v[1].result.acc_unit, "6");
    assert_dec(&v[2].result.acc_unit, "3");
    assert_dec(&v[3].result.acc_unit, "1");
    assert_dec(&v[4].result.acc_unit, "3.5");
    assert_eq!(v[0].result.trade_type, TradeType::Buy);
    assert_eq!(v[1].result.trade_type, TradeType::Sell);
    assert_dec(&v[1].result.price, "6");
    assert_dec(&v[1].result.forex_rate, "1");
    assert_dec(&v[1].result.unit, "4");
    assert_eq!(v[2].person_id, 1);
    assert_eq!(v[2].security_id, 8);
}

#[test]
fn trade_entries_read_the_forex_rate() {
    let mut row = buy(1, 7, 100, "2", "10");
    row.forex_rate = Some("1.35".to_string());
    let v = trade_entries(&vec![row]).unwrap();
    assert_dec(&v[0].result.forex_rate, "1.35");
}

#[test]
fn trade_entries_fail_on_a_bad_decimal() {
    let rows = vec![buy(1, 7, 100, "ten", "5")];
    assert_eq!(trade_entries(&rows).err(), Some(InvalidDecimal));
    let mut bad_rate = buy(1, 7, 100, "1", "5");
    bad_rate.forex_rate = Some("x".to_string());
    assert_eq!(trade_entries(&vec![bad_rate]).err(), Some(InvalidDecimal));
}

#[test]
fn get_acc_unit_takes_the_latest_trade_before_the_date() {
    let rows = vec![
        buy(1, 7, 100, "10", "5"),
        buy(1, 7, 200, "10", "7"),
        sell(1, 7, 200, "3", "8"),
        sell(1, 7, 300, "5", "8"),
    ];
    let data = TradeData::new(trade_entries(&rows).unwrap(), DistributionRefMap::new());
    assert!(data.get_acc_unit(1, 7, &day(100, 2023)).is_none());
    assert_dec(&data.get_acc_unit(1, 7, &day(150, 2023)).unwrap(), "10");
    assert_dec(&data.get_acc_unit(1, 7, &day(250, 2023)).unwrap(), "17");
    assert_dec(&data.get_acc_unit(1, 7, &day(1000, 2023)).unwrap(), "12");
    assert!(data.get_acc_unit(2, 7, &day(1000, 2023)).is_none());
    assert!(data.get_acc_unit(1, 8, &day(1000, 2023)).is_none());
}

#[test]
fn get_owned_securities_lists_past_and_present_holdings() {
    let rows = vec![
        buy(1, 7, 100, "10", "5"),
        sell(1, 7, 200, "10", "6"),
        buy(1, 9, 300, "1", "1"),
        buy(2, 8, 300, "1", "1"),
    ];
    let data = TradeData::new(trade_entries(&rows).unwrap(), DistributionRefMap::new());
    let owned: Vec<i64> = data.get_owned_securities(1).into_iter().collect();
    assert_eq!(owned, vec![7, 9]);
    assert!(data.get_owned_securities(3).is_empty());
}

#[test]
fn get_acb_buys_then_sells() {
    let data = TradeData::new(trade_entries(&holding_rows()).unwrap(), DistributionRefMap::new());
    let h = data.get_acb(1, 7);
    assert_eq!(h.len(), 3);
    assert_eq!(h[0].entry_type, AcbEntryType::Buy);
    assert_dec(&h[0].amount, "50");
    assert_dec(&h[0].acb_change, "50");
    assert_dec(&h[0].capital_gl, "0");
    assert_dec(&h[0].acb, "50");
    assert_dec(&h[1].acb, "120");
    assert_eq!(h[2].entry_type, AcbEntryType::Sell);
    assert_dec(&h[2].amount, "40");
    assert_dec(&h[2].acb_change, "-30");
    assert_dec(&h[2].capital_gl, "10");
    assert_dec(&h[2].acb, "90");
}

#[test]
fn get_acb_running_total_on_an_example() {
    let data = TradeData::new(trade_entries(&holding_rows()).unwrap(), DistributionRefMap::new());
    let h = data.get_acb(1, 7);
    let mut acb = Decimal::zero();
    for e in h.iter() {
        acb = acb.add(&e.acb_change);
        assert!(acb.eq_value(&e.acb));
    }
}

#[test]
fn get_acb_orders_events_by_date() {
    let rows = vec![
        buy(1, 7, 300, "1", "3"),
        buy(1, 7, 100, "1", "1"),
        buy(1, 7, 200, "1", "2"),
    ];
    let data = TradeData::new(trade_entries(&rows).unwrap(), DistributionRefMap::new());
    let h = data.get_acb(1, 7);
    assert_eq!(h.len(), 3);
    assert_eq!(h[0].date.timestamp, 100);
    assert_eq!(h[1].date.timestamp, 200);
    assert_eq!(h[2].date.timestamp, 300);
    assert_dec(&h[2].acb, "6");
}

#[test]
fn get_acb_keeps_every_event_of_the_same_moment() {
    let rows = vec![buy(1, 7, 100, "1", "2"), buy(1, 7, 100, "1", "2"), buy(1, 7, 100, "2", "2")];
    let data = TradeData::new(trade_entries(&rows).unwrap(), DistributionRefMap::new());
    let h = data.get_acb(1, 7);
    assert_eq!(h.len(), 3);
    assert_dec(&h[0].unit, "1");
    assert_dec(&h[1].unit, "1");
    assert_dec(&h[2].unit, "2");
    assert_dec(&h[1].acb, "4");
    assert_dec(&h[2].acb, "8");
}

#[test]
fn get_acb_sale_share_of_a_third() {
    let rows = vec![buy(1, 7, 100, "3", "1"), sell(1, 7, 200, "1", "2")];
    let data = TradeData::new(trade_entries(&rows).unwrap(), DistributionRefMap::new());
    let h = data.get_acb(1, 7);
    assert_dec(&h[1].acb_change, "-1");
    assert_dec(&h[1].acb, "2");
    let third = BigDecimal::from_str("-1").unwrap() / BigDecimal::from_str("3").unwrap()
        * BigDecimal::from_str("3").unwrap();
    assert_eq!(big(&h[1].capital_gl), BigDecimal::from_str("2").unwrap() + third);
}

#[test]
fn get_acb_prices_in_home_currency() {
    let mut row = buy(1, 7, 100, "2", "10");
    row.forex_rate = Some("1.5".to_string());
    let data = TradeData::new(trade_entries(&vec![row]).unwrap(), DistributionRefMap::new());
    let h = data.get_acb(1, 7);
    assert_dec(&h[0].price, "15");
    assert_dec(&h[0].acb, "30");
}

#[test]
fn get_acb_with_distributions() {
    let mut dist = zero_distribution(7, 1, 350, 360, 370);
    dist.return_of_capital = d("0.5");
    dist.total_non_cash_distribution = d("0.2");
    let map = build_distribution_ref_map(&vec![dist]);
    let data = TradeData::new(trade_entries(&holding_rows()).unwrap(), map);
    let h = data.get_acb(1, 7);
    assert_eq!(h.len(), 5);
    assert_eq!(h[3].entry_type, AcbEntryType::ReturnOfCapital);
    assert_dec(&h[3].unit, "15");
    assert_dec(&h[3].amount, "7.5");
    assert_dec(&h[3].acb_change, "-7.5");
    assert_dec(&h[3].acb, "82.5");
    assert_eq!(h[4].entry_type, AcbEntryType::NonCashDistribution);
    assert_dec(&h[4].amount, "3");
    assert_dec(&h[4].capital_gl, "3");
    assert_dec(&h[4].acb, "85.5");
}

#[test]
fn acb_entries_rounds_the_change_of_a_sale() {
    let raws = vec![
        RawAcbEntry { date: day(1, 2023), entry_type: AcbEntryType::Buy, unit: d("3"), price: d("10") },
        RawAcbEntry { date: day(2, 2023), entry_type: AcbEntryType::Sell, unit: d("1"), price: d("12") },
    ];
    let h = acb_entries(&raws);
    assert_dec(&h[1].acb_change, "-10");
    assert_dec(&h[1].acb, "20");
    assert_dec(&h[1].capital_gl.round2(), "2");
    assert!(big(&h[1].capital_gl) > BigDecimal::from_str("2").unwrap());
    let raws2 = vec![
        RawAcbEntry { date: day(1, 2023), entry_type: AcbEntryType::Buy, unit: d("3"), price: d("1") },
        RawAcbEntry { date: day(2, 2023), entry_type: AcbEntryType::Sell, unit: d("1"), price: d("1") },
    ];
    let h2 = acb_entries(&raws2);
    assert_dec(&h2[1].acb_change, "-1");
    assert_dec(&h2[1].acb, "2");
}

#[test]
fn acb_entry_type_display() {
    assert_eq!(AcbEntryType::Buy.display(), "Buy");
    assert_eq!(AcbEntryType::Sell.display(), "Sell");
    assert_eq!(AcbEntryType::ReturnOfCapital.display(), "Return of Capital");
    assert_eq!(AcbEntryType::NonCashDistribution.display(), "Non-cash Distribution");
}

#[test]
fn gl_breakdown_default_add_and_activity() {
    let z = GlBreakDown::default();
    assert!(!z.has_activity());
    let mut g = GlBreakDown::default();
    g.eligible_dividend = d("1.25");
    assert!(g.has_activity());
    let mut h = GlBreakDown::default();
    h.eligible_dividend = d("2");
    h.foreign_business_income_tax_paid = d("0.3");
    let s = g.add(h);
    assert_dec(&s.eligible_dividend, "3.25");
    assert_dec(&s.foreign_business_income_tax_paid, "0.3");
    assert_dec(&s.other_income, "0");
    let s2 = s.add(GlBreakDown::default());
    assert_dec(&s2.eligible_dividend, "3.25");
}

#[test]
fn get_single_breakdown_sums_sales_and_distributions() {
    let mut dist = zero_distribution(7, 1, 250, 260, 270);
    dist.total_cash_distribution = d("0.4");
    dist.eligible_dividend = d("0.3");
    dist.other_income = d("0.1");
    let map = build_distribution_ref_map(&vec![dist]);
    let data = TradeData::new(trade_entries(&holding_rows()).unwrap(), map);
    let g = data.get_single_breakdown(1, 7, &Some(2023));
    assert_dec(&g.disposition_capital_gl, "10");
    assert_dec(&g.total_cash_distribution, "8");
    assert_dec(&g.eligible_dividend, "6");
    assert_dec(&g.other_income, "2");
    assert_dec(&g.return_of_capital, "0");
    assert!(g.has_activity());
    let other_year = data.get_single_breakdown(1, 7, &Some(2022));
    assert!(other_year.disposition_capital_gl.is_zero());
    assert!(!other_year.has_activity());
    let all = data.get_single_breakdown(1, 7, &None);
    assert_dec(&all.eligible_dividend, "6");
}

#[test]
fn acb_is_defined_unless_a_sale_meets_no_units() {
    let data = TradeData::new(trade_entries(&holding_rows()).unwrap(), DistributionRefMap::new());
    assert!(data.acb_is_defined(1, 7));
    assert!(data.acb_is_defined(2, 7));
    let rows = vec![buy(1, 7, 100, "2", "5"), sell(1, 7, 200, "2", "6"), sell(1, 7, 300, "1", "6")];
    let short = TradeData::new(trade_entries(&rows).unwrap(), DistributionRefMap::new());
    assert!(!short.acb_is_defined(1, 7));
}

#[test]
fn events_acb_defined_checks_each_sale() {
    let ok = vec![
        RawAcbEntry { date: day(1, 2023), entry_type: AcbEntryType::Buy, unit: d("1"), price: d("1") },
        RawAcbEntry { date: day(2, 2023), entry_type: AcbEntryType::Sell, unit: d("1"), price: d("1") },
    ];
    assert!(events_acb_defined(&ok));
    let bad = vec![RawAcbEntry { date: day(1, 2023), entry_type: AcbEntryType::Sell, unit: d("1"), price: d("1") }];
    assert!(!events_acb_defined(&bad));
    let roc_only = vec![RawAcbEntry {
        date: day(1, 2023),
        entry_type: AcbEntryType::ReturnOfCapital,
        unit: d("0"),
        price: d("1"),
    }];
    assert!(events_acb_defined(&roc_only));
}

#[test]
fn try_get_acb_and_breakdown() {
    let data = TradeData::new(trade_entries(&holding_rows()).unwrap(), DistributionRefMap::new());
    let h = data.try_get_acb(1, 7).unwrap();
    assert_dec(&h[2].acb, "90");
    let g = data.try_get_single_breakdown(1, 7, &None).unwrap();
    assert_dec(&g.disposition_capital_gl, "10");
    let rows = vec![sell(1, 7, 100, "1", "6")];
    let short = TradeData::new(trade_entries(&rows).unwrap(), DistributionRefMap::new());
    assert!(short.try_get_acb(1, 7).is_none());
    assert!(short.try_get_single_breakdown(1, 7, &Some(2023)).is_none());
}

#[test]
fn acb_history_is_in_cents() {
    let rows = vec![buy(1, 7, 100, "3", "3.333"), sell(1, 7, 200, "1", "4.005")];
    let data = TradeData::new(trade_entries(&rows).unwrap(), DistributionRefMap::new());
    let h = data.get_acb(1, 7);
    for e in h.iter() {
        assert!(e.amount.scale <= 2);
        assert!(e.acb_change.scale <= 2);
    }
    assert_dec(&h[0].amount, "10");
    assert_dec(&h[1].amount, "4.01");
    assert_dec(&h[1].acb_change, "-3.33");
    assert_dec(&h[1].acb, "6.67");
}

#[test]
fn breakdown_of_all_years_is_the_sum_of_the_years() {
    let mut first = zero_distribution(7, 1, 150, 160, 170);
    first.eligible_dividend = d("0.5");
    first.total_cash_distribution = d("0.5");
    let mut second = zero_distribution(7, 2, 250, 260, 270);
    second.record_date = day(260, 2024);
    second.eligible_dividend = d("0.25");
    second.total_cash_distribution = d("0.25");
    let map = build_distribution_ref_map(&vec![first, second]);
    let data = TradeData::new(trade_entries(&holding_rows()).unwrap(), map);
    let all = data.get_single_breakdown(1, 7, &None);
    let y2023 = data.get_single_breakdown(1, 7, &Some(2023));
    let y2024 = data.get_single_breakdown(1, 7, &Some(2024));
    let y2025 = data.get_single_breakdown(1, 7, &Some(2025));
    assert_dec(&y2023.eligible_dividend, "5");
    assert_dec(&y2024.eligible_dividend, "5");
    assert!(all.eligible_dividend.eq_value(&y2023.eligible_dividend.add(&y2024.eligible_dividend)));
    assert!(all.total_cash_distribution.eq_value(&y2023.total_cash_distribution.add(&y2024.total_cash_distribution)));
    assert!(y2025.eligible_dividend.is_zero());
    assert!(y2025.total_cash_distribution.is_zero());
}

#[test]
fn get_acc_unit_orders_within_a_second() {
    let mut rows = holding_rows();
    rows[1].date = day(150, 2023);
    rows[1].date.nanosecond = 250_000_000;
    let data = TradeData::new(trade_entries(&rows).unwrap(), DistributionRefMap::new());
    let mut at = day(150, 2023);
    at.nanosecond = 100_000_000;
    assert_dec(&data.get_acc_unit(1, 7, &at).unwrap(), "10");
    at.nanosecond = 300_000_000;
    assert_dec(&data.get_acc_unit(1, 7, &at).unwrap(), "20");
}

#[test]
fn acb_amounts_come_back_in_cents() {
    let data = TradeData::new(trade_entries(&holding_rows()).unwrap(), DistributionRefMap::new());
    for e in data.get_acb(1, 7).iter() {
        assert_eq!(e.amount.scale, 2);
        assert_eq!(e.acb_change.scale, 2);
        assert_eq!(e.acb.scale, 2);
    }
    assert_eq!(data.get_single_breakdown(1, 7, &None).disposition_capital_gl.scale, 2);
}

#[test]
fn trades_fit_checks_the_ledger_bounds() {
    let trades = trade_entries(&holding_rows()).unwrap();
    assert!(trades_fit(&trades));
    let far = vec![buy(1, 7, 100, "1e-600000000000000000", "5")];
    let far_trades = trade_entries(&far).unwrap();
    assert!(!trades_fit(&far_trades));
}
