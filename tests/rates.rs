use exchange_rates::decimal::Rate;
use exchange_rates::feed::{get_curs_map, get_url, pass_dates, trailing_window, url_for_date_text, ValCurs, Valute};
use exchange_rates::parse::{is_plain_literal, normalize_decimal_string, parse_exponent, parse_rate};
use exchange_rates::reconcile::{base_currency, currency_rows, get_currencies, plan_rows, ReconcileError};
use exchange_rates::scheduler::{next_backoff, Decision, SchedulerState};
use exchange_rates::store::{upsert_action, ExchangeRate, RateTable, UpsertAction};
use rust_decimal::Decimal;
use chrono::{Datelike, NaiveDate};

fn feed(entries: &[(&str, &str)]) -> ValCurs {
    ValCurs {
        valute: entries
            .iter()
            .map(|(c, r)| Valute { char_code: c.to_string(), vunit_rate: r.to_string() })
            .collect(),
    }
}

fn day(y: i32, m: u32, d: u32) -> i32 {
    NaiveDate::from_ymd_opt(y, m, d).unwrap().num_days_from_ce()
}

fn dec(r: &Rate) -> Decimal {
    Decimal::from_i128_with_scale(r.mantissa, r.scale)
}

fn row<'a>(t: &'a RateTable, from: &str, to: &str, date: i32) -> Option<&'a ExchangeRate> {
    t.rows.iter().find(|r| r.from_currency == from && r.to_currency == to && r.date == date)
}

#[test]
fn normalize_replaces_commas() {
    assert_eq!(normalize_decimal_string("90,5"), "90.5");
    assert_eq!(normalize_decimal_string("1,2,3"), "1.2.3");
    assert_eq!(normalize_decimal_string(""), "");
}

#[test]
fn normalize_is_idempotent() {
    for s in ["3,14", "1.5E2", ",,", "abc", "100,25"] {
        let once = normalize_decimal_string(s);
        assert_eq!(normalize_decimal_string(&once), once);
    }
}

#[test]
fn parse_scientific_notation_exactly() {
    let r = parse_rate("1.5E2").unwrap();
    assert_eq!((r.mantissa, r.scale), (150, 0));
    assert_eq!(dec(&r), Decimal::from(150));
}

#[test]
fn parse_comma_decimal_exactly() {
    let r = parse_rate("3,14").unwrap();
    assert_eq!((r.mantissa, r.scale), (314, 2));
    assert_eq!(dec(&r).to_string(), "3.14");
}

#[test]
fn parse_negative_exponent() {
    let r = parse_rate("1.23E-4").unwrap();
    assert_eq!((r.mantissa, r.scale), (123, 6));
    let r = parse_rate("2e+3").unwrap();
    assert_eq!((r.mantissa, r.scale), (2000, 0));
    let r = parse_rate("250E1").unwrap();
    assert_eq!((r.mantissa, r.scale), (2500, 0));
}

#[test]
fn parse_rejects_malformed() {
    assert!(parse_rate("").is_none());
    assert!(parse_rate("abc").is_none());
    assert!(parse_rate("1.2.3").is_none());
    assert!(parse_rate("1E").is_none());
    assert!(parse_rate("1E1234567890").is_none());
    assert!(parse_rate("1E-29").is_none());
    assert!(parse_rate("12345678901234567890123456789").is_none());
}

#[test]
fn parse_wider_literals() {
    let r = parse_rate("+1,5").unwrap();
    assert_eq!((r.mantissa, r.scale), (15, 1));
    let r = parse_rate(".5").unwrap();
    assert_eq!((r.mantissa, r.scale), (5, 1));
    let r = parse_rate("1.").unwrap();
    assert_eq!((r.mantissa, r.scale), (1, 0));
    let r = parse_rate("1E0000000002").unwrap();
    assert_eq!((r.mantissa, r.scale), (100, 0));
    let r = parse_rate("0E99999999999").unwrap();
    assert_eq!((r.mantissa, r.scale), (0, 0));
    assert!(parse_rate(".").is_none());
    assert!(parse_rate("1E-99999999999").is_none());
}

#[test]
fn plain_literal_check() {
    assert!(is_plain_literal("90.5"));
    assert!(is_plain_literal("-0.25"));
    assert!(!is_plain_literal("90,5"));
    assert!(!is_plain_literal("-"));
    assert!(is_plain_literal("+1"));
    assert!(is_plain_literal(".5"));
    assert!(is_plain_literal("1."));
    assert!(!is_plain_literal("."));
    assert!(!is_plain_literal("+-1"));
}

#[test]
fn exponent_reading() {
    assert_eq!(parse_exponent("-4"), Some(-4));
    assert_eq!(parse_exponent("+12"), Some(12));
    assert_eq!(parse_exponent("007"), Some(7));
    assert_eq!(parse_exponent("-"), None);
    assert_eq!(parse_exponent("1x"), None);
    assert_eq!(parse_exponent("0000000002"), Some(2));
    assert_eq!(parse_exponent("-123456789012"), Some(-1_000_000_000));
}

#[test]
fn curs_map_drops_bad_entries_and_keeps_last() {
    let m = get_curs_map(&feed(&[("USD", "90,5"), ("XXX", "n/a"), ("USD", "91,0"), ("EUR", "100,25")]));
    assert_eq!(m.entries.len(), 3);
    let usd = m.get(&"USD".to_string()).unwrap();
    assert_eq!((usd.mantissa, usd.scale), (910, 1));
    assert!(m.get(&"XXX".to_string()).is_none());
    assert!(m.get(&"GBP".to_string()).is_none());
}

#[test]
fn reciprocal_of_rate() {
    let q = Rate::new(4, 0).reciprocal().unwrap();
    assert_eq!(dec(&q), Decimal::new(25, 2));
    assert!(Rate::new(0, 3).reciprocal().is_none());
}

#[test]
fn numeric_equality() {
    assert!(Rate::new(150, 2).equals(&Rate::new(15, 1)));
    assert!(!Rate::new(150, 2).equals(&Rate::new(15, 2)));
}

#[test]
fn scenario_four_rows_written() {
    let date = day(2025, 1, 10);
    let rates = get_curs_map(&feed(&[("USD", "90,5"), ("EUR", "100,25")]));
    let mut table = RateTable::new();
    assert!(table.reconcile(date, &rates, &get_currencies(), 1000).is_ok());
    assert_eq!(table.rows.len(), 4);
    let usd = row(&table, "USD", "RUB", date).unwrap();
    assert_eq!(dec(&usd.rate).to_string(), "90.5");
    let rub_usd = row(&table, "RUB", "USD", date).unwrap();
    assert!(dec(&rub_usd.rate).to_string().starts_with("0.0110497"));
    let eur = row(&table, "EUR", "RUB", date).unwrap();
    assert_eq!(dec(&eur.rate).to_string(), "100.25");
    let rub_eur = row(&table, "RUB", "EUR", date).unwrap();
    assert!(dec(&rub_eur.rate).to_string().starts_with("0.0099750"));
    for r in &table.rows {
        assert_eq!(r.created_at, 1000);
        assert_eq!(r.updated_at, 1000);
    }
}

#[test]
fn reverse_row_is_reciprocal() {
    let date = day(2025, 1, 10);
    let rates = get_curs_map(&feed(&[("USD", "90,5"), ("EUR", "100,25")]));
    let mut table = RateTable::new();
    table.reconcile(date, &rates, &get_currencies(), 1).unwrap();
    for code in ["USD", "EUR"] {
        let fwd = dec(&row(&table, code, "RUB", date).unwrap().rate);
        let rev = dec(&row(&table, "RUB", code, date).unwrap().rate);
        assert_eq!(rev, Decimal::ONE / fwd);
    }
}

#[test]
fn second_reconcile_writes_nothing() {
    let date = day(2025, 1, 10);
    let rates = get_curs_map(&feed(&[("USD", "90,5"), ("EUR", "100,25")]));
    let mut table = RateTable::new();
    table.reconcile(date, &rates, &get_currencies(), 1000).unwrap();
    table.reconcile(date, &rates, &get_currencies(), 2000).unwrap();
    assert_eq!(table.rows.len(), 4);
    assert!(table.rows.iter().all(|r| r.updated_at == 1000));
}

#[test]
fn changed_rate_updates_one_row() {
    let date = day(2025, 1, 10);
    let mut table = RateTable::new();
    let first = get_curs_map(&feed(&[("USD", "90,5"), ("EUR", "100,25")]));
    table.reconcile(date, &first, &get_currencies(), 1000).unwrap();
    let before = table.rows.clone();
    let second = get_curs_map(&feed(&[("USD", "91"), ("EUR", "100,250")]));
    table.reconcile(date, &second, &get_currencies(), 2000).unwrap();
    assert_eq!(table.rows.len(), 4);
    let changed: Vec<_> = table
        .rows
        .iter()
        .zip(before.iter())
        .filter(|(a, b)| a.updated_at != b.updated_at)
        .map(|(a, _)| (a.from_currency.clone(), a.to_currency.clone()))
        .collect();
    assert_eq!(changed, vec![("USD".to_string(), "RUB".to_string()), ("RUB".to_string(), "USD".to_string())]);
    let usd = row(&table, "USD", "RUB", date).unwrap();
    assert_eq!(dec(&usd.rate), Decimal::from(91));
    assert_eq!(usd.created_at, 1000);
    assert_eq!(usd.id, before[0].id);
}

#[test]
fn upsert_action_decisions() {
    let stored = Rate::new(905, 1);
    assert_eq!(upsert_action(None, &Rate::new(1, 0)), UpsertAction::Insert);
    assert_eq!(upsert_action(Some(stored), &Rate::new(9050, 2)), UpsertAction::Keep);
    assert_eq!(upsert_action(Some(stored), &Rate::new(906, 1)), UpsertAction::Update);
}

#[test]
fn missing_rate_aborts_without_rows_for_currency() {
    let date = day(2025, 1, 10);
    let rates = get_curs_map(&feed(&[("USD", "90,5")]));
    let mut table = RateTable::new();
    let err = table.reconcile(date, &rates, &get_currencies(), 5).unwrap_err();
    match err {
        ReconcileError::MissingRate { currency, date: d } => {
            assert_eq!(currency, "EUR");
            assert_eq!(d, date);
        }
        other => panic!("unexpected error {:?}", other),
    }
    assert_eq!(table.rows.len(), 2);
    assert!(table.rows.iter().all(|r| r.from_currency != "EUR" && r.to_currency != "EUR"));
}

#[test]
fn zero_rate_is_division_by_zero() {
    let rates = get_curs_map(&feed(&[("USD", "0,0"), ("EUR", "100,25")]));
    let (rows, err) = plan_rows(3, &rates, &get_currencies());
    assert!(rows.is_empty());
    assert!(matches!(err, Some(ReconcileError::DivisionByZero { ref currency, date: 3 }) if currency == "USD"));
}

#[test]
fn plan_rows_pairs() {
    let rates = get_curs_map(&feed(&[("EUR", "100,25"), ("USD", "90,5")]));
    let (rows, err) = plan_rows(9, &rates, &get_currencies());
    assert!(err.is_none());
    let keys: Vec<_> = rows.iter().map(|r| (r.from_currency.as_str(), r.to_currency.as_str())).collect();
    assert_eq!(keys, vec![("USD", "RUB"), ("RUB", "USD"), ("EUR", "RUB"), ("RUB", "EUR")]);
    assert_eq!(base_currency(), "RUB");
}

#[test]
fn backoff_sequence() {
    let mut delays = vec![];
    let mut d = 0;
    for failures in 0..6u32 {
        d = next_backoff(failures, d);
        delays.push(d);
    }
    assert_eq!(delays, vec![5, 8, 13, 21, 34, 55]);
    assert_eq!(next_backoff(3, u64::MAX), u64::MAX);
}

#[test]
fn backoff_rounds_golden_ratio() {
    assert_eq!(next_backoff(1, 20000), 32361);
    assert_eq!(next_backoff(4, 1_000_000), 1_618_034);
    assert_eq!(next_backoff(0, 1234), 5);
    assert_eq!(next_backoff(1, 0), 0);
}

#[test]
fn loop_stops_after_eleventh_failure() {
    let mut s = SchedulerState::initial();
    let mut now = 0u64;
    for k in 1..=11u32 {
        assert_eq!(s.decide(now + 1_000_000), Decision::Run);
        s = s.after_pass(now, false);
        assert_eq!(s.consecutive_failures, k);
        now += 1_000_000;
    }
    assert_eq!(s.decide(now + 1_000_000), Decision::Stop);
}

#[test]
fn backoff_delays_next_attempt() {
    let s = SchedulerState::initial().on_failure(100);
    assert_eq!(s.backoff_secs, 5);
    assert_eq!(s.decide(104), Decision::Wait);
    assert_eq!(s.decide(105), Decision::Run);
}

#[test]
fn success_resets_and_schedules() {
    let s = SchedulerState::initial().on_failure(10).on_failure(20).on_success(7200);
    assert_eq!(s.consecutive_failures, 0);
    assert_eq!(s.backoff_secs, 0);
    assert_eq!(s.last_success, Some(7200));
    assert_eq!(s.last_attempt, None);
    assert_eq!(s.decide(7200 + 60), Decision::Wait);
    assert_eq!(s.decide(7200 + 1200), Decision::Run);
    assert_eq!(s.decide(7200 + 3600), Decision::Run);
    let late = SchedulerState::initial().on_success(3599);
    assert_eq!(late.decide(3600), Decision::Run);
}

#[test]
fn feed_url_for_date() {
    assert_eq!(
        get_url(day(2025, 1, 10)).unwrap(),
        "https://cbr.ru/scripts/XML_daily.asp?date_req=10/01/2025"
    );
    assert_eq!(url_for_date_text("x"), "https://cbr.ru/scripts/XML_daily.asp?date_req=x");
    assert!(get_url(i32::MAX).is_none());
}

#[test]
fn pass_window_dates() {
    let today = day(2025, 1, 10);
    let (start, end) = trailing_window(today).unwrap();
    let dates = pass_dates(start, end).unwrap();
    assert_eq!(dates.len(), 8);
    assert_eq!(dates[0], today + 1);
    assert_eq!(dates[7], today - 6);
    assert!(pass_dates(5, 4).is_none());
    assert!(trailing_window(i32::MIN).is_none());
}

#[test]
fn default_currencies() {
    assert_eq!(get_currencies(), vec!["USD".to_string(), "EUR".to_string()]);
}

#[test]
fn currency_rows_pair() {
    let (fwd, back) = currency_rows(&"USD".to_string(), 12, Rate::new(905, 1), Rate::new(11, 3));
    assert_eq!((fwd.from_currency.as_str(), fwd.to_currency.as_str(), fwd.date), ("USD", "RUB", 12));
    assert_eq!((fwd.rate.mantissa, fwd.rate.scale), (905, 1));
    assert_eq!((back.from_currency.as_str(), back.to_currency.as_str(), back.date), ("RUB", "USD", 12));
    assert_eq!((back.rate.mantissa, back.rate.scale), (11, 3));
}
