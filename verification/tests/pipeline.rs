use cx::num::{days_from_civil, format_date, parse_date, parse_fixed, SCALE};
use cx::pipeline::{candle_slices, observations_fit, history_window, is_stale, merge_candles, prepare_leg};
use cx::series::Series;

fn fixed(s: &str) -> i128 {
    parse_fixed(s).expect("valid number")
}

fn day(iso: &str) -> i64 {
    parse_date(iso).expect("valid date")
}

fn daily_series(from: i64, days: i64, value: impl Fn(i64) -> i128) -> Series {
    let mut s = Series::new();
    for d in 0..days {
        s.push(from + d, value(d));
    }
    s
}

#[test]
fn the_window_reaches_ten_years_and_a_trailing_year_back() {
    let today = day("2026-03-01");
    let (base_day, raw_from) = history_window(today);
    assert_eq!(format_date(base_day), "2016-03-01");
    assert_eq!(raw_from, base_day - 365);
    // a leap day's anniversary lands on the first of March
    let (base_day, _) = history_window(day("2024-02-29"));
    assert_eq!(base_day, days_from_civil(2014, 2, 29));
    assert_eq!(format_date(base_day), "2014-03-01");
}

#[test]
fn a_clean_leg_becomes_its_trailing_average() {
    let s = daily_series(day("2025-01-01"), 200, |_| fixed("10"));
    let twap = prepare_leg("GOLD", &s, day("2025-01-01"), day("2025-07-19"), day("2025-06-01")).expect("averages");
    assert_eq!(twap.start, day("2025-01-01") + 89);
    assert_eq!(twap.values.len(), 200 - 89);
    assert!(twap.values.iter().all(|v| *v == fixed("10")));
}

#[test]
fn a_leg_never_starts_before_the_raw_window() {
    let s = daily_series(day("2024-01-01"), 400, |_| fixed("10"));
    let twap = prepare_leg("GOLD", &s, day("2024-06-01"), day("2025-01-01"), day("2024-12-01")).expect("averages");
    assert_eq!(twap.start, day("2024-06-01") + 89);
}

#[test]
fn each_refusal_names_the_leg() {
    let empty = Series::new();
    assert_eq!(
        prepare_leg("CU", &empty, 0, 400, 300).err(),
        Some("CU: no observations at all".to_string())
    );

    let late = daily_series(day("2025-01-05"), 10, |_| fixed("10"));
    assert_eq!(
        prepare_leg("CU", &late, day("2025-01-05"), day("2025-01-01"), day("2025-01-01")).err(),
        Some("CU: no observation at or before 2025-01-05".to_string())
    );

    let zero = daily_series(0, 200, |d| if d == 50 { 0 } else { fixed("10") });
    assert_eq!(
        prepare_leg("OIL", &zero, 0, 199, 150).err(),
        Some("OIL: a fix was zero or negative".to_string())
    );

    let jump = daily_series(0, 200, |d| if d < 100 { fixed("10") } else { fixed("100") });
    assert_eq!(
        prepare_leg("OIL", &jump, 0, 199, 150).err(),
        Some("OIL: a single day moved 10.00x — refusing the feed".to_string())
    );

    let short = daily_series(0, 50, |_| fixed("10"));
    assert_eq!(
        prepare_leg("UX", &short, 0, 49, 40).err(),
        Some("UX: fewer than 90 days of fixes".to_string())
    );

    let young = daily_series(day("2025-01-01"), 200, |_| fixed("10"));
    assert_eq!(
        prepare_leg("ETH", &young, day("2025-01-01"), day("2025-07-19"), day("2025-02-01")).err(),
        Some("ETH: its average only begins 2025-03-31, after the base date 2025-02-01".to_string())
    );
}

#[test]
fn a_quiet_source_is_stale_but_the_dollar_never_is() {
    let s = daily_series(0, 10, |_| SCALE);
    assert!(is_stale("CU", &s, 9 + 46));
    assert!(!is_stale("CU", &s, 9 + 45));
    assert!(!is_stale("USD", &s, 9 + 1000));
    assert!(!is_stale("CU", &Series::new(), 1000));
}

#[test]
fn candles_are_requested_in_slices_of_290_days() {
    assert_eq!(candle_slices(0, 600), vec![(0, 289), (290, 579), (580, 600)]);
    assert_eq!(candle_slices(10, 10), vec![(10, 10)]);
    assert!(candle_slices(10, 9).is_empty());
}

#[test]
fn slices_merge_into_one_normalised_series() {
    let mut a = Series::new();
    a.push(3, 30);
    a.push(1, 10);
    let mut b = Series::new();
    b.push(2, 20);
    b.push(3, 31);
    let merged = merge_candles("BTC-USD", &vec![a, b]).expect("merges");
    assert_eq!(merged.len(), 3);
    assert_eq!(merged.point(0), Some((1, 10)));
    assert_eq!(merged.last(), Some((3, 31)));
    assert_eq!(
        merge_candles("BTC-USD", &vec![Series::new()]).err(),
        Some("BTC-USD: no candles across the range".to_string())
    );
}

#[test]
fn observations_must_fit_the_calendar_and_the_fix_range() {
    let s = daily_series(0, 3, |_| fixed("10"));
    assert!(observations_fit(&s));
    let mut far = Series::new();
    far.push(i64::MAX, 1);
    assert!(!observations_fit(&far));
}
