use cx::num::{parse_date, parse_fixed};
use cx::series::{all_positive, max_daily_ratio, Daily, Series};

fn day(iso: &str) -> i64 {
    parse_date(iso).expect("valid date")
}

fn fixed(s: &str) -> i128 {
    parse_fixed(s).expect("valid number")
}

#[test]
fn normalise_sorts_and_keeps_last_restatement() {
    let mut s = Series::new();
    s.push(day("2026-01-03"), fixed("3"));
    s.push(day("2026-01-01"), fixed("1"));
    s.push(day("2026-01-01"), fixed("9"));
    s.normalise();
    assert_eq!(s.len(), 2);
    assert_eq!(s.point(0), Some((day("2026-01-01"), fixed("9"))));
    assert_eq!(s.last(), Some((day("2026-01-03"), fixed("3"))));
}

#[test]
fn carry_forward_fills_gaps_and_refuses_to_invent_history() {
    let mut s = Series::new();
    s.push(day("2026-01-01"), fixed("10"));
    s.push(day("2026-01-04"), fixed("20"));
    s.normalise();

    let dense = s
        .carry_forward(day("2026-01-01"), day("2026-01-05"))
        .expect("covered");
    assert_eq!(
        dense,
        vec![fixed("10"), fixed("10"), fixed("10"), fixed("20"), fixed("20")]
    );

    // nothing observed at or before the start: refuse rather than backfill
    assert!(s
        .carry_forward(day("2025-12-30"), day("2026-01-02"))
        .is_none());
}

#[test]
fn trailing_mean_averages_the_window_and_shifts_the_start() {
    let daily = Daily {
        start: day("2026-01-01"),
        values: vec![fixed("1"), fixed("2"), fixed("3"), fixed("4")],
    };
    let mean = daily.trailing_mean_min(2, 2).expect("window fits");
    assert_eq!(mean.start, day("2026-01-02"));
    assert_eq!(mean.values, vec![fixed("1.5"), fixed("2.5"), fixed("3.5")]);
    assert!(daily.trailing_mean_min(9, 9).is_none());
}

#[test]
fn a_young_series_averages_over_what_it_has() {
    let daily = Daily {
        start: day("2026-01-01"),
        values: vec![fixed("1"), fixed("2"), fixed("3")],
    };
    // window of 365, but only three days exist and two are enough to start
    let mean = daily.trailing_mean_min(365, 2).expect("min window met");
    assert_eq!(mean.start, day("2026-01-02"));
    assert_eq!(mean.values, vec![fixed("1.5"), fixed("2")]);
}

#[test]
fn the_window_stops_growing_once_full() {
    let daily = Daily {
        start: day("2026-01-01"),
        values: vec![fixed("10"), fixed("20"), fixed("30"), fixed("40")],
    };
    let mean = daily.trailing_mean_min(2, 1).expect("builds");
    // day 3 averages only days 3 and 4, not the whole history
    assert_eq!(mean.values.last().copied(), Some(fixed("35")));
}

#[test]
fn guards_catch_bad_fixes() {
    let good = Daily {
        start: 0,
        values: vec![fixed("10"), fixed("11")],
    };
    assert!(all_positive(&good));
    assert_eq!(max_daily_ratio(&good), fixed("1.1"));

    let bad = Daily {
        start: 0,
        values: vec![fixed("10"), fixed("0")],
    };
    assert!(!all_positive(&bad));
}
