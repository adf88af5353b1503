use cx::fetch::{fred_body_readable, frankfurter_body_readable, lbma_body_readable, FetchError};
use cx::index::{legs, IndexError};
use cx::chart::{log_ticks, x_labels};
use cx::num::{date_readable, parse_date, parse_fixed};

fn fixed(s: &str) -> i128 {
    parse_fixed(s).expect("valid number")
}

#[test]
fn a_date_cut_inside_a_character_is_caught_before_reading() {
    assert!(date_readable("2016-01-01"));
    assert!(date_readable("2016-01-0"));
    // the tenth byte falls inside the two-byte é
    assert!(!date_readable("2016-01-0é"));
    assert!(fred_body_readable("observation_date,X\n2016-01-04,36.34\n"));
    assert!(!fred_body_readable("observation_date,X\n2016-01-0é,5\n"));
    // a missing observation never reaches the date reader
    assert!(fred_body_readable("observation_date,X\n2016-01-0é,.\n"));
    assert!(lbma_body_readable(r#"[{"d":"2016-01-04","v":[1073.5]}]"#));
    assert!(!lbma_body_readable(r#"[{"d":"2016-01-0é","v":[1073.5]}]"#));
    assert!(frankfurter_body_readable(r#"{"rates":{"2016-01-04":{"CNY":6.5}}}"#));
    assert!(!frankfurter_body_readable(r#"{"rates":{"2016-01-0é":{"CNY":6.5}}}"#));
}

#[test]
fn errors_say_what_went_wrong() {
    assert_eq!(IndexError::MissingLeg("UX").message(), "no series supplied for leg UX");
    assert_eq!(IndexError::WeightsDoNotSum(9_999).message(), "weights sum to 9999 bp, expected 10000");
    assert_eq!(IndexError::BaseFixUnavailable("CU").message(), "leg CU has no fix on the base date");
    assert_eq!(IndexError::NonPositiveFix("BTC").message(), "leg BTC carries a non-positive fix");
    assert_eq!(IndexError::NoOverlap.message(), "legs share no common date range");
    assert_eq!(FetchError::Curl("x".to_string()).message(), "curl: x");
    assert_eq!(FetchError::Empty("u".to_string()).message(), "empty response: u");
    assert_eq!(FetchError::Cache("k".to_string()).message(), "cache: k");
    assert_eq!(FetchError::Parse("p".to_string()).message(), "parse: p");
}

#[test]
fn a_yuan_prints_with_more_decimals_than_a_barrel() {
    let all = legs();
    let places: Vec<u32> = all.iter().map(|l| l.fix_places()).collect();
    assert_eq!(places, vec![2, 2, 6, 0, 2, 2, 2, 2]);
    assert_eq!(all[0].quantity_places(fixed("2")), 3);
    assert_eq!(all[0].quantity_places(fixed("0.05")), 5);
    assert_eq!(all[0].quantity_places(fixed("0.0005")), 7);
    assert_eq!(all[0].quantity_places(fixed("0.000001")), 9);
}

#[test]
fn a_log_axis_climbs_the_one_two_five_ladder() {
    let ticks = log_ticks(fixed("50"), fixed("500"));
    assert_eq!(ticks, vec![fixed("50"), fixed("100"), fixed("200"), fixed("500"), fixed("1000")]);
}

#[test]
fn axis_labels_follow_the_range() {
    let day = |iso: &str| parse_date(iso).expect("date");
    let week: Vec<(i64, i128)> = (0..8).map(|i| (day("2026-01-01") + i, 1)).collect();
    let labels = x_labels(&week, Some(7));
    assert_eq!(labels, vec![(0, "01-01".to_string()), (2, "01-03".to_string()), (4, "01-05".to_string()), (6, "01-07".to_string())]);

    let year: Vec<(i64, i128)> = (0..5).map(|i| (day("2025-12-15") + 20 * i, 1)).collect();
    // 12-15, 01-04, 01-24, 02-13, 03-05
    let labels = x_labels(&year, Some(365));
    assert_eq!(labels, vec![(1, "2026-01".to_string()), (4, "2026-03".to_string())]);

    let all: Vec<(i64, i128)> = (0..4).map(|i| (day("2024-01-10") + 365 * i, 1)).collect();
    let labels = x_labels(&all, None);
    assert_eq!(labels, vec![(0, "2024".to_string()), (1, "2025".to_string()), (2, "2026".to_string()), (3, "2027".to_string())]);
}
