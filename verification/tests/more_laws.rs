use cx::calculator::html;
use cx::index::{build, legs, rate_span, Anniversary};
use cx::num::{format_fixed, parse_fixed, SCALE};
use cx::chart::linear_ticks;
use cx::series::{max_daily_ratio, Daily};

fn fixed(s: &str) -> i128 {
    parse_fixed(s).expect("valid number")
}

#[test]
fn fewer_places_read_back_truncated_toward_zero() {
    assert_eq!(format_fixed(1_999_999_999, 2), "1.99");
    assert_eq!(parse_fixed(&format_fixed(1_999_999_999, 2)), Some(1_990_000_000));
    assert_eq!(format_fixed(-500_000_000, 1), "-0.5");
    assert_eq!(parse_fixed(&format_fixed(-1_234_567_891, 3)), Some(-1_234_000_000));
    assert_eq!(parse_fixed(&format_fixed(-1_734_567_891, 0)), Some(-1_000_000_000));
    assert_eq!(parse_fixed(&format_fixed(987_654_321, 9)), Some(987_654_321));
}

#[test]
fn the_worst_move_ignores_direction_and_non_positive_fixes() {
    let forward = Daily { start: 0, values: vec![fixed("10"), fixed("30"), fixed("15"), 0, fixed("1")] };
    let mut back = forward.clone();
    back.values.reverse();
    assert_eq!(max_daily_ratio(&forward), 3 * SCALE);
    assert_eq!(max_daily_ratio(&back), max_daily_ratio(&forward));
    // a lone fix, however large, is no move at all
    let lone = Daily { start: 0, values: vec![i128::MAX] };
    assert_eq!(max_daily_ratio(&lone), SCALE);
    // a large fix beside a non-positive one is skipped, not multiplied
    let beside = Daily { start: 0, values: vec![i128::MAX, -1, 0] };
    assert_eq!(max_daily_ratio(&beside), SCALE);
}

#[test]
fn the_shares_add_up_to_the_whole_less_truncation() {
    let series: Vec<(&'static str, Daily)> = legs()
        .iter()
        .enumerate()
        .map(|(k, l)| {
            let base = fixed("100");
            let later = fixed("100") + (k as i128 + 1) * 7_777_777_777;
            (l.ticker, Daily { start: 0, values: vec![base, later] })
        })
        .collect();
    let index = build(&series, 0).expect("builds");
    let shares = index.current_shares(&series);
    let sum: i128 = shares.iter().map(|(_, s)| *s).sum();
    assert!(sum <= 10_000, "sum was {sum}");
    assert!(sum > 10_000 - shares.len() as i128, "sum was {sum}");
}

#[test]
fn passing_legs_always_build_from_the_base_date() {
    // legs that start at different days but all cover the base date
    let series: Vec<(&'static str, Daily)> = legs()
        .iter()
        .enumerate()
        .map(|(k, l)| (l.ticker, Daily { start: -(k as i64), values: vec![fixed("50"); 3 + k] }))
        .collect();
    let index = build(&series, 0).expect("every leg passes");
    assert_eq!(index.level.start, 0);
    assert_eq!(index.level.values.len(), 3);
}

#[test]
fn the_default_follows_its_key_in_the_script() {
    let h = html("12.5");
    assert!(h.contains("cpi:12.5,g:10"));
    assert!(!h.contains("__INDEXATION__"));
}

fn at(invoice: i128) -> Anniversary {
    Anniversary { day: 0, uncollared: 0, rent_btc: 0, invoice }
}

#[test]
fn a_rate_needs_two_anniversaries_and_a_positive_start() {
    assert_eq!(rate_span(&[]), None);
    assert_eq!(rate_span(&[at(5)]), None);
    assert_eq!(rate_span(&[at(0), at(5)]), None);
    assert_eq!(rate_span(&[at(-3), at(5), at(9)]), None);
    assert_eq!(rate_span(&[at(4), at(5), at(9)]), Some((4, 9, 2)));
}

#[test]
fn a_sign_digits_and_a_point_read_as_their_value() {
    assert_eq!(parse_fixed("0.0000000019"), Some(1));
    assert_eq!(parse_fixed("+.5"), Some(500_000_000));
    assert_eq!(parse_fixed("-12."), Some(-12 * SCALE));
    assert_eq!(parse_fixed("7"), Some(7 * SCALE));
    for bad in ["", "-", ".", "1.2.3", "1e5", "+-1"] {
        assert_eq!(parse_fixed(bad), None, "{bad:?}");
    }
    // one past what an i128 holds
    assert_eq!(parse_fixed("170141183460469231731687303716"), None);
    assert_eq!(parse_fixed("170141183460469231731687303715"), Some(170141183460469231731687303715 * SCALE));
}

#[test]
fn a_trailing_mean_ends_where_its_series_ends() {
    let d = Daily { start: 100, values: vec![fixed("1"), fixed("2"), fixed("3"), fixed("4"), fixed("5")] };
    let m = d.trailing_mean_min(3, 2).expect("enough history");
    assert_eq!(m.start, 101);
    assert_eq!(m.start + m.values.len() as i64, d.start + d.values.len() as i64);
    assert_eq!(m.values, vec![fixed("1.5"), fixed("2"), fixed("3"), fixed("4")]);
}

#[test]
fn an_empty_range_carries_nothing() {
    let mut s = cx::series::Series::new();
    s.push(0, fixed("1"));
    s.normalise();
    assert_eq!(s.carry_forward(5, 4), None);
    assert_eq!(s.carry_forward(0, 2), Some(vec![fixed("1"); 3]));
}

#[test]
fn four_to_six_gridlines_span_a_linear_range() {
    let ranges = [
        ("1", "2"),
        ("100", "100"),
        ("6900", "6910"),
        ("0.5", "0.51"),
        ("1", "1000"),
        ("13542.82", "13999.07"),
        ("0.000000001", "0.000000002"),
    ];
    for (lo, hi) in ranges {
        let (lo, hi) = (fixed(lo), fixed(hi));
        let ticks = linear_ticks(lo, hi);
        assert!((4..=6).contains(&ticks.len()), "{lo}..{hi}: {} ticks", ticks.len());
        assert!(ticks[0] <= lo && *ticks.last().unwrap() >= hi, "{lo}..{hi} not bracketed");
        let step = ticks[1] - ticks[0];
        assert!(step > 0);
        assert!(ticks.windows(2).all(|w| w[1] - w[0] == step), "{lo}..{hi} uneven");
    }
    // one to two units: the finest round step in six lines is a fifth
    let fifths: Vec<i128> = ["1", "1.2", "1.4", "1.6", "1.8", "2"].iter().map(|s| fixed(s)).collect();
    assert_eq!(linear_ticks(fixed("1"), fixed("2")), fifths);
    // a flat range still gets four lines, the lowest at the value
    let flat: Vec<i128> = ["100", "100.01", "100.02", "100.03"].iter().map(|s| fixed(s)).collect();
    assert_eq!(linear_ticks(fixed("100"), fixed("100")), flat);
}

#[test]
fn a_window_longer_than_the_series_covers_the_series() {
    let d = Daily { start: 0, values: vec![fixed("2"), fixed("4"), fixed("9")] };
    let long = d.trailing_mean_min(usize::MAX, 2).expect("enough history");
    let whole = d.trailing_mean_min(3, 2).expect("enough history");
    assert_eq!(long.values, whole.values);
    assert_eq!(long.values, vec![fixed("3"), fixed("5")]);
}
