use cx::index::{build, legs, Anniversary, Group, Index, BASE_LEVEL, COLLAR_DOWN_BP, COLLAR_UP_BP};
use cx::num::{format_fixed, format_thousands, parse_date, parse_fixed, SCALE};
use cx::series::{Daily, Series};

fn fixed(s: &str) -> i128 {
    parse_fixed(s).expect("valid number")
}

fn series_with(prices: &[(&str, &str)], later: &[(&str, &str)]) -> Vec<(&'static str, Daily)> {
    legs()
        .iter()
        .map(|l| {
            let base = prices.iter().find(|(t, _)| *t == l.ticker).map(|(_, p)| fixed(p)).unwrap_or(fixed("100"));
            let next = later.iter().find(|(t, _)| *t == l.ticker).map(|(_, p)| fixed(p)).unwrap_or(base);
            (l.ticker, Daily { start: 0, values: vec![base, next] })
        })
        .collect()
}

#[test]
fn the_base_level_is_a_dollar_less_only_truncation() {
    let series = series_with(&[("BTC", "62626.5"), ("ETH", "3333.33"), ("CNY", "0.137"), ("GOLD", "2411.7")], &[]);
    let idx = build(&series, 0).expect("builds");
    let level = idx.level.values[0];
    assert!(level <= BASE_LEVEL);
    // one unit per leg plus each fix in whole dollars
    let slack: i128 = series.iter().map(|(_, d)| d.values[0] / SCALE + 1).sum();
    assert!(level >= BASE_LEVEL - slack, "level was {level}");
}

#[test]
fn tripling_every_price_triples_the_level_within_truncation() {
    let ps = [("BTC", "62626.5"), ("ETH", "3333.33"), ("CNY", "0.137"), ("GOLD", "2411.7")];
    let mut series = series_with(&ps, &[]);
    for (_, d) in series.iter_mut() {
        d.values[1] = d.values[0] * 3;
    }
    let idx = build(&series, 0).expect("builds");
    let (l0, l1) = (idx.level.values[0], idx.level.values[1]);
    assert!(3 * l0 <= l1 && l1 <= 3 * l0 + 8 * 2, "{l0} -> {l1}");
}

#[test]
fn unchanged_prices_leave_the_level_unchanged() {
    let series = series_with(&[("BTC", "62626.5"), ("OIL", "80.5")], &[]);
    let idx = build(&series, 0).expect("builds");
    assert_eq!(idx.level.values[0], idx.level.values[1]);
}

#[test]
fn gold_falling_to_nothing_costs_at_most_its_weight() {
    let series = series_with(&[("GOLD", "2411.7")], &[("GOLD", "0")]);
    let idx = build(&series, 0).expect("builds");
    let (l0, l1) = (idx.level.values[0], idx.level.values[1]);
    assert!(l1 <= l0);
    assert!(l1 >= l0 - BASE_LEVEL * 1500 / 10_000, "{l0} -> {l1}");
}

#[test]
fn the_basket_is_written_at_35_30_35() {
    let weight = |g: Group| -> i128 { legs().iter().filter(|l| l.group == g).map(|l| l.weight_bp).sum() };
    assert_eq!(weight(Group::Crypto), 3_500);
    assert_eq!(weight(Group::Fiat), 3_000);
    assert_eq!(weight(Group::Elements), 3_500);
}

fn path_of(level: impl Fn(usize) -> i128, btc: impl Fn(usize) -> i128) -> Vec<Anniversary> {
    let start = parse_date("2016-01-01").expect("date");
    let idx = Index {
        base_day: start,
        quantities: Vec::new(),
        level: Daily { start, values: (0..1500).map(level).collect() },
    };
    let ruler = Daily { start, values: (0..1500).map(btc).collect() };
    assert!(idx.path_is_computable(&ruler));
    idx.collared_path(&ruler)
}

#[test]
fn each_year_moves_within_the_collar_or_sits_on_the_floor() {
    let level = |i: usize| fixed("1") * (1 + (i as i128 % 700) / 100);
    let btc = |i: usize| fixed("1000") + i as i128 * fixed("0.5");
    let start = parse_date("2016-01-01").expect("date");
    let path = path_of(level, btc);
    assert!(path.len() >= 4);
    let s0 = path[0].uncollared;
    for pair in path.windows(2) {
        let (p, r) = (pair[0].rent_btc, pair[1].rent_btc);
        let x = btc((pair[1].day - start) as usize);
        let floor = s0.max(BASE_LEVEL * SCALE / x);
        assert!(r >= p * COLLAR_DOWN_BP / 10_000);
        assert!(r <= p * COLLAR_UP_BP / 10_000 || r == floor);
        assert!(r >= floor, "rent fell below the dual floor");
    }
}

#[test]
fn normalising_twice_changes_nothing() {
    let mut s = Series::new();
    for (d, v) in [(5, 50), (1, 10), (5, 55), (3, 30), (1, 11)] {
        s.push(d, v);
    }
    s.normalise();
    let once: Vec<_> = (0..s.len()).map(|i| s.point(i)).collect();
    s.normalise();
    let twice: Vec<_> = (0..s.len()).map(|i| s.point(i)).collect();
    assert_eq!(once, twice);
    assert_eq!(once, vec![Some((1, 11)), Some((3, 30)), Some((5, 55))]);
}

#[test]
fn carrying_forward_holds_the_latest_print() {
    let mut s = Series::new();
    s.push(10, 1);
    s.push(12, 2);
    s.push(20, 3);
    assert_eq!(s.carry_forward(11, 21), Some(vec![1, 2, 2, 2, 2, 2, 2, 2, 2, 3, 3]));
    assert_eq!(s.carry_forward(9, 12), None);
}

#[test]
fn thousands_separators_are_the_only_difference() {
    for v in [0, 1, -1, fixed("999.999"), fixed("1234567.891"), fixed("-62626.5"), fixed("1000000000")] {
        for places in [0, 2, 9] {
            assert_eq!(format_thousands(v, places).replace(',', ""), format_fixed(v, places));
        }
    }
}

#[test]
fn nine_places_read_back_exactly() {
    for v in [0, 1, -1, fixed("13542.820869565"), fixed("-0.000000001"), i128::MAX, i128::MIN + 1] {
        assert_eq!(parse_fixed(&format_fixed(v, 9)), Some(v));
    }
}
