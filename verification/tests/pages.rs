use cx::calculator::slider_default;
use cx::chart::{ranges, view_scale, view_svg, ChartView, ViewScale, PAD_B, PAD_T, VIEW_H};
use cx::graph::{change_pct, monthly_closes, render_history, render_readme, signed};
use cx::index::{build, legs, Index};
use cx::num::{parse_fixed, SCALE};
use cx::publish::can_publish;
use cx::series::{Daily, Series};
use cx::site::{group_class, render, render_json};
use cx::index::Group;

fn fixed(s: &str) -> i128 {
    parse_fixed(s).expect("valid number")
}

fn flat_series(len: usize) -> Vec<(&'static str, Daily)> {
    legs()
        .iter()
        .map(|l| {
            (
                l.ticker,
                Daily {
                    start: 0,
                    values: vec![fixed("100"); len],
                },
            )
        })
        .collect()
}

fn coverage() -> Vec<(&'static str, String, usize)> {
    let mut s = Series::new();
    s.push(0, fixed("100"));
    s.push(2, fixed("100"));
    legs().iter().map(|l| (l.ticker, s.span_text(), 3)).collect()
}

fn height(scale: &ViewScale, v: i128) -> i64 {
    let plot_h = VIEW_H - PAD_T - PAD_B;
    let span = (scale.y_hi - scale.y_lo).max(1);
    let t = (v - scale.y_lo) as f64 / span as f64;
    PAD_T + plot_h - (t * plot_h as f64).round() as i64
}

fn views(level: &Daily) -> Vec<ChartView> {
    ranges()
        .into_iter()
        .map(|(key, label, days)| {
            let scale = view_scale(level, days);
            let tick_ys: Vec<i64> = scale.ticks.iter().map(|t| height(&scale, *t)).collect();
            let point_ys: Vec<i64> = scale.points.iter().map(|(_, v)| height(&scale, *v)).collect();
            let (svg, points_json) = view_svg(&scale, days, &tick_ys, &point_ys);
            ChartView { key, label, svg, points_json, logarithmic: scale.logarithmic }
        })
        .collect()
}

#[test]
fn a_flat_index_is_publishable() {
    let series = flat_series(3);
    let idx = build(&series, 0).expect("builds");
    assert!(can_publish(&idx, &series));
}

#[test]
fn readme_prints_the_level_and_the_basket() {
    let series = flat_series(3);
    let idx = build(&series, 0).expect("builds");
    let page = render_readme(&idx, &series).expect("renders");
    assert!(page.starts_with("---\ntags: cyberia, protocol, cybernomics, cx\n"));
    assert!(page.contains("the level is a price: $1.00 on 1970-01-03, against $1 on 1970-01-01."));
    assert!(page.contains("| BTC | crypto | 20.0% | 20% |\n"));
    assert!(page.contains("| UX | elements | 5.0% | 5% |\n"));
    assert!(page.ends_with("so the obligation carries no numéraire.\n"));
}

#[test]
fn pages_refuse_an_index_without_a_level() {
    let series = flat_series(3);
    let idx = Index {
        base_day: 0,
        quantities: Vec::new(),
        level: Daily { start: 0, values: Vec::new() },
    };
    assert_eq!(render_readme(&idx, &series).err(), Some("no index level".to_string()));
    assert_eq!(render_history(&idx, &series, &[]).err(), Some("no index level".to_string()));
    assert_eq!(render(&idx, &series, &[], "4").err(), Some("no index level".to_string()));
}

#[test]
fn history_reads_the_decade() {
    let series = flat_series(3);
    let idx = build(&series, 0).expect("builds");
    let page = render_history(&idx, &series, &coverage()).expect("renders");
    assert!(page.contains("over the decade ending 1970-01-03. one CX is the basket that cost $1 on 1970-01-01; today it costs $1.00."));
    assert!(page.contains("- over the decade the basket returned +0.0% in dollars\n"));
    assert!(!page.contains("the last twelve months"));
    assert!(page.contains("- the range of the decade: 1.00 low, 1.00 high\n"));
    assert!(page.contains("| BTC | 0.0020000 | BTC | 100.00 | 20% |\n"));
    assert!(page.contains("| 1970-01 | 1.00 | — | — |\n"));
    assert!(page.contains("| BTC | Coinbase BTC-USD daily close | 1970-01-01 … 1970-01-03 · 3 observations |\n"));
    assert!(page.contains("leaves it at 35.0% crypto today."));
    assert!(page.contains("| CNY | 100.000000 | 15.0% |\n"));
    assert!(page.ends_with("generated 1970-01-03.\n"));
}

#[test]
fn history_without_coverage_prints_a_dash() {
    let series = flat_series(3);
    let idx = build(&series, 0).expect("builds");
    let page = render_history(&idx, &series, &[]).expect("renders");
    assert!(page.contains("| BTC | Coinbase BTC-USD daily close | — |\n"));
}

#[test]
fn json_carries_the_fix_as_data() {
    let series = flat_series(10);
    let idx = build(&series, 0).expect("builds");
    let json = render_json(&idx, &series, &coverage());
    assert!(json.starts_with("{\n  \"index\": \"CX\",\n  \"base_date\": \"1970-01-01\",\n"));
    assert!(json.contains("  \"date\": \"1970-01-10\",\n  \"level\": 1.0000,\n"));
    assert!(json.contains("{\"ticker\": \"BTC\", \"group\": \"crypto\", \"weight_bp\": 2000, \"unit\": \"BTC\", \"fix\": 100.000000, \"quantity\": 0.00200000, \"share_bp\": 2000, \"source\": \"Coinbase BTC-USD daily close\", \"coverage\": \"1970-01-01 … 1970-01-03 (3 observations)\"},\n"));
    assert!(json.contains("\"coverage\": \"1970-01-01 … 1970-01-03 (3 observations)\"}\n  ],\n"));
    assert!(json.ends_with("  \"history\": [\n    [\"1970-01-01\", 1.0000],\n    [\"1970-01-08\", 1.0000]\n  ]\n}\n"));
}

#[test]
fn json_of_an_empty_index_reads_day_zero() {
    let series = flat_series(3);
    let idx = Index {
        base_day: 0,
        quantities: Vec::new(),
        level: Daily { start: 5, values: Vec::new() },
    };
    let json = render_json(&idx, &series, &[]);
    assert!(json.contains("  \"date\": \"1970-01-01\",\n  \"level\": 0.0000,\n"));
    assert!(json.ends_with("  \"legs\": [\n  ],\n  \"history\": [\n\n  ]\n}\n"));
}

#[test]
fn the_page_shows_the_level_the_basket_and_the_pricer() {
    let series = flat_series(3);
    let idx = build(&series, 0).expect("builds");
    let chart = views(&idx.level);
    let page = render(&idx, &series, &chart, &slider_default(None)).expect("renders");
    assert!(page.contains("<title>CX 1.00 — century index · Cyberia</title>"));
    assert!(page.contains("<button class=\"tab on\" data-range=\"7d\" role=\"tab\">7D</button><button class=\"tab\" data-range=\"1m\""));
    assert!(page.contains("dollars per CX · fix of 1970-01-03 · hover the line for any day"));
    assert!(page.contains("<div class=\"seg crypto\" style=\"flex:2000\" title=\"BTC — 20%\"><i>20</i></div>"));
    assert!(page.contains("<span><span class=\"d fiat\"></span>fiat <b>30.0%</b></span>"));
    assert!(page.contains("<td class=\"n\">20%</td><td class=\"n\">20.0%</td></tr>"));
    assert!(page.contains("the basket ran to crypto 35.0% · fiat 30.0% · elements 35.0%."));
    assert!(page.contains("cpi:4,"));
    assert!(page.contains("const views = {\"7d\":{\"svg\":\""));
    assert!(page.ends_with("</html>\n"));
}

#[test]
fn the_page_needs_a_chart_view() {
    let series = flat_series(3);
    let idx = build(&series, 0).expect("builds");
    assert_eq!(render(&idx, &series, &[], "4").err(), Some("no chart views".to_string()));
}

#[test]
fn view_svg_is_escaped_into_the_page_script() {
    let series = flat_series(3);
    let idx = build(&series, 0).expect("builds");
    let chart = vec![ChartView {
        key: "k",
        label: "K",
        svg: "a\"b\\c".to_string(),
        points_json: "[]".to_string(),
        logarithmic: true,
    }];
    let page = render(&idx, &series, &chart, "4").expect("renders");
    assert!(page.contains("const views = {\"k\":{\"svg\":\"a\\\"b\\\\c\",\"pts\":[],\"log\":true}};"));
}

#[test]
fn changes_are_percent_with_a_sign() {
    assert_eq!(change_pct(fixed("110"), fixed("100")), Some(fixed("10")));
    assert_eq!(change_pct(fixed("90"), fixed("100")), Some(fixed("-10")));
    assert_eq!(change_pct(fixed("90"), 0), None);
    assert_eq!(signed(fixed("10"), 1), "+10.0");
    assert_eq!(signed(fixed("-2.25"), 1), "-2.2");
    assert_eq!(signed(0, 1), "+0.0");
}

#[test]
fn monthly_closes_keep_the_last_day_of_each_month() {
    // 1970-01-30 to 1970-02-02
    let level = Daily { start: 29, values: vec![1, 2, 3, 4] };
    assert_eq!(monthly_closes(&level), vec![(30, 2), (32, 4)]);
}

#[test]
fn groups_have_their_own_colours() {
    assert_eq!(group_class(Group::Crypto), "crypto");
    assert_eq!(group_class(Group::Fiat), "fiat");
    assert_eq!(group_class(Group::Elements), "elements");
}

#[test]
fn the_slider_opens_within_the_collar() {
    assert_eq!(slider_default(None), "4");
    assert_eq!(slider_default(Some(fixed("12.34"))), "12.3");
    assert_eq!(slider_default(Some(fixed("50"))), "35.0");
    assert_eq!(slider_default(Some(fixed("-20"))), "-15.0");
    assert_eq!(SCALE, 1_000_000_000);
}
