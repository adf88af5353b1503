use cx::chart::{linear_ticks, ranges, sample, view_scale, view_svg, ChartView, ViewScale, PAD_B, PAD_T, VIEW_H};
use cx::num::{parse_fixed, SCALE};
use cx::series::Daily;

fn series(len: usize, f: impl Fn(usize) -> i128) -> Daily {
    Daily {
        start: 0,
        values: (0..len).map(f).collect(),
    }
}

/// The height of `v` on the plot, as the page builder places it.
fn height(scale: &ViewScale, v: i128) -> i64 {
    let plot_h = VIEW_H - PAD_T - PAD_B;
    let t = if scale.logarithmic {
        let f = |x: i128| (x as f64 / SCALE as f64).max(1e-9).ln();
        let (lo, hi, x) = (f(scale.y_lo), f(scale.y_hi), f(v));
        if (hi - lo).abs() < f64::EPSILON {
            0.0
        } else {
            ((x - lo) / (hi - lo)).clamp(0.0, 1.0)
        }
    } else {
        let span = (scale.y_hi - scale.y_lo).max(1);
        (v - scale.y_lo) as f64 / span as f64
    };
    PAD_T + plot_h - (t * plot_h as f64).round() as i64
}

fn views_of(level: &Daily) -> Vec<ChartView> {
    ranges()
        .into_iter()
        .map(|(key, label, days)| {
            let scale = view_scale(level, days);
            let tick_ys: Vec<i64> = scale.ticks.iter().map(|t| height(&scale, *t)).collect();
            let point_ys: Vec<i64> = scale.points.iter().map(|(_, v)| height(&scale, *v)).collect();
            let (svg, points_json) = view_svg(&scale, days, &tick_ys, &point_ys);
            ChartView {
                key,
                label,
                svg,
                points_json,
                logarithmic: scale.logarithmic,
            }
        })
        .collect()
}

#[test]
fn every_range_renders_a_path() {
    let level = series(4000, |i| parse_fixed("100").expect("n") + i as i128 * SCALE);
    let views = views_of(&level);
    assert_eq!(views.len(), 4);
    for v in &views {
        assert!(v.svg.contains("<path class=\"line\""), "{}", v.key);
        assert!(v.points_json.starts_with("[["), "{}", v.key);
        assert!(v.svg.contains("class=\"hover\""), "{}", v.key);
    }
    assert_eq!(views.iter().map(|v| v.label).collect::<Vec<_>>(), ["7D", "1M", "1Y", "ALL"]);
}

#[test]
fn a_short_flat_range_stays_linear_and_the_decade_goes_log() {
    // a week of a slow-moving average barely moves: linear
    let flat = series(400, |i| parse_fixed("100").expect("n") + (i % 3) as i128 * SCALE / 100);
    let views = views_of(&flat);
    assert!(!views[0].logarithmic, "7d should be linear");

    // a 60x climb over the whole series: log
    let steep = series(4000, |i| parse_fixed("100").expect("n") * (1 + i as i128 / 60));
    let views = views_of(&steep);
    assert!(views[3].logarithmic, "all should be logarithmic");
}

#[test]
fn short_ranges_sample_every_day() {
    let level = series(400, |i| parse_fixed("100").expect("n") + i as i128 * SCALE);
    let week = sample(&level, Some(7));
    assert_eq!(week.len(), 7);
    let month = sample(&level, Some(30));
    assert_eq!(month.len(), 30);
}

#[test]
fn a_series_shorter_than_the_range_is_not_padded() {
    let level = series(10, |i| parse_fixed("100").expect("n") + i as i128 * SCALE);
    let year = sample(&level, Some(365));
    assert_eq!(year.len(), 10);
}

#[test]
fn linear_ticks_bracket_the_data() {
    let ticks = linear_ticks(parse_fixed("6900").expect("n"), parse_fixed("6910").expect("n"));
    assert!(ticks.first().copied().unwrap_or(0) <= parse_fixed("6900").expect("n"));
    assert!(ticks.last().copied().unwrap_or(0) >= parse_fixed("6910").expect("n"));
    assert!(ticks.len() >= 2 && ticks.len() <= 8, "got {} ticks", ticks.len());
}
