use cx::fetch::{parse_coinbase_candles, parse_fred_csv, parse_frankfurter_cny, parse_lbma};
use cx::num::{format_date, parse_fixed};

#[test]
fn parses_fred_csv_and_skips_missing_days() {
    let csv = "observation_date,DCOILBRENTEU\n2016-01-04,36.34\n2016-01-05,.\n2016-01-06,34.19\n";
    let series = parse_fred_csv(csv).expect("parses");
    assert_eq!(series.len(), 2);
    let (day, value) = series.last().expect("has a last point");
    assert_eq!(format_date(day), "2016-01-06");
    assert_eq!(value, parse_fixed("34.19").expect("number"));
}

#[test]
fn parses_lbma_and_skips_null_fixes() {
    let json = r#"[{"d":"2016-01-04","v":[1073.5,730.1,null]},{"d":"2016-01-05","v":[null,null,null]}]"#;
    let series = parse_lbma(json).expect("parses");
    assert_eq!(series.len(), 1);
    assert_eq!(
        series.last().expect("point").1,
        parse_fixed("1073.5").expect("number")
    );
}

#[test]
fn parses_frankfurter_as_usd_per_yuan() {
    let json = r#"{"amount":1.0,"base":"USD","rates":{"2016-01-04":{"CNY":6.534},"2016-01-05":{"CNY":6.5209}}}"#;
    let series = parse_frankfurter_cny(json).expect("parses");
    assert_eq!(series.len(), 2);
    let (_, first) = series.last().expect("point");
    // 1 / 6.5209 ≈ 0.153353
    assert!(first > parse_fixed("0.15").expect("n"));
    assert!(first < parse_fixed("0.16").expect("n"));
}

#[test]
fn parses_coinbase_candles_by_close() {
    // 1454284800 = 2016-02-01
    let json = "[[1454284800,366.26,379,367.89,371.33,7931.2],[1454198400,365,382.5,378.46,367.95,5506.7]]";
    let series = parse_coinbase_candles(json).expect("parses");
    assert_eq!(series.len(), 2);
    let (day, close) = series.last().expect("point");
    assert_eq!(format_date(day), "2016-02-01");
    assert_eq!(close, parse_fixed("371.33").expect("number"));
}

#[test]
fn rejects_bodies_with_no_observations() {
    assert!(parse_fred_csv("observation_date,X\n").is_err());
    assert!(parse_lbma("[]").is_err());
    assert!(parse_coinbase_candles("[]").is_err());
}
