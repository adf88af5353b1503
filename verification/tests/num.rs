use cx::num::{fdiv, fmul, format_date, format_fixed, format_thousands, parse_date, parse_fixed, SCALE};

#[test]
fn parses_decimals_to_fixed_point() {
    assert_eq!(parse_fixed("1"), Some(SCALE));
    assert_eq!(parse_fixed("0.5"), Some(SCALE / 2));
    assert_eq!(parse_fixed("-2.25"), Some(-(SCALE * 9 / 4)));
    assert_eq!(parse_fixed("13542.820869565219"), Some(13_542_820_869_565));
    assert_eq!(parse_fixed(""), None);
    assert_eq!(parse_fixed("1e5"), None);
}

#[test]
fn formats_round_trip() {
    let v = parse_fixed("62626.5").expect("parses");
    assert_eq!(format_fixed(v, 2), "62626.50");
    assert_eq!(format_thousands(v, 2), "62,626.50");
    assert_eq!(format_fixed(parse_fixed("100").expect("parses"), 0), "100");
}

#[test]
fn multiplies_and_divides_in_fixed_point() {
    let two = parse_fixed("2").expect("parses");
    let three = parse_fixed("3").expect("parses");
    assert_eq!(fmul(two, three), parse_fixed("6").expect("parses"));
    assert_eq!(fdiv(three, two), parse_fixed("1.5"));
    assert_eq!(fdiv(three, 0), None);
}

#[test]
fn dates_round_trip_across_leap_years() {
    for iso in ["1970-01-01", "2016-02-29", "2026-09-07", "2000-03-01"] {
        let days = parse_date(iso).expect("parses");
        assert_eq!(format_date(days), iso);
    }
    assert_eq!(parse_date("2026-13-01"), None);
    assert_eq!(
        parse_date("2026-09-08").expect("parses") - parse_date("2026-09-07").expect("parses"),
        1
    );
}
