use cx::index::{build, legs, Index, IndexError, BASE_LEVEL, COLLAR_UP_BP};
use cx::num::{days_from_civil, parse_fixed};
use cx::series::Daily;

fn fixed(s: &str) -> i128 {
    parse_fixed(s).expect("valid number")
}

fn flat(value: &str, len: usize) -> Daily {
    Daily {
        start: 0,
        values: vec![fixed(value); len],
    }
}

fn all_flat(len: usize) -> Vec<(&'static str, Daily)> {
    legs().iter().map(|l| (l.ticker, flat("100", len))).collect()
}

#[test]
fn weights_sum_to_ten_thousand_basis_points() {
    let total: i128 = legs().iter().map(|l| l.weight_bp).sum();
    assert_eq!(total, 10_000);
}

#[test]
fn index_reads_base_level_on_the_base_date() {
    let series = all_flat(3);
    let index = build(&series, 0).expect("builds");
    assert_eq!(index.level.values[0], BASE_LEVEL);
    // prices unchanged: the level stays put
    assert_eq!(index.level.values[2], BASE_LEVEL);
}

#[test]
fn doubling_every_price_doubles_the_level() {
    let mut series = all_flat(2);
    for (_, daily) in series.iter_mut() {
        daily.values[1] = fixed("200");
    }
    let index = build(&series, 0).expect("builds");
    assert_eq!(index.level.values[1], BASE_LEVEL * 2);
}

#[test]
fn a_leg_going_to_zero_costs_at_most_its_weight() {
    // an asset falling, even to zero, triggers nothing; the sleeve rides
    // down. BTC carries 2000bp, so the level floors at 80.
    let mut series = all_flat(2);
    for (ticker, daily) in series.iter_mut() {
        if *ticker == "BTC" {
            daily.values[1] = 1; // one unit above zero: still a price
        }
    }
    let index = build(&series, 0).expect("builds");
    let level = index.level.values[1];
    assert!(level < BASE_LEVEL * 81 / 100, "level was {level}");
    assert!(level > BASE_LEVEL * 79 / 100, "level was {level}");
}

#[test]
fn rejects_a_missing_or_unusable_leg() {
    let short: Vec<(&str, Daily)> = all_flat(2).into_iter().take(7).collect();
    assert!(matches!(build(&short, 0), Err(IndexError::MissingLeg("UX"))));

    let mut zeroed = all_flat(2);
    zeroed[0].1.values[0] = 0;
    assert!(matches!(build(&zeroed, 0), Err(IndexError::NonPositiveFix("BTC"))));
}

#[test]
fn shares_start_at_the_declared_weights() {
    let series = all_flat(2);
    let index = build(&series, 0).expect("builds");
    let shares = index.current_shares(&series);
    for (leg, share) in shares {
        assert_eq!(share, leg.weight_bp, "leg {}", leg.ticker);
    }
}

/// eleven anniversaries of daily values, starting at 2016-01-01.
fn daily(len: usize, f: impl Fn(usize) -> i128) -> Daily {
    Daily {
        start: days_from_civil(2016, 1, 1),
        values: (0..len).map(f).collect(),
    }
}

fn index_with(level: Daily) -> Index {
    Index {
        base_day: days_from_civil(2016, 1, 1),
        quantities: Vec::new(),
        level,
    }
}

#[test]
fn a_runaway_basket_is_capped_at_the_collar() {
    // the basket triples every year while the ruler stands still: the rent
    // may still only climb 35% a year
    let idx = index_with(daily(1500, |i| fixed("1") * (1 + (i as i128) / 365 * 2)));
    let btc = daily(1500, |_| fixed("1000"));
    let path = idx.collared_path(&btc);
    assert!(path.len() >= 4);
    for pair in path.windows(2) {
        let ratio = pair[1].rent_btc * 10_000 / pair[0].rent_btc;
        assert!(ratio <= COLLAR_UP_BP + 1, "rose {ratio} bp in one year");
    }
}

#[test]
fn a_collapsing_basket_is_held_by_the_floor() {
    // the basket falls away, but the sat floor holds the rent at year zero
    let idx = index_with(daily(1500, |i| {
        (fixed("1") - (i as i128) * fixed("0.0005")).max(fixed("0.001"))
    }));
    let btc = daily(1500, |_| fixed("1000"));
    let path = idx.collared_path(&btc);
    let first = path.first().expect("a first year").rent_btc;
    for a in &path {
        assert!(a.rent_btc >= first, "rent fell below the year-zero floor");
    }
}

#[test]
fn a_flat_world_never_moves_the_invoice() {
    let idx = index_with(daily(1500, |_| fixed("1")));
    let btc = daily(1500, |_| fixed("1000"));
    let path = idx.collared_path(&btc);
    let first = path.first().expect("a first year").invoice;
    for a in &path {
        assert_eq!(a.invoice, first);
    }
}

#[test]
fn the_path_lands_on_anniversaries() {
    let idx = index_with(daily(1500, |_| fixed("1")));
    let btc = daily(1500, |_| fixed("1000"));
    let path = idx.collared_path(&btc);
    assert_eq!(path[0].day, days_from_civil(2016, 1, 1));
    assert_eq!(path[1].day, days_from_civil(2017, 1, 1));
}
