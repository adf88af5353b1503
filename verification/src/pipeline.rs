//! The decisions of a run: the window of history it publishes, and how each
//! leg's raw observations become the trailing average the index reads.

use crate::calendar::{civil_of, epoch_day};
use crate::chart::civil_of_point;
use crate::index::{DAY_BOUND, TWAP_WINDOW};
use crate::num::{date_text, days_from_civil, format_date, format_fixed, spec_format_fixed, trunc_div, SCALE};
use crate::series::{
    capped_window, lemma_bounded_sums_fit, carried, days_increasing, fixes_bounded, is_walked_to, lemma_walked_to, no_trailing_mean, trailing_means,
    pair_ratio, walked_to, worst_ratio, all_positive, max_daily_ratio, lemma_walk_exists, Daily, Series, FIX_LIMIT, MAX_SPAN_DAYS,
};
use crate::series::normal_form_of;
use vstd::prelude::*;

verus! {

/// How far back the published history reaches, in years.
pub const HISTORY_YEARS: i64 = 10;

/// A glitch guard: no leg of this basket moves fivefold in a day, so a jump
/// that size is a bad parse or a bad feed.
pub const MAX_DAILY_JUMP: i128 = 5 * SCALE;

/// The monthly legs print once a cycle; past this many days a quiet source is news.
pub const STALE_AFTER_DAYS: i64 = 45;

/// The shortest average the index publishes: a leg younger than the window
/// averages over what it has, but never over fewer days than this.
pub const MIN_TWAP_DAYS: usize = 90;

/// The base date of a run on `today`: the same calendar day, ten years back.
pub open spec fn base_day_for(today: int) -> int {
    let t = civil_of(today);
    epoch_day(t.0 - HISTORY_YEARS, t.1, t.2)
}

/// The base date of a run on `today`, and the first day of raw data it needs:
/// a full averaging window before the base date.
pub fn history_window(today: i64) -> (r: (i64, i64))
    requires
        -DAY_BOUND <= today <= DAY_BOUND,
    ensures
        r.0 == base_day_for(today as int),
        r.1 == r.0 - TWAP_WINDOW,
        -2 * DAY_BOUND <= r.0 <= DAY_BOUND,
{
    let (y, m, d) = civil_of_point(today);
    let base_day = days_from_civil(y - HISTORY_YEARS, m, d);
    proof {
        crate::calendar::lemma_years_apart(y - HISTORY_YEARS, m as int, d as int, HISTORY_YEARS as nat);
        crate::calendar::lemma_years_apart_at_most(y - HISTORY_YEARS, m as int, d as int, HISTORY_YEARS as nat);
    }
    (base_day, base_day - TWAP_WINDOW as i64)
}


/// Every observation falls within [`DAY_BOUND`] days of 1970 and carries a
/// fix within [`FIX_LIMIT`] of zero.
pub open spec fn observations_usable(p: Seq<(i64, i128)>) -> bool {
    forall|i: int| 0 <= i < p.len() ==> {
        &&& -DAY_BOUND <= (#[trigger] p[i]).0 <= DAY_BOUND
        &&& -FIX_LIMIT <= p[i].1 <= FIX_LIMIT
    }
}

/// Whether every observation of `s` is usable.
pub fn observations_fit(s: &Series) -> (b: bool)
    ensures
        b == observations_usable(s@),
{
    let mut i: usize = 0;
    while i < s.len()
        invariant
            0 <= i <= s@.len(),
            forall|j: int| 0 <= j < i ==> {
                &&& -DAY_BOUND <= (#[trigger] s@[j]).0 <= DAY_BOUND
                &&& -FIX_LIMIT <= s@[j].1 <= FIX_LIMIT
            },
        decreases s@.len() - i,
    {
        match s.point(i) {
            Some((day, value)) => {
                if day < -DAY_BOUND || day > DAY_BOUND || value < -FIX_LIMIT || value > FIX_LIMIT {
                    return false;
                }
            },
            None => {},
        }
        i = i + 1;
    }
    true
}

/// A leg whose source has gone quiet: its last observation is more than
/// [`STALE_AFTER_DAYS`] before `today`. The quote currency never goes stale.
pub open spec fn stale(ticker: Seq<char>, p: Seq<(i64, i128)>, today: int) -> bool {
    p.len() > 0 && today - p.last().0 > STALE_AFTER_DAYS && ticker != "USD"@
}

/// Whether the leg's source has gone quiet by `today`; it is still carried
/// forward, and the run says so.
pub fn is_stale(ticker: &str, s: &Series, today: i64) -> (b: bool)
    requires
        observations_usable(s@),
        -DAY_BOUND <= today <= DAY_BOUND,
    ensures
        b == stale(ticker@, s@, today as int),
{
    match s.last() {
        Some((last_day, _)) => {
            proof {
                assert(-DAY_BOUND <= s@[s@.len() - 1].0 <= DAY_BOUND);
            }
            today - last_day > STALE_AFTER_DAYS && !crate::text::str_eq(ticker, "USD")
        },
        None => false,
    }
}

/// The first day a leg's calendar covers: its first observation, but never
/// before the raw window opens.
pub open spec fn leg_start(p: Seq<(i64, i128)>, raw_from: int) -> int {
    if p[0].0 > raw_from { p[0].0 as int } else { raw_from }
}

/// Why a leg's observations cannot become an average, if they cannot: no
/// observations; none at or before the calendar's first day; a fix at or
/// below zero; a day's move past [`MAX_DAILY_JUMP`]; fewer than
/// [`MIN_TWAP_DAYS`] days; or an average that begins after the base date.
pub open spec fn leg_refusal(ticker: Seq<char>, p: Seq<(i64, i128)>, raw_from: int, today: int, base_day: int) -> Option<
    Seq<char>,
> {
    if p.len() == 0 {
        Some(ticker + ": no observations at all"@)
    } else {
        let start = leg_start(p, raw_from);
        match carried(p, start, today) {
            None => Some(ticker + ": no observation at or before "@ + date_text(start)),
            Some(v) => if !(forall|k: int| 0 <= k < v.len() ==> #[trigger] v[k] > 0) {
                Some(ticker + ": a fix was zero or negative"@)
            } else if worst_ratio(v) > MAX_DAILY_JUMP {
                Some(ticker + ": a single day moved "@ + spec_format_fixed(worst_ratio(v), 2) + "x \u{2014} refusing the feed"@)
            } else if no_trailing_mean(v.len() as int, TWAP_WINDOW as int, MIN_TWAP_DAYS as int) {
                Some(ticker + ": fewer than "@ + crate::text::decimal_digits(MIN_TWAP_DAYS as nat) + " days of fixes"@)
            } else if start + MIN_TWAP_DAYS - 1 > base_day {
                Some(ticker + ": its average only begins "@ + date_text(start + MIN_TWAP_DAYS - 1)
                    + ", after the base date "@ + date_text(base_day))
            } else {
                None
            }
        }
    }
}

/// Walking one day further passes at most one more observation of a
/// day-increasing series.
proof fn lemma_walk_step(p: Seq<(i64, i128)>, d: int)
    requires
        days_increasing(p),
    ensures
        walked_to(p, d) <= walked_to(p, d + 1) <= walked_to(p, d) + 1,
{
    let i = lemma_walk_exists(p, d);
    lemma_walked_to(p, d, i);
    let i2 = lemma_walk_exists(p, d + 1);
    lemma_walked_to(p, d + 1, i2);
    if i2 < i {
        assert(p[i2].0 <= d);
    }
    if i2 > i + 1 {
        assert(p[i].0 <= d + 1 && p[i].0 > d);
        assert(p[i + 1].0 <= d + 1);
        assert(p[i].0 < p[i + 1].0);
    }
}

/// A leg younger than the raw window starts at its own first print: when
/// its first observation comes after the raw window opens, its fixes are
/// positive, no two successive observations move more than fivefold, and
/// it has ninety days through `today` that begin by the base date, the leg
/// is not refused, and its average starts ninety days into its own history.
pub proof fn lemma_young_leg_starts_at_first_print(
    ticker: Seq<char>,
    p: Seq<(i64, i128)>,
    raw_from: int,
    today: int,
    base_day: int,
)
    requires
        days_increasing(p),
        p.len() > 0,
        raw_from < p[0].0,
        forall|i: int| 0 <= i < p.len() ==> #[trigger] p[i].1 > 0,
        forall|i: int| 0 <= i < p.len() - 1 ==> #[trigger] pair_ratio(p[i].1 as int, p[i + 1].1 as int) <= MAX_DAILY_JUMP,
        p[0].0 + MIN_TWAP_DAYS - 1 <= today,
        p[0].0 + MIN_TWAP_DAYS - 1 <= base_day,
    ensures
        leg_refusal(ticker, p, raw_from, today, base_day) is None,
        leg_start(p, raw_from) + MIN_TWAP_DAYS - 1 == p[0].0 + MIN_TWAP_DAYS - 1,
{
    let f = p[0].0 as int;
    assert(leg_start(p, raw_from) == f);
    crate::series::lemma_carry_forward_refuses(p, f, today);
    let v = carried(p, f, today)->0;
    assert(v.len() == today - f + 1);
    assert forall|k: int| 0 <= k < v.len() implies 1 <= walked_to(p, f + k) <= p.len() && #[trigger] v[k] > 0 by {
        let i = lemma_walk_exists(p, f + k);
        lemma_walked_to(p, f + k, i);
        if i == 0 {
            assert(p[0].0 > f + k);
        }
        assert(v[k] == p[walked_to(p, f + k) - 1].1);
    }
    crate::series::lemma_worst_is_max(v);
    assert(worst_ratio(v) <= MAX_DAILY_JUMP) by {
        if worst_ratio(v) != SCALE {
            let k = choose|k: int| 0 <= k < v.len() - 1 && worst_ratio(v) == #[trigger] pair_ratio(v[k] as int, v[k + 1] as int);
            lemma_walk_step(p, f + k);
            let w = walked_to(p, f + k);
            assert(v[k] == p[w - 1].1);
            assert(v[k + 1] == p[walked_to(p, f + k + 1) - 1].1);
            if walked_to(p, f + k + 1) == w {
                let x = v[k] as int;
                assert(x > 0);
                assert(trunc_div(x * SCALE, x) == SCALE) by (nonlinear_arith) requires x > 0;
            } else {
                assert(walked_to(p, f + k + 1) == w + 1);
                assert(pair_ratio(p[w - 1].1 as int, p[w - 1 + 1].1 as int) <= MAX_DAILY_JUMP);
            }
        }
    }
}

/// A carried calendar holds only values observed in `p`.
proof fn lemma_carried_observed(p: Seq<(i64, i128)>, from: int, to: int, k: int)
    requires
        carried(p, from, to) is Some,
        0 <= k <= to - from,
    ensures
        exists|j: int| 0 <= j < p.len() && carried(p, from, to)->0[k] == #[trigger] p[j].1,
{
    let w0 = lemma_walk_exists(p, from);
    lemma_walked_to(p, from, w0);
    let w = lemma_walk_exists(p, from + k);
    lemma_walked_to(p, from + k, w);
    assert(w0 >= 1);
    assert(p[0].0 <= from);
    assert(w >= 1);
    assert(carried(p, from, to)->0[k] == p[w - 1].1);
}

/// The worst daily move of a calendar is never below one.
proof fn lemma_worst_ratio_floor(v: Seq<i128>)
    ensures
        worst_ratio(v) >= SCALE,
    decreases v.len(),
{
    if v.len() >= 2 {
        lemma_worst_ratio_floor(v.drop_last());
    }
}

/// Appends `ticker` and `": "`-prefixed text.
fn message(ticker: &str, text: &str) -> (r: String)
    ensures
        r@ == ticker@ + text@,
{
    let mut out = String::from_str(ticker);
    out.append(text);
    out
}

/// A leg's trailing average from its raw observations: carried onto a dense
/// calendar from its first observation (never before `raw_from`) to
/// `today`, checked for non-positive fixes and implausible daily moves, and
/// averaged over the trailing year once [`MIN_TWAP_DAYS`] days exist. The
/// average must begin by `base_day`. `Err` names the first check that fails.
pub fn prepare_leg(ticker: &str, s: &Series, raw_from: i64, today: i64, base_day: i64) -> (r: Result<Daily, String>)
    requires
        observations_usable(s@),
        -4 * DAY_BOUND <= raw_from <= DAY_BOUND,
        -4 * DAY_BOUND <= base_day <= DAY_BOUND,
        -DAY_BOUND <= today <= DAY_BOUND,
    ensures
        match r {
            Ok(d) => {
                &&& leg_refusal(ticker@, s@, raw_from as int, today as int, base_day as int) is None
                &&& d.start == leg_start(s@, raw_from as int) + MIN_TWAP_DAYS - 1
                &&& d.values@ == trailing_means(
                    carried(s@, leg_start(s@, raw_from as int), today as int)->0,
                    TWAP_WINDOW as int,
                    MIN_TWAP_DAYS as int,
                )
            },
            Err(e) => leg_refusal(ticker@, s@, raw_from as int, today as int, base_day as int) == Some(e@),
        },
{
    let first = match s.first_day() {
        Some(d) => d,
        None => {
            return Err(message(ticker, ": no observations at all"));
        },
    };
    proof {
        assert(-DAY_BOUND <= s@[0].0 <= DAY_BOUND);
    }
    let start = if first > raw_from { first } else { raw_from };
    let values = match s.carry_forward(start, today) {
        Some(v) => v,
        None => {
            let mut e = message(ticker, ": no observation at or before ");
            e.append(format_date(start).as_str());
            return Err(e);
        },
    };
    let ghost v = values@;
    proof {
        assert forall|k: int| 0 <= k < v.len() implies -FIX_LIMIT <= #[trigger] v[k] <= FIX_LIMIT by {
            lemma_carried_observed(s@, start as int, today as int, k);
            let j = choose|j: int| 0 <= j < s@.len() && v[k] == #[trigger] s@[j].1;
            assert(-FIX_LIMIT <= s@[j].1 <= FIX_LIMIT);
        }
    }
    let dense = Daily { start, values };
    if !all_positive(&dense) {
        return Err(message(ticker, ": a fix was zero or negative"));
    }
    let jump = max_daily_ratio(&dense);
    if jump > MAX_DAILY_JUMP {
        proof {
            lemma_worst_ratio_floor(v);
        }
        let mut e = message(ticker, ": a single day moved ");
        e.append(format_fixed(jump, 2).as_str());
        e.append("x \u{2014} refusing the feed");
        return Err(e);
    }
    proof {
        lemma_bounded_sums_fit(dense.values@, capped_window(TWAP_WINDOW as int, dense.values@.len() as int));
    }
    let twap = match dense.trailing_mean_min(TWAP_WINDOW, MIN_TWAP_DAYS) {
        Some(t) => t,
        None => {
            let mut e = message(ticker, ": fewer than ");
            crate::text::push_decimal(&mut e, MIN_TWAP_DAYS as u128);
            e.append(" days of fixes");
            return Err(e);
        },
    };
    if twap.start > base_day {
        let mut e = message(ticker, ": its average only begins ");
        e.append(format_date(twap.start).as_str());
        e.append(", after the base date ");
        e.append(format_date(base_day).as_str());
        return Err(e);
    }
    Ok(twap)
}

/// The most candles one Coinbase request returns is 300; a slice asks for 290 days.
pub const CANDLE_SLICE_DAYS: i64 = 290;

/// The `k`-th slice of `[from, to]`: 290 days from `from + 290·k`, cut at `to`.
pub open spec fn candle_slice(from: int, to: int, k: int) -> (i64, i64) {
    let a = from + CANDLE_SLICE_DAYS * k;
    let b = if a + CANDLE_SLICE_DAYS - 1 < to { a + CANDLE_SLICE_DAYS - 1 } else { to };
    (a as i64, b as i64)
}

/// How many slices cover `[from, to]`.
pub open spec fn candle_slice_count(from: int, to: int) -> int {
    if from <= to { (to - from) / (CANDLE_SLICE_DAYS as int) + 1 } else { 0 }
}

/// The day ranges that cover `[from, to]` in requests of at most 290 days,
/// in order.
pub fn candle_slices(from: i64, to: i64) -> (r: Vec<(i64, i64)>)
    requires
        -4 * DAY_BOUND <= from <= DAY_BOUND,
        -4 * DAY_BOUND <= to <= DAY_BOUND,
    ensures
        r@.len() == candle_slice_count(from as int, to as int),
        forall|k: int| 0 <= k < r@.len() ==> #[trigger] r@[k] == candle_slice(from as int, to as int, k),
{
    let mut out: Vec<(i64, i64)> = Vec::new();
    let mut cursor = from;
    let ghost mut k: int = 0;
    while cursor <= to
        invariant
            -4 * DAY_BOUND <= from <= DAY_BOUND,
            -4 * DAY_BOUND <= to <= DAY_BOUND,
            0 <= k,
            cursor == from + CANDLE_SLICE_DAYS * k,
            k > 0 ==> cursor - CANDLE_SLICE_DAYS <= to,
            out@.len() == k,
            forall|j: int| 0 <= j < k ==> #[trigger] out@[j] == candle_slice(from as int, to as int, j),
        decreases to + CANDLE_SLICE_DAYS - cursor,
    {
        let end = if cursor + (CANDLE_SLICE_DAYS - 1) < to { cursor + (CANDLE_SLICE_DAYS - 1) } else { to };
        out.push((cursor, end));
        cursor = cursor + CANDLE_SLICE_DAYS;
        proof {
            k = k + 1;
        }
    }
    proof {
        if from <= to {
            assert(k == candle_slice_count(from as int, to as int)) by (nonlinear_arith)
                requires cursor == from + 290 * k, cursor > to, k > 0, cursor - 290 <= to, from <= to,
                    candle_slice_count(from as int, to as int) == (to - from) / 290 + 1;
        }
    }
    out
}

/// The observations of the first `n` parts, one after another.
pub open spec fn joined(parts: Seq<Series>, n: int) -> Seq<(i64, i128)>
    decreases n,
{
    if n <= 0 { Seq::empty() } else { joined(parts, n - 1) + parts[n - 1]@ }
}

/// One product's candles across every slice, normalised; `Err` when no slice
/// returned any.
pub fn merge_candles(product: &str, parts: &Vec<Series>) -> (r: Result<Series, String>)
    ensures
        match r {
            Ok(s) => joined(parts@, parts@.len() as int).len() > 0 && normal_form_of(
                s@,
                joined(parts@, parts@.len() as int),
            ),
            Err(e) => joined(parts@, parts@.len() as int).len() == 0 && e@ == product@
                + ": no candles across the range"@,
        },
{
    let mut all = Series::new();
    let mut i: usize = 0;
    while i < parts.len()
        invariant
            0 <= i <= parts@.len(),
            all@ == joined(parts@, i as int),
        decreases parts@.len() - i,
    {
        let part = &parts[i];
        let ghost before = all@;
        let mut j: usize = 0;
        while j < part.len()
            invariant
                0 <= j <= part@.len(),
                all@ == before + part@.take(j as int),
            decreases part@.len() - j,
        {
            match part.point(j) {
                Some((day, value)) => {
                    all.push(day, value);
                },
                None => {},
            }
            assert(part@.take(j + 1) =~= part@.take(j as int).push(part@[j as int]));
            j = j + 1;
        }
        assert(part@.take(part@.len() as int) =~= part@);
        i = i + 1;
    }
    let ghost raw = all@;
    all.normalise();
    if all.is_empty() {
        proof {
            if raw.len() > 0 {
                assert(crate::series::has_day(raw, raw[0].0));
                assert(!crate::series::has_day(all@, raw[0].0));
            }
        }
        return Err(message(product, ": no candles across the range"));
    }
    proof {
        if raw.len() == 0 {
            assert(crate::series::has_day(all@, all@[0].0));
        }
    }
    Ok(all)
}
} // verus!
