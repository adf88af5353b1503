//! The pages of the cx subgraph: the index's own page and its history.

use crate::calendar::civil_of;
use crate::chart::{chartable, civil_of_point, year_month_text};
use crate::index::{
    covers, fix_on, group_label, index_readable, prices_bounded, series_readable, share_fix, spec_fix_places,
    spec_quantity_places, Group, Index, Leg, Quantity, DAY_BOUND, PRICE_LIMIT, QUANTITY_LIMIT,
};
use crate::num::{
    date_text, fdiv, format_date, format_fixed, format_thousands, spec_format_fixed, spec_format_thousands, trunc_div,
    SCALE,
};
use crate::publish::{
    averages_chartable, coverage_index, find_coverage, fix_for, holdings_printable, latest_shares, last_level_day,
    lemma_latest_shares, publishable, SHARE_LIMIT,
};
use crate::series::{daily_fits, Daily};
use crate::text::{decimal_digits, push_char, push_decimal, push_padded};
use vstd::prelude::*;

verus! {

/// The README up to the level.
pub const README_HEAD: &'static str = "---\ntags: cyberia, protocol, cybernomics, cx\nalias: cx, cx index, century index fix, index publication\ncrystal-type: entity\ncrystal-domain: cyberia\n---\n# cx\n\nthe published fix of the [[century-index]] — ticker CX. one CX is the basket that cost one dollar on the base date, so the level is a price: $";

/// Between the level and its date.
pub const README_ON: &'static str = " on ";

/// Between the date and the base date.
pub const README_AGAINST: &'static str = ", against $1 on ";

/// From the base date to the basket table's rows.
pub const README_BODY: &'static str = ". the protocol page defines the instrument; this subgraph carries what it actually read.\n\n## pages\n\n- [[cx history]] — the monthly level of the published decade, the quantities, the sources\n- [[century-index]] — the protocol: basket, collar, floor, contract theses\n\n## how the fix is built\n\n1. pull each leg from its public source\n2. carry every fix onto a dense daily calendar — a closed market holds its last print\n3. average each leg over the trailing 365 days\n4. hold the quantities fixed from the base date and sum them at today's averages\n\nthe arithmetic is integer fixed-point end to end, so the same day's data yields the same level on any machine — the index is reproducible by anyone holding the sources, which is the whole point of an obligation nobody has to be trusted about.\n\n## the basket today\n\n| leg | group | share | weight at base |\n|---|---|---|---|\n";

/// After the basket table.
pub const README_CLOSE: &'static str = "\nshares drift as prices move; the quantities behind them never do. measured in itself the index is constant, so the obligation carries no numéraire.\n";

/// A share or weight in basis points, written as a percentage.
pub open spec fn percent_text(bp: int, places: int) -> Seq<char> {
    spec_format_fixed(trunc_div(bp * SCALE, 100), places)
}

/// The basket table's row for one leg and its share.
pub open spec fn readme_row(leg: Leg, share: i128) -> Seq<char> {
    "| "@ + leg.ticker@ + " | "@ + group_label(leg.group) + " | "@ + percent_text(share as int, 1) + "% | "@
        + percent_text(leg.weight_bp as int, 0) + "% |\n"@
}

/// The basket table's rows for the first `n` shares.
pub open spec fn readme_rows(shares: Seq<(Leg, i128)>, n: int) -> Seq<char>
    decreases n,
{
    if n <= 0 {
        Seq::empty()
    } else {
        readme_rows(shares, n - 1) + readme_row(shares[n - 1].0, shares[n - 1].1)
    }
}

/// The README of the cx subgraph: the latest level against the base date,
/// how the fix is built, and each leg's share of the basket today.
pub open spec fn readme_text(idx: Index, twaps: Seq<(&str, Daily)>) -> Seq<char> {
    let shares = latest_shares(idx, twaps);
    README_HEAD@ + spec_format_thousands(idx.level.values@.last() as int, 2) + README_ON@ + date_text(
        last_level_day(idx),
    ) + README_AGAINST@ + date_text(idx.base_day as int) + README_BODY@ + readme_rows(shares, shares.len() as int)
        + README_CLOSE@
}

/// Appends the basket table's row for `leg`.
fn push_readme_row(out: &mut String, leg: Leg, share: i128)
    requires
        -SHARE_LIMIT <= share <= SHARE_LIMIT,
        -SHARE_LIMIT <= leg.weight_bp <= SHARE_LIMIT,
    ensures
        final(out)@ == old(out)@ + readme_row(leg, share),
{
    let ghost start = out@;
    out.append("| ");
    out.append(leg.ticker);
    out.append(" | ");
    out.append(leg.group.label());
    out.append(" | ");
    out.append(format_fixed(share * SCALE / 100, 1).as_str());
    out.append("% | ");
    out.append(format_fixed(leg.weight_bp * SCALE / 100, 0).as_str());
    out.append("% |\n");
    assert(out@ =~= start + readme_row(leg, share));
}

/// The README of the cx subgraph; `Err` when the index has no level yet.
pub fn render_readme(idx: &Index, twaps: &[(&str, Daily)]) -> (r: Result<String, String>)
    requires
        publishable(*idx, twaps@),
    ensures
        match r {
            Ok(page) => idx.level.values@.len() > 0 && page@ == readme_text(*idx, twaps@),
            Err(e) => idx.level.values@.len() == 0 && e@ == "no index level"@,
        },
{
    let (last_day, last_level) = match idx.latest() {
        Some(v) => v,
        None => {
            return Err(String::from_str("no index level"));
        },
    };
    let shares = idx.current_shares(twaps);
    proof {
        lemma_latest_shares(*idx, twaps@);
    }
    let mut body = String::new();
    body.append(README_HEAD);
    body.append(format_thousands(last_level, 2).as_str());
    body.append(README_ON);
    body.append(format_date(last_day).as_str());
    body.append(README_AGAINST);
    body.append(format_date(idx.base_day).as_str());
    body.append(README_BODY);
    let ghost head = body@;
    let mut i: usize = 0;
    while i < shares.len()
        invariant
            0 <= i <= shares@.len(),
            shares@ == latest_shares(*idx, twaps@),
            forall|k: int| 0 <= k < shares@.len() ==> {
                &&& -SHARE_LIMIT <= (#[trigger] shares@[k]).0.weight_bp <= SHARE_LIMIT
                &&& -SHARE_LIMIT <= shares@[k].1 <= SHARE_LIMIT
            },
            body@ == head + readme_rows(shares@, i as int),
        decreases shares@.len() - i,
    {
        let (leg, share) = shares[i];
        push_readme_row(&mut body, leg, share);
        i = i + 1;
    }
    body.append(README_CLOSE);
    Ok(body)
}


// ---------------------------------------------------------------------------
// the history page
// ---------------------------------------------------------------------------

/// The history page up to the last day of the decade.
pub const HISTORY_HEAD: &'static str = "---\ntags: cyberia, protocol, cybernomics, cx\nalias: cx history, century index history, index history, cx series\ncrystal-type: pattern\ncrystal-domain: cyberia\n---\n# cx history\n\nthe published level of the [[century-index]] over the decade ending ";

/// Between the last day and the base date.
pub const HISTORY_BASE: &'static str = ". one CX is the basket that cost $1 on ";

/// Between the base date and today's level.
pub const HISTORY_COSTS: &'static str = "; today it costs $";

/// From today's level to the reading.
pub const HISTORY_READING: &'static str = ". every price enters as a trailing 365-day average, so the series moves at the pace of a year, not a day — which is what a century-scale obligation asks of it.\n\n## reading\n\n";

/// Before the decade's return.
pub const RETURNED: &'static str = "- over the decade the basket returned ";

/// After the decade's return.
pub const RETURNED_END: &'static str = "% in dollars\n";

/// Before the last year's return.
pub const TWELVE_MONTHS: &'static str = "- the last twelve months: ";

/// After the last year's return.
pub const TWELVE_MONTHS_END: &'static str = "%\n";

/// Before the decade's low.
pub const RANGE: &'static str = "- the range of the decade: ";

/// Between the low and the high.
pub const RANGE_LOW: &'static str = " low, ";

/// After the high.
pub const RANGE_HIGH: &'static str = " high\n\n";

/// Before the base date the quantities were fixed on.
pub const QUANTITIES_HEAD: &'static str = "## quantities\n\nfixed on ";

/// From the base date to the quantities table's rows.
pub const QUANTITIES_TABLE: &'static str = ", unchanged since — the obligation is these quantities, not the number they priced at.\n\n| leg | quantity | unit | fix at base | weight |\n|---|---|---|---|---|\n";

/// Before the monthly table's rows.
pub const MONTHS_HEAD: &'static str = "## monthly level\n\n| month | level | month | level |\n|---|---|---|---|\n";

/// Before the sources table's rows.
pub const SOURCES_HEAD: &'static str = "## sources\n\nthis series is a reconstruction from free public data — evidence and orientation, never the contractual fix. a signed annex names its own sources with fallbacks, per the cessation waterfall in [[century-index]].\n\n| leg | source | observed range |\n|---|---|---|\n";

/// After the sources table.
pub const SOURCES_CLOSE: &'static str = "\ncopper and uranium publish monthly and carry forward between prints, as a closed market does. the uranium assessment is the weakest fix in the basket, which is why it carries the smallest weight.\n\n";

/// Before the crypto share today.
pub const DRIFT_HEAD: &'static str = "## drift\n\nquantities never change, so shares do. the basket was written at 35% crypto, 30% fiat, 35% elements; a decade of bitcoin and ether outrunning everything else leaves it at ";

/// After the crypto share today.
pub const DRIFT_CLOSE: &'static str = "% crypto today. this is the arithmetic of fixed quantities, not a flaw in the fixes — but over a 25-80 year lease it is the property that decides what the obligation actually tracks. the T4 review valve exists for exactly this question, and it moves at most one leg of at most 10% weight every fifth year.\n\n";

/// Before today's table rows.
pub const TODAY_HEAD: &'static str = "## today\n\n| leg | fix (usd) | share |\n|---|---|---|\n";

/// Before the generation date.
pub const TODAY_CLOSE: &'static str = "\nthe fix is published daily at [cyberia.my/cx](https://cyberia.my/cx) and rebuilt from source by [[cx]]. generated ";

/// After the generation date.
pub const TODAY_END: &'static str = ".\n";

/// Changes up to this magnitude (in fixed-point percent) print with their sign.
pub const CHANGE_LIMIT: i128 = 100_000_000_000_000_000_000_000_000_000_000;

/// The change from `then` to `now`, in fixed-point percent; nothing when
/// `then` is zero.
pub open spec fn change_of(now: int, then: int) -> Option<int> {
    if then == 0 {
        None
    } else {
        Some(trunc_div((now - then) * SCALE, then) * 100)
    }
}

/// The change from `then` to `now`, in fixed-point percent; `None` when
/// `then` is zero.
pub fn change_pct(now: i128, then: i128) -> (r: Option<i128>)
    requires
        -PRICE_LIMIT <= now <= PRICE_LIMIT,
        -PRICE_LIMIT <= then <= PRICE_LIMIT,
    ensures
        r == (match change_of(now as int, then as int) {
            Some(c) => Some(c as i128),
            None => None::<i128>,
        }),
        r matches Some(c) ==> -CHANGE_LIMIT <= c <= CHANGE_LIMIT,
{
    match fdiv(now - then, then) {
        Some(q) => {
            proof {
                let x = (now - then) * SCALE;
                assert(-2 * PRICE_LIMIT * SCALE <= x <= 2 * PRICE_LIMIT * SCALE) by (nonlinear_arith)
                    requires x == (now - then) * SCALE, -2 * PRICE_LIMIT <= now - then <= 2 * PRICE_LIMIT;
                assert(-2 * PRICE_LIMIT * SCALE <= q <= 2 * PRICE_LIMIT * SCALE) by (nonlinear_arith)
                    requires q == trunc_div(x, then as int), then != 0, -2 * PRICE_LIMIT * SCALE <= x <= 2 * PRICE_LIMIT
                        * SCALE;
            }
            Some(q * 100)
        },
        None => None,
    }
}

/// A change written with its sign: `+` in front of a rise or no change.
pub open spec fn signed_text(v: int, places: int) -> Seq<char> {
    (if v >= 0 { "+"@ } else { Seq::empty() }) + spec_format_fixed(v, places)
}

/// `v` written with `places` decimals and its sign, `+` for no change too.
pub fn signed(v: i128, places: u32) -> (r: String)
    requires
        v != i128::MIN,
    ensures
        r@ == signed_text(v as int, places as int),
{
    let mut out = String::new();
    if v >= 0 {
        out.append("+");
    }
    out.append(format_fixed(v, places).as_str());
    assert(out@ =~= signed_text(v as int, places as int));
    out
}

/// The last published level of each month among the first `n` days of the
/// calendar, in order.
pub open spec fn closes_upto(level: Daily, n: int) -> Seq<(i64, i128)>
    decreases n,
{
    if n <= 0 {
        Seq::empty()
    } else {
        let prev = closes_upto(level, n - 1);
        let day = level.start + n - 1;
        let t = civil_of(day);
        let close = (day as i64, level.values@[n - 1]);
        if prev.len() > 0 && civil_of(prev.last().0 as int).0 == t.0 && civil_of(prev.last().0 as int).1 == t.1 {
            prev.update(prev.len() - 1, close)
        } else {
            prev.push(close)
        }
    }
}

/// The last published level of every month in the calendar.
pub open spec fn monthly_closes_of(level: Daily) -> Seq<(i64, i128)> {
    closes_upto(level, level.values@.len() as int)
}

/// The last published level of every month in the series.
pub fn monthly_closes(level: &Daily) -> (r: Vec<(i64, i128)>)
    requires
        chartable(*level),
    ensures
        r@ == monthly_closes_of(*level),
        forall|i: int| 0 <= i < r@.len() ==> level.start <= #[trigger] r@[i].0 < level.start + level.values@.len(),
{
    proof {
        assert(daily_fits(level.start, level.values@.len()));
    }
    let end = level.end();
    let mut out: Vec<(i64, i128)> = Vec::new();
    let mut day = level.start;
    while day <= end
        invariant
            chartable(*level),
            end == level.start + level.values@.len() - 1,
            level.start <= day <= end + 1,
            out@ == closes_upto(*level, day - level.start),
            forall|i: int| 0 <= i < out@.len() ==> level.start <= #[trigger] out@[i].0 < day,
        decreases end + 1 - day,
    {
        let ghost n = day - level.start;
        let ghost prev = out@;
        if let Some(v) = level.value_on(day) {
            let (y, m, _) = civil_of_point(day);
            let k = out.len();
            if k > 0 {
                let (pd, _) = out[k - 1];
                let (py, pm, _) = civil_of_point(pd);
                if py == y && pm == m {
                    out.set(k - 1, (day, v));
                } else {
                    out.push((day, v));
                }
            } else {
                out.push((day, v));
            }
        }
        proof {
            assert(closes_upto(*level, n + 1) == {
                let t = civil_of(day as int);
                let close = (day, level.values@[n]);
                if prev.len() > 0 && civil_of(prev.last().0 as int).0 == t.0 && civil_of(prev.last().0 as int).1 == t.1 {
                    prev.update(prev.len() - 1, close)
                } else {
                    prev.push(close)
                }
            });
            assert(out@ =~= closes_upto(*level, n + 1));
        }
        day = day + 1;
    }
    out
}

/// The largest of the first `n` values (zero when there are none).
pub open spec fn max_upto(v: Seq<i128>, n: int) -> i128
    decreases n,
{
    if n <= 0 {
        0
    } else if n == 1 {
        v[0]
    } else if v[n - 1] > max_upto(v, n - 1) {
        v[n - 1]
    } else {
        max_upto(v, n - 1)
    }
}

/// The smallest of the first `n` values (zero when there are none).
pub open spec fn min_upto(v: Seq<i128>, n: int) -> i128
    decreases n,
{
    if n <= 0 {
        0
    } else if n == 1 {
        v[0]
    } else if v[n - 1] < min_upto(v, n - 1) {
        v[n - 1]
    } else {
        min_upto(v, n - 1)
    }
}

/// The largest and smallest values, each zero when there are none.
fn extremes(v: &Vec<i128>) -> (r: (i128, i128))
    requires
        prices_bounded(v@),
    ensures
        r.0 == max_upto(v@, v@.len() as int),
        r.1 == min_upto(v@, v@.len() as int),
        -PRICE_LIMIT <= r.0 <= PRICE_LIMIT,
        -PRICE_LIMIT <= r.1 <= PRICE_LIMIT,
{
    if v.len() == 0 {
        return (0, 0);
    }
    let mut hi = v[0];
    let mut lo = v[0];
    let mut i: usize = 1;
    while i < v.len()
        invariant
            1 <= i <= v@.len(),
            prices_bounded(v@),
            hi == max_upto(v@, i as int),
            lo == min_upto(v@, i as int),
            -PRICE_LIMIT <= hi <= PRICE_LIMIT,
            -PRICE_LIMIT <= lo <= PRICE_LIMIT,
        decreases v@.len() - i,
    {
        if v[i] > hi {
            hi = v[i];
        }
        if v[i] < lo {
            lo = v[i];
        }
        i = i + 1;
    }
    (hi, lo)
}

/// The opening of the history page: the decade's end, the base date and
/// today's level.
pub open spec fn history_intro(idx: Index) -> Seq<char> {
    HISTORY_HEAD@ + date_text(last_level_day(idx)) + HISTORY_BASE@ + date_text(idx.base_day as int) + HISTORY_COSTS@
        + spec_format_thousands(idx.level.values@.last() as int, 2) + HISTORY_READING@
}

/// The reading: the decade's return and the last year's, each where it can be
/// computed, then the decade's range.
pub open spec fn history_reading(level: Daily) -> Seq<char> {
    let v = level.values@;
    let last = v.last() as int;
    let total = match change_of(last, v[0] as int) {
        Some(t) => RETURNED@ + signed_text(t, 1) + RETURNED_END@,
        None => Seq::empty(),
    };
    let day = level.start + v.len() - 1 - 365;
    let year = if covers(level, day) {
        match change_of(last, fix_on(level, day) as int) {
            Some(y) => TWELVE_MONTHS@ + signed_text(y, 1) + TWELVE_MONTHS_END@,
            None => Seq::empty(),
        }
    } else {
        Seq::empty()
    };
    total + year + RANGE@ + spec_format_thousands(min_upto(v, v.len() as int) as int, 2) + RANGE_LOW@
        + spec_format_thousands(max_upto(v, v.len() as int) as int, 2) + RANGE_HIGH@
}

/// The quantities table's row for one holding.
pub open spec fn quantity_row(q: Quantity) -> Seq<char> {
    "| "@ + q.leg.ticker@ + " | "@ + spec_format_thousands(q.quantity as int, spec_quantity_places(q.quantity as int) as int)
        + " | "@ + q.leg.unit@ + " | "@ + spec_format_thousands(q.base_fix as int, spec_fix_places(q.leg.ticker@) as int)
        + " | "@ + percent_text(q.leg.weight_bp as int, 0) + "% |\n"@
}

/// The quantities table's rows for the first `n` holdings.
pub open spec fn quantity_rows(qs: Seq<Quantity>, n: int) -> Seq<char>
    decreases n,
{
    if n <= 0 {
        Seq::empty()
    } else {
        quantity_rows(qs, n - 1) + quantity_row(qs[n - 1])
    }
}

/// The quantities, fixed on the base date.
pub open spec fn history_quantities(idx: Index) -> Seq<char> {
    QUANTITIES_HEAD@ + date_text(idx.base_day as int) + QUANTITIES_TABLE@ + quantity_rows(
        idx.quantities@,
        idx.quantities@.len() as int,
    ) + "\n"@
}

/// The month and level a cell of the monthly table shows, or dashes.
pub open spec fn month_cell(p: Option<(i64, i128)>) -> (Seq<char>, Seq<char>) {
    match p {
        Some(c) => (year_month_text(c.0 as int), spec_format_thousands(c.1 as int, 2)),
        None => ("\u{2014}"@, "\u{2014}"@),
    }
}

/// Close `i` of `months`, if there is one.
pub open spec fn close_at(months: Seq<(i64, i128)>, i: int) -> Option<(i64, i128)> {
    if 0 <= i < months.len() { Some(months[i]) } else { None }
}

/// Row `i` of the monthly table: close `i` beside close `i + half`.
pub open spec fn month_row(months: Seq<(i64, i128)>, half: int, i: int) -> Seq<char> {
    let l = month_cell(close_at(months, i));
    let r = month_cell(close_at(months, i + half));
    "| "@ + l.0 + " | "@ + l.1 + " | "@ + r.0 + " | "@ + r.1 + " |\n"@
}

/// The first `n` rows of the monthly table.
pub open spec fn month_rows(months: Seq<(i64, i128)>, half: int, n: int) -> Seq<char>
    decreases n,
{
    if n <= 0 {
        Seq::empty()
    } else {
        month_rows(months, half, n - 1) + month_row(months, half, n - 1)
    }
}

/// The monthly table, in two columns: the first half of the months beside
/// the second.
pub open spec fn history_months(months: Seq<(i64, i128)>) -> Seq<char> {
    let half: int = (months.len() as int + 1) / 2;
    MONTHS_HEAD@ + month_rows(months, half, half) + "\n"@
}

/// What a coverage entry says of a ticker: the observed span and the
/// number of observations, or a dash.
pub open spec fn coverage_text(cov: Seq<(&str, String, usize)>, ticker: Seq<char>) -> Seq<char> {
    let i = coverage_index(cov, ticker);
    if i < cov.len() {
        cov[i].1@ + " \u{b7} "@ + decimal_digits(cov[i].2 as nat) + " observations"@
    } else {
        "\u{2014}"@
    }
}

/// The sources table's row for one holding.
pub open spec fn source_row(q: Quantity, cov: Seq<(&str, String, usize)>) -> Seq<char> {
    "| "@ + q.leg.ticker@ + " | "@ + q.leg.source@ + " | "@ + coverage_text(cov, q.leg.ticker@) + " |\n"@
}

/// The sources table's rows for the first `n` holdings.
pub open spec fn source_rows(qs: Seq<Quantity>, cov: Seq<(&str, String, usize)>, n: int) -> Seq<char>
    decreases n,
{
    if n <= 0 {
        Seq::empty()
    } else {
        source_rows(qs, cov, n - 1) + source_row(qs[n - 1], cov)
    }
}

/// Where each leg's data came from, and what range it covers.
pub open spec fn history_sources(idx: Index, cov: Seq<(&str, String, usize)>) -> Seq<char> {
    SOURCES_HEAD@ + source_rows(idx.quantities@, cov, idx.quantities@.len() as int) + SOURCES_CLOSE@
}

/// The crypto legs' total share among the first `n` shares.
pub open spec fn crypto_share(shares: Seq<(Leg, i128)>, n: int) -> int
    decreases n,
{
    if n <= 0 {
        0
    } else {
        crypto_share(shares, n - 1) + if shares[n - 1].0.group == Group::Crypto { shares[n - 1].1 as int } else { 0 }
    }
}

/// How far the crypto share has drifted from where the basket was written.
pub open spec fn history_drift(shares: Seq<(Leg, i128)>) -> Seq<char> {
    DRIFT_HEAD@ + percent_text(crypto_share(shares, shares.len() as int), 1) + DRIFT_CLOSE@
}

/// Today's table row for one leg: its fix and its share.
pub open spec fn today_row(leg: Leg, share: i128, twaps: Seq<(&str, Daily)>, day: int) -> Seq<char> {
    "| "@ + leg.ticker@ + " | "@ + spec_format_thousands(share_fix(twaps, leg, day), spec_fix_places(leg.ticker@) as int)
        + " | "@ + percent_text(share as int, 1) + "% |\n"@
}

/// Today's table rows for the first `n` shares.
pub open spec fn today_rows(shares: Seq<(Leg, i128)>, twaps: Seq<(&str, Daily)>, day: int, n: int) -> Seq<char>
    decreases n,
{
    if n <= 0 {
        Seq::empty()
    } else {
        today_rows(shares, twaps, day, n - 1) + today_row(shares[n - 1].0, shares[n - 1].1, twaps, day)
    }
}

/// Today's fixes and shares, and the date the page was generated.
pub open spec fn history_today(shares: Seq<(Leg, i128)>, twaps: Seq<(&str, Daily)>, day: int) -> Seq<char> {
    TODAY_HEAD@ + today_rows(shares, twaps, day, shares.len() as int) + TODAY_CLOSE@ + date_text(day) + TODAY_END@
}

/// The history page of the cx subgraph.
pub open spec fn history_text(idx: Index, twaps: Seq<(&str, Daily)>, cov: Seq<(&str, String, usize)>) -> Seq<char> {
    let shares = latest_shares(idx, twaps);
    history_intro(idx) + history_reading(idx.level) + history_quantities(idx) + history_months(
        monthly_closes_of(idx.level),
    ) + history_sources(idx, cov) + history_drift(shares) + history_today(shares, twaps, last_level_day(idx))
}


/// Each monthly close is a day of the calendar with that day's level.
proof fn lemma_closes_values(level: Daily, n: int, i: int)
    requires
        chartable(level),
        0 <= n <= level.values@.len(),
        0 <= i < closes_upto(level, n).len(),
    ensures
        level.start <= closes_upto(level, n)[i].0 < level.start + n,
        closes_upto(level, n)[i].1 == level.values@[closes_upto(level, n)[i].0 - level.start],
    decreases n,
{
    let prev = closes_upto(level, n - 1);
    if i < prev.len() && !(i == prev.len() - 1 && closes_upto(level, n).len() == prev.len()) {
        lemma_closes_values(level, n - 1, i);
    }
}

/// Appends the opening of the history page.
fn push_history_intro(out: &mut String, idx: &Index)
    requires
        chartable(idx.level),
        idx.level.values@.len() > 0,
        prices_bounded(idx.level.values@),
        -DAY_BOUND <= idx.base_day <= DAY_BOUND,
    ensures
        final(out)@ == old(out)@ + history_intro(*idx),
{
    let ghost start = out@;
    proof {
        assert(daily_fits(idx.level.start, idx.level.values@.len()));
        assert(-PRICE_LIMIT <= idx.level.values@.last() <= PRICE_LIMIT);
    }
    let last_day = idx.level.end();
    let last_level = idx.level.values[idx.level.values.len() - 1];
    out.append(HISTORY_HEAD);
    out.append(format_date(last_day).as_str());
    out.append(HISTORY_BASE);
    out.append(format_date(idx.base_day).as_str());
    out.append(HISTORY_COSTS);
    out.append(format_thousands(last_level, 2).as_str());
    out.append(HISTORY_READING);
    assert(out@ =~= start + history_intro(*idx));
}

/// Appends the reading: the decade's return, the last year's, and the range.
fn push_history_reading(out: &mut String, idx: &Index)
    requires
        chartable(idx.level),
        idx.level.values@.len() > 0,
        prices_bounded(idx.level.values@),
    ensures
        final(out)@ == old(out)@ + history_reading(idx.level),
{
    let ghost start = out@;
    let ghost v = idx.level.values@;
    proof {
        assert(daily_fits(idx.level.start, idx.level.values@.len()));
        assert(-PRICE_LIMIT <= v.last() <= PRICE_LIMIT);
        assert(-PRICE_LIMIT <= v[0] <= PRICE_LIMIT);
    }
    let last = idx.level.values[idx.level.values.len() - 1];
    let ghost total = match change_of(last as int, v[0] as int) {
        Some(t) => RETURNED@ + signed_text(t, 1) + RETURNED_END@,
        None => Seq::<char>::empty(),
    };
    match idx.level.value_on(idx.level.start) {
        Some(first) => match change_pct(last, first) {
            Some(t) => {
                out.append(RETURNED);
                out.append(signed(t, 1).as_str());
                out.append(RETURNED_END);
            },
            None => {},
        },
        None => {},
    }
    assert(out@ =~= start + total);
    let ghost mid = out@;
    let ghost day = idx.level.start + v.len() - 1 - 365;
    let ghost year = if covers(idx.level, day) {
        match change_of(last as int, fix_on(idx.level, day) as int) {
            Some(y) => TWELVE_MONTHS@ + signed_text(y, 1) + TWELVE_MONTHS_END@,
            None => Seq::<char>::empty(),
        }
    } else {
        Seq::<char>::empty()
    };
    match idx.level_before(365) {
        Some(then) => {
            proof {
                assert(-PRICE_LIMIT <= v[day - idx.level.start] <= PRICE_LIMIT);
            }
            match change_pct(last, then) {
                Some(y) => {
                    out.append(TWELVE_MONTHS);
                    out.append(signed(y, 1).as_str());
                    out.append(TWELVE_MONTHS_END);
                },
                None => {},
            }
        },
        None => {},
    }
    assert(out@ =~= mid + year);
    let (high, low) = extremes(&idx.level.values);
    out.append(RANGE);
    out.append(format_thousands(low, 2).as_str());
    out.append(RANGE_LOW);
    out.append(format_thousands(high, 2).as_str());
    out.append(RANGE_HIGH);
    assert(out@ =~= start + history_reading(idx.level));
}

/// Appends the quantities table's row for `q`.
fn push_quantity_row(out: &mut String, q: Quantity)
    requires
        -QUANTITY_LIMIT <= q.quantity <= QUANTITY_LIMIT,
        -PRICE_LIMIT <= q.base_fix <= PRICE_LIMIT,
        -SHARE_LIMIT <= q.leg.weight_bp <= SHARE_LIMIT,
    ensures
        final(out)@ == old(out)@ + quantity_row(q),
{
    let ghost start = out@;
    out.append("| ");
    out.append(q.leg.ticker);
    out.append(" | ");
    out.append(format_thousands(q.quantity, q.leg.quantity_places(q.quantity)).as_str());
    out.append(" | ");
    out.append(q.leg.unit);
    out.append(" | ");
    out.append(format_thousands(q.base_fix, q.leg.fix_places()).as_str());
    out.append(" | ");
    out.append(format_fixed(q.leg.weight_bp * SCALE / 100, 0).as_str());
    out.append("% |\n");
    assert(out@ =~= start + quantity_row(q));
}

/// Appends the quantities section.
fn push_history_quantities(out: &mut String, idx: &Index)
    requires
        index_readable(*idx),
        holdings_printable(idx.quantities@),
        -DAY_BOUND <= idx.base_day <= DAY_BOUND,
    ensures
        final(out)@ == old(out)@ + history_quantities(*idx),
{
    let ghost start = out@;
    out.append(QUANTITIES_HEAD);
    out.append(format_date(idx.base_day).as_str());
    out.append(QUANTITIES_TABLE);
    let ghost head = out@;
    let mut i: usize = 0;
    while i < idx.quantities.len()
        invariant
            0 <= i <= idx.quantities@.len(),
            index_readable(*idx),
            holdings_printable(idx.quantities@),
            out@ == head + quantity_rows(idx.quantities@, i as int),
        decreases idx.quantities@.len() - i,
    {
        let q = idx.quantities[i];
        proof {
            assert(-QUANTITY_LIMIT <= idx.quantities@[i as int].quantity <= QUANTITY_LIMIT);
            assert(-PRICE_LIMIT <= idx.quantities@[i as int].base_fix <= PRICE_LIMIT);
        }
        push_quantity_row(out, q);
        i = i + 1;
    }
    out.append("\n");
    assert(out@ =~= start + history_quantities(*idx));
}

/// The two texts of a monthly cell.
fn month_cell_texts(p: Option<(i64, i128)>) -> (r: (String, String))
    requires
        p matches Some(c) ==> -DAY_BOUND <= c.0 <= DAY_BOUND && -PRICE_LIMIT <= c.1 <= PRICE_LIMIT,
    ensures
        (r.0@, r.1@) == month_cell(p),
{
    match p {
        Some((d, v)) => {
            let (y, m, _) = civil_of_point(d);
            let mut month = String::new();
            push_padded(&mut month, y, 0);
            push_char(&mut month, '-');
            push_padded(&mut month, m, 2);
            assert(month@ =~= year_month_text(d as int));
            (month, format_thousands(v, 2))
        },
        None => (String::from_str("\u{2014}"), String::from_str("\u{2014}")),
    }
}

/// Appends row `i` of the monthly table.
fn push_month_row(out: &mut String, months: &Vec<(i64, i128)>, half: usize, i: usize)
    requires
        forall|i: int| 0 <= i < months@.len() ==> -DAY_BOUND <= #[trigger] months@[i].0 <= DAY_BOUND && -PRICE_LIMIT
            <= months@[i].1 <= PRICE_LIMIT,
        i < half,
        half <= months@.len() + 1,
    ensures
        final(out)@ == old(out)@ + month_row(months@, half as int, i as int),
{
    let ghost start = out@;
    let left = if i < months.len() { Some(months[i]) } else { None };
    let right = if half < months.len() && i < months.len() - half { Some(months[i + half]) } else { None };
    assert(left == close_at(months@, i as int));
    assert(right == close_at(months@, i + half));
    let (lm, lv) = month_cell_texts(left);
    let (rm, rv) = month_cell_texts(right);
    out.append("| ");
    out.append(lm.as_str());
    out.append(" | ");
    out.append(lv.as_str());
    out.append(" | ");
    out.append(rm.as_str());
    out.append(" | ");
    out.append(rv.as_str());
    out.append(" |\n");
    assert(out@ =~= start + month_row(months@, half as int, i as int));
}

/// Appends the monthly table.
fn push_history_months(out: &mut String, months: &Vec<(i64, i128)>)
    requires
        forall|i: int| 0 <= i < months@.len() ==> -DAY_BOUND <= #[trigger] months@[i].0 <= DAY_BOUND && -PRICE_LIMIT
            <= months@[i].1 <= PRICE_LIMIT,
    ensures
        final(out)@ == old(out)@ + history_months(months@),
{
    let ghost start = out@;
    out.append(MONTHS_HEAD);
    let ghost head = out@;
    let half = months.len() / 2 + months.len() % 2;
    assert(half == (months@.len() as int + 1) / 2);
    let mut i: usize = 0;
    while i < half
        invariant
            0 <= i <= half,
            half == (months@.len() as int + 1) / 2,
            forall|i: int| 0 <= i < months@.len() ==> -DAY_BOUND <= #[trigger] months@[i].0 <= DAY_BOUND && -PRICE_LIMIT
                <= months@[i].1 <= PRICE_LIMIT,
            out@ == head + month_rows(months@, half as int, i as int),
        decreases half - i,
    {
        push_month_row(out, months, half, i);
        i = i + 1;
    }
    out.append("\n");
    assert(out@ =~= start + history_months(months@));
}

/// Appends what the coverage entries say of `ticker`.
fn push_coverage(out: &mut String, cov: &[(&str, String, usize)], ticker: &str)
    ensures
        final(out)@ == old(out)@ + coverage_text(cov@, ticker@),
{
    let ghost start = out@;
    let i = find_coverage(cov, ticker);
    if i < cov.len() {
        out.append(cov[i].1.as_str());
        out.append(" \u{b7} ");
        push_decimal(out, cov[i].2 as u128);
        out.append(" observations");
    } else {
        out.append("\u{2014}");
    }
    assert(out@ =~= start + coverage_text(cov@, ticker@));
}

/// Appends the sources section.
fn push_history_sources(out: &mut String, idx: &Index, cov: &[(&str, String, usize)])
    ensures
        final(out)@ == old(out)@ + history_sources(*idx, cov@),
{
    let ghost start = out@;
    out.append(SOURCES_HEAD);
    let ghost head = out@;
    let mut i: usize = 0;
    while i < idx.quantities.len()
        invariant
            0 <= i <= idx.quantities@.len(),
            out@ == head + source_rows(idx.quantities@, cov@, i as int),
        decreases idx.quantities@.len() - i,
    {
        let q = idx.quantities[i];
        let ghost before = out@;
        out.append("| ");
        out.append(q.leg.ticker);
        out.append(" | ");
        out.append(q.leg.source);
        out.append(" | ");
        push_coverage(out, cov, q.leg.ticker);
        out.append(" |\n");
        assert(out@ =~= before + source_row(q, cov@));
        i = i + 1;
    }
    out.append(SOURCES_CLOSE);
    assert(out@ =~= start + history_sources(*idx, cov@));
}

/// Appends the drift section.
fn push_history_drift(out: &mut String, shares: &Vec<(Leg, i128)>)
    requires
        shares@.len() <= 1_048_576,
        forall|k: int| 0 <= k < shares@.len() ==> -SHARE_LIMIT <= (#[trigger] shares@[k]).1 <= SHARE_LIMIT,
    ensures
        final(out)@ == old(out)@ + history_drift(shares@),
{
    let ghost start = out@;
    let mut crypto: i128 = 0;
    let mut i: usize = 0;
    while i < shares.len()
        invariant
            0 <= i <= shares@.len(),
            shares@.len() <= 1_048_576,
            forall|k: int| 0 <= k < shares@.len() ==> -SHARE_LIMIT <= (#[trigger] shares@[k]).1 <= SHARE_LIMIT,
            crypto == crypto_share(shares@, i as int),
            -i * SHARE_LIMIT <= crypto <= i * SHARE_LIMIT,
        decreases shares@.len() - i,
    {
        if shares[i].0.group == Group::Crypto {
            crypto = crypto + shares[i].1;
        }
        i = i + 1;
    }
    out.append(DRIFT_HEAD);
    out.append(format_fixed(crypto * SCALE / 100, 1).as_str());
    out.append(DRIFT_CLOSE);
    assert(out@ =~= start + history_drift(shares@));
}

/// Appends today's section.
fn push_history_today(out: &mut String, shares: &Vec<(Leg, i128)>, twaps: &[(&str, Daily)], day: i64)
    requires
        series_readable(twaps@),
        averages_chartable(twaps@),
        -DAY_BOUND <= day <= DAY_BOUND,
        forall|k: int| 0 <= k < shares@.len() ==> -SHARE_LIMIT <= (#[trigger] shares@[k]).1 <= SHARE_LIMIT,
    ensures
        final(out)@ == old(out)@ + history_today(shares@, twaps@, day as int),
{
    let ghost start = out@;
    out.append(TODAY_HEAD);
    let ghost head = out@;
    let mut i: usize = 0;
    while i < shares.len()
        invariant
            0 <= i <= shares@.len(),
            series_readable(twaps@),
            averages_chartable(twaps@),
            -DAY_BOUND <= day <= DAY_BOUND,
            forall|k: int| 0 <= k < shares@.len() ==> -SHARE_LIMIT <= (#[trigger] shares@[k]).1 <= SHARE_LIMIT,
            out@ == head + today_rows(shares@, twaps@, day as int, i as int),
        decreases shares@.len() - i,
    {
        let (leg, share) = shares[i];
        let fix = fix_for(twaps, leg, day);
        let ghost before = out@;
        out.append("| ");
        out.append(leg.ticker);
        out.append(" | ");
        out.append(format_thousands(fix, leg.fix_places()).as_str());
        out.append(" | ");
        out.append(format_fixed(share * SCALE / 100, 1).as_str());
        out.append("% |\n");
        assert(out@ =~= before + today_row(leg, share, twaps@, day as int));
        i = i + 1;
    }
    out.append(TODAY_CLOSE);
    out.append(format_date(day).as_str());
    out.append(TODAY_END);
    assert(out@ =~= start + history_today(shares@, twaps@, day as int));
}

/// The history page of the cx subgraph: the decade's level, the fixed
/// quantities, a monthly table, the sources, the drift of the shares and
/// today's fixes. `Err` when the index has no level yet.
pub fn render_history(idx: &Index, twaps: &[(&str, Daily)], coverage: &[(&str, String, usize)]) -> (r: Result<
    String,
    String,
>)
    requires
        publishable(*idx, twaps@),
    ensures
        match r {
            Ok(page) => idx.level.values@.len() > 0 && page@ == history_text(*idx, twaps@, coverage@),
            Err(e) => idx.level.values@.len() == 0 && e@ == "no index level"@,
        },
{
    let (last_day, _) = match idx.latest() {
        Some(v) => v,
        None => {
            return Err(String::from_str("no index level"));
        },
    };
    let months = monthly_closes(&idx.level);
    proof {
        assert forall|i: int| 0 <= i < months@.len() implies -DAY_BOUND <= #[trigger] months@[i].0 <= DAY_BOUND
            && -PRICE_LIMIT <= months@[i].1 <= PRICE_LIMIT by {
            lemma_closes_values(idx.level, idx.level.values@.len() as int, i);
        }
    }
    let mut body = String::new();
    push_history_intro(&mut body, idx);
    let ghost a = body@;
    push_history_reading(&mut body, idx);
    let ghost b = body@;
    push_history_quantities(&mut body, idx);
    let ghost c = body@;
    push_history_months(&mut body, &months);
    let ghost d = body@;
    push_history_sources(&mut body, idx, coverage);
    let ghost e = body@;
    let shares = idx.current_shares(twaps);
    proof {
        lemma_latest_shares(*idx, twaps@);
    }
    push_history_drift(&mut body, &shares);
    let ghost f = body@;
    push_history_today(&mut body, &shares, twaps, last_day);
    assert(body@ =~= history_text(*idx, twaps@, coverage@));
    Ok(body)
}

} // verus!
