//! The published page at cyberia.my/cx and the machine-readable fix beside it.

use crate::calculator::{html, pricer_text};
use crate::chart::{chartable, ChartView};
use crate::graph::percent_text;
use crate::index::{
    group_label, group_weight, index_readable, lemma_group_weights, legs, series_readable, share_fix, spec_fix_places,
    spec_legs, spec_quantity_places, covers, fix_on, prices_bounded, Group, Index, Leg, Quantity, DAY_BOUND,
    PRICE_LIMIT, QUANTITY_LIMIT,
};
use crate::num::{date_text, format_date, format_fixed, format_thousands, spec_format_fixed, spec_format_thousands, trunc_div, SCALE};
use crate::publish::{
    averages_chartable, coverage_index, find_coverage, fix_for, holdings_printable, latest_shares, last_level_day,
    lemma_latest_shares, publishable, SHARE_LIMIT,
};
use crate::series::{daily_fits, Daily};
use crate::text::{decimal_digits, int_text, matches_at, push_decimal, push_int, replace, replace_all};
use vstd::prelude::*;

verus! {

/// The style class of a group.
pub open spec fn group_class_text(g: Group) -> Seq<char> {
    match g {
        Group::Crypto => "crypto"@,
        Group::Fiat => "fiat"@,
        Group::Elements => "elements"@,
    }
}

/// The style class the page gives a group.
pub fn group_class(g: Group) -> (r: &'static str)
    ensures
        r@ == group_class_text(g),
{
    match g {
        Group::Crypto => "crypto",
        Group::Fiat => "fiat",
        Group::Elements => "elements",
    }
}

/// The page up to the level in its title.
pub const PAGE_HEAD: &'static str = "<!doctype html>\n<html lang=\"en\">\n<head>\n<meta charset=\"utf-8\">\n<meta name=\"viewport\" content=\"width=device-width,initial-scale=1\">\n<title>CX ";

/// From the title to the level shown large.
pub const PAGE_TITLE: &'static str = " — century index · Cyberia</title>\n<meta property=\"og:title\" content=\"CX — century index\">\n<meta property=\"og:description\" content=\"The unit of account for century-scale obligations. A fixed basket of eight world assets: whoever owes the index owes quantities, and the quantities never change.\">\n<link href=\"https://fonts.googleapis.com/css2?family=Play:wght@400;700&display=swap\" rel=\"stylesheet\">\n<style>\n  :root{\n    --bg:#050505;--green:#79ff4f;--cyan:#00e5ff;--ink:#f2f2f2;--mute:#8a8a8a;--line:#1f1f1f;\n    --crypto:#2f9e14;--fiat:#0093ad;--elements:#c98500;\n  }\n  *{box-sizing:border-box;margin:0;padding:0}\n  html,body{background:var(--bg);color:var(--ink);font-family:'Play',sans-serif;-webkit-font-smoothing:antialiased}\n  body{min-height:100vh;display:flex;flex-direction:column;align-items:center;padding:40px 20px 56px}\n  main{width:100%;max-width:520px;display:flex;flex-direction:column;gap:28px}\n  .brand{display:flex;align-items:center;gap:12px;font-size:17px;letter-spacing:.06em;color:var(--mute)}\n  .brand svg{width:32px;height:32px}\n  h1{font-size:34px;line-height:1.05;font-weight:700}\n  h1 span{display:block;color:var(--green)}\n  h2{font-size:15px;font-weight:400;color:var(--mute)}\n  section{display:flex;flex-direction:column;gap:12px}\n\n  .hero{border-top:2px solid var(--green);padding-top:14px;display:flex;flex-direction:column;gap:4px}\n  .hero b{font-size:52px;line-height:1;font-weight:700}\n  .hero .unit{font-size:14px;color:var(--mute);margin-top:6px}\n  .tabs{display:flex;gap:6px;margin-top:14px}\n  .tabs button{font-family:inherit;font-size:13px;letter-spacing:.04em;color:var(--mute);\n    background:none;border:1px solid var(--line);border-radius:8px;padding:5px 12px;cursor:pointer;\n    transition:color .15s,border-color .15s}\n  .tabs button:hover{color:var(--ink)}\n  .tabs button.on{color:var(--bg);background:var(--green);border-color:var(--green)}\n\n  .chart{width:100%;height:200px;overflow:visible}\n  .chart .line{fill:none;stroke:var(--green);stroke-width:2;stroke-linejoin:round;stroke-linecap:round}\n  .chart .grid{stroke:var(--line);stroke-width:1}\n  .chart .tick{fill:var(--mute);font-size:11px;font-family:'Play',sans-serif}\n  .chart .end{fill:var(--green);stroke:var(--bg);stroke-width:2}\n  .chart .cross{stroke:var(--mute);stroke-width:1}\n  .chart .dot{fill:var(--green);stroke:var(--bg);stroke-width:2}\n  .readout{font-size:13px;color:var(--mute);min-height:18px}\n  .readout b{color:var(--ink);font-weight:400}\n\n  .bar{display:flex;height:24px;gap:2px}\n  .bar .seg{position:relative}\n  .bar .seg:first-child{border-radius:4px 0 0 4px}\n  .bar .seg:last-child{border-radius:0 4px 4px 0}\n  .bar .seg i{position:absolute;inset:0;display:grid;place-items:center;font-style:normal;font-size:12px;color:#fff}\n  .seg.crypto{background:var(--crypto)}\n  .seg.fiat{background:var(--fiat)}\n  .seg.elements{background:var(--elements)}\n  .chips{display:flex;gap:16px;flex-wrap:wrap;font-size:13px;color:var(--mute)}\n  .chips b{color:var(--ink);font-weight:400}\n  .chips .d,td .d{display:inline-block;width:10px;height:10px;border-radius:3px;margin-right:6px;vertical-align:-1px}\n  .d.crypto{background:var(--crypto)}\n  .d.fiat{background:var(--fiat)}\n  .d.elements{background:var(--elements)}\n\n  table{width:100%;border-collapse:collapse;font-size:14px}\n  th{font-weight:400;color:var(--mute);text-align:left;padding:6px 8px 6px 0;border-bottom:1px solid var(--line)}\n  th.n,td.n{text-align:right;font-variant-numeric:tabular-nums;white-space:nowrap}\n  td{padding:8px 8px 8px 0;border-bottom:1px solid var(--line)}\n\n  p{font-size:15px;line-height:1.5}\n  p .mute,li .mute{color:var(--mute)}\n  .formula{border:1px solid var(--line);border-radius:12px;padding:14px 16px;font-size:15px;line-height:1.6;letter-spacing:.02em}\n  .formula .mute{color:var(--mute)}\n  ul{list-style:none;display:flex;flex-direction:column;gap:8px;font-size:15px;line-height:1.45}\n  ul li{padding-left:16px;position:relative}\n  ul li::before{content:\"›\";position:absolute;left:0;color:var(--green)}\n  .note{font-size:13px;line-height:1.5;color:var(--mute)}\n  .note a{color:var(--cyan);text-decoration:none}\n  footer{margin-top:16px;display:flex;justify-content:space-between;align-items:center;color:var(--cyan);font-size:14px;letter-spacing:.08em}\n  footer a{color:var(--mute);text-decoration:none;letter-spacing:0}\n</style>\n</head>\n<body>\n<main>\n  <div class=\"brand\">\n    <svg viewBox=\"0 0 100 100\" aria-hidden=\"true\">\n      <circle cx=\"50\" cy=\"12\" r=\"9\" fill=\"#79ff4f\"/><circle cx=\"80\" cy=\"27\" r=\"9\" fill=\"#00a2ff\"/>\n      <circle cx=\"87\" cy=\"60\" r=\"9\" fill=\"#1a3fbf\"/><circle cx=\"64\" cy=\"86\" r=\"9\" fill=\"#9b4dff\"/>\n      <circle cx=\"30\" cy=\"86\" r=\"9\" fill=\"#ff3b3b\"/><circle cx=\"12\" cy=\"60\" r=\"9\" fill=\"#ff8a1e\"/>\n      <circle cx=\"20\" cy=\"27\" r=\"9\" fill=\"#ffe14d\"/>\n    </svg>\n    Cyberia\n  </div>\n\n  <h1>CX<span>century index</span></h1>\n\n  <div class=\"hero\">\n    <b>$";

/// From the level to the base date.
pub const PAGE_UNIT: &'static str = "</b>\n    <div class=\"unit\">for 1 CX — the basket that cost $1 on ";

/// From the base date to the range tabs.
pub const PAGE_TABS: &'static str = "</div>\n    <div class=\"tabs\" role=\"tablist\">";

/// From the tabs to the first view's chart.
pub const PAGE_CHART: &'static str = "</div>\n  </div>\n\n  <section>\n    <svg class=\"chart\" id=\"chart\" viewBox=\"0 0 1000 320\" preserveAspectRatio=\"none\"\n         role=\"img\" aria-label=\"CX index level\">";

/// From the chart to the readout.
pub const PAGE_READOUT: &'static str = "</svg>\n    <div class=\"readout\" id=\"readout\">";

/// From the readout to the weights bar.
pub const PAGE_BAR: &'static str = "</div>\n  </section>\n\n  <section>\n    <h2>What it is</h2>\n    <p>The unit of account for century-scale obligations. A fixed basket of eight world\n    assets: whoever owes the index owes quantities, and the quantities never change.\n    <span class=\"mute\">A 25–80 year lease outlives every currency it could be written in —\n    so the payment is a portfolio instead of a number.</span></p>\n  </section>\n\n  <section>\n    <h2>Basket</h2>\n    <div class=\"bar\" role=\"img\" aria-label=\"basket weights: BTC 20, ETH 15, CNY 15, USD 15, GOLD 15, CU 10, OIL 5, UX 5 percent\">";

/// From the bar to the group chips.
pub const PAGE_CHIPS: &'static str = "</div>\n    <div class=\"chips\">";

/// From the chips to the basket table's rows.
pub const PAGE_LEGS: &'static str = "</div>\n    <table>\n      <thead><tr><th>leg</th><th class=\"n\">fix (USD)</th><th class=\"n\">quantity</th><th class=\"n\">weight</th><th class=\"n\">share now</th></tr></thead>\n      <tbody>";

/// From the table to the base date in the note.
pub const PAGE_FIXED_ON: &'static str = "</tbody>\n    </table>\n    <div class=\"note\">Quantities are what one CX holds. Weight is what a lease is written at; share is what the leg has become.\n    Quantities were fixed on ";

/// From the base date to the drifted shares.
pub const PAGE_DRIFT: &'static str = " and never change, so the shares drift with prices —\n    over this decade the basket ran to ";

/// From the drift to the pricer.
pub const PAGE_PRICER: &'static str = ". A lease signed today starts at the weights, not the drift.\n    Every fix is a trailing 365-day average.</div>\n  </section>\n\n  <section>\n    <h2>Definition</h2>\n    <div class=\"formula\">\n      q<sub>i</sub> = w<sub>i</sub> · R<sub>0</sub> / P<sub>i</sub>(t<sub>0</sub>)\n      &nbsp;&nbsp;&nbsp;\n      R(t) = Σ q<sub>i</sub> · P<sub>i</sub>(t)\n      <div class=\"mute\">quantities fixed at signing · every price a trailing 365-day average of daily fixes</div>\n    </div>\n  </section>\n\n  <section>\n    <h2>Mechanics</h2>\n    <ul>\n      <li>Reset — annual, on the contract anniversary; the TWAP window ends 30 days before payment, so the tenant knows the invoice a month ahead</li>\n      <li>Ruler — bitcoin: the basket is priced in sats over the BTC/USD 365-day TWAP</li>\n      <li>Collar — +35% / −15% per year in sats; wide enough to deliver the full index path, halving the descent toward the floor</li>\n      <li>Dual floor — never fewer satoshi than year 0, never fewer year-0 dollars; whichever binds</li>\n      <li>Oracle — a daily on-chain fix; on divergence the annex computation from named public fixes prevails <span class=\"mute\">— index disputes are arithmetic, never renegotiation</span></li>\n    </ul>\n  </section>\n\n  <section>\n    <h2>Pricer</h2>\n    <p class=\"note\">What the index is for. The product is a leasehold — the right to use a\n    parcel for a term, never its title. Part of its value is taken as a premium at signing,\n    the rest returned as rent, indexed for the life of the contract. Move the sliders to see\n    what that split costs, and what a review clause buys when the parcel appreciates faster\n    than the indexation. The dials are grouped by who holds them: what a tenant chooses, what\n    the world decides, and what the estate sets when it underwrites — the last are shown so\n    the price can be checked rather than taken on faith.</p>\n    ";

/// From the pricer to the views the script swaps in.
pub const PAGE_VIEWS: &'static str = "\n  </section>\n\n  <section>\n    <h2>Sources</h2>\n    <div class=\"note\">\n      This published series is a reconstruction from free public data, not the contractual\n      annex fix: BTC and ETH from Coinbase daily closes, gold from the\n      <a href=\"https://prices.lbma.org.uk/\">LBMA</a> PM fix, CNY from the ECB reference rate,\n      Brent and the IMF copper and uranium assessments from\n      <a href=\"https://fred.stlouisfed.org/\">FRED</a>. Copper and uranium publish monthly and\n      carry forward between prints. A signed lease names its own fixes with fallbacks —\n      see the protocol page in the graph.\n      Machine-readable: <a href=\"/cx/cx.json\">cx.json</a>.\n    </div>\n  </section>\n\n  <footer>\n    <span>don't trust · verify</span>\n    <a href=\"https://cyberia.my\">cyberia.my</a>\n  </footer>\n</main>\n<script>\n(() => {\n  const views = ";

/// After the views: the rest of the script and the page.
pub const PAGE_TAIL: &'static str = ";\n  const svg = document.getElementById('chart');\n  const readout = document.getElementById('readout');\n  const rest = readout.textContent;\n  let pts = [];\n\n  const bind = (key) => {\n    const view = views[key];\n    if (!view) return;\n    svg.innerHTML = view.svg;\n    pts = view.pts;\n  };\n\n  const at = (evt) => {\n    if (!pts.length) return;\n    const hover = svg.querySelector('.hover');\n    const cross = svg.querySelector('.cross');\n    const dot = svg.querySelector('.dot');\n    if (!hover) return;\n    const box = svg.getBoundingClientRect();\n    const x = ((evt.touches ? evt.touches[0].clientX : evt.clientX) - box.left) / box.width * 1000;\n    let best = 0;\n    for (let i = 1; i < pts.length; i++) {\n      if (Math.abs(pts[i][0] - x) < Math.abs(pts[best][0] - x)) best = i;\n    }\n    const p = pts[best];\n    cross.setAttribute('x1', p[0]); cross.setAttribute('x2', p[0]);\n    dot.setAttribute('cx', p[0]); dot.setAttribute('cy', p[1]);\n    hover.style.display = '';\n    readout.innerHTML = '<b>$' + p[2] + '</b> · ' + p[3];\n  };\n\n  const clear = () => {\n    const hover = svg.querySelector('.hover');\n    if (hover) hover.style.display = 'none';\n    readout.textContent = rest;\n  };\n\n  svg.addEventListener('mousemove', at);\n  svg.addEventListener('touchmove', at, {passive: true});\n  svg.addEventListener('mouseleave', clear);\n  svg.addEventListener('touchend', clear);\n\n  document.querySelectorAll('.tabs button').forEach((b) => {\n    b.addEventListener('click', () => {\n      document.querySelectorAll('.tabs button').forEach((o) => o.classList.remove('on'));\n      b.classList.add('on');\n      clear();\n      bind(b.dataset.range);\n    });\n  });\n})();\n</script>\n</body>\n</html>\n";

/// The tab of the `i`-th view: the first one starts switched on.
pub open spec fn tab_text(v: ChartView, i: int) -> Seq<char> {
    "<button class=\"tab"@ + (if i == 0 { " on"@ } else { Seq::empty() }) + "\" data-range=\""@ + v.key@
        + "\" role=\"tab\">"@ + v.label@ + "</button>"@
}

/// The tabs of the first `n` views.
pub open spec fn tabs_text(views: Seq<ChartView>, n: int) -> Seq<char>
    decreases n,
{
    if n <= 0 {
        Seq::empty()
    } else {
        tabs_text(views, n - 1) + tab_text(views[n - 1], n - 1)
    }
}

/// `s` made safe inside a JSON string: each `\` doubled, then each `"` escaped.
pub open spec fn escaped(s: Seq<char>) -> Seq<char> {
    replace_all(replace_all(s, "\\"@, "\\\\"@), "\""@, "\\\""@)
}

/// `true` or `false`.
pub open spec fn bool_text(b: bool) -> Seq<char> {
    if b { "true"@ } else { "false"@ }
}

/// The JSON entry of the `i`-th view, after a comma unless it is the first.
pub open spec fn view_entry(v: ChartView, i: int) -> Seq<char> {
    (if i > 0 { ","@ } else { Seq::empty() }) + "\""@ + v.key@ + "\":{\"svg\":\""@ + escaped(v.svg@) + "\",\"pts\":"@
        + v.points_json@ + ",\"log\":"@ + bool_text(v.logarithmic) + "}"@
}

/// The JSON entries of the first `n` views.
pub open spec fn view_entries(views: Seq<ChartView>, n: int) -> Seq<char>
    decreases n,
{
    if n <= 0 {
        Seq::empty()
    } else {
        view_entries(views, n - 1) + view_entry(views[n - 1], n - 1)
    }
}

/// Every view as one JSON object keyed by range.
pub open spec fn views_json(views: Seq<ChartView>) -> Seq<char> {
    "{"@ + view_entries(views, views.len() as int) + "}"@
}

/// The basket table's row for a holding and its share.
pub open spec fn leg_row(q: Quantity, leg: Leg, share: i128, fix: int) -> Seq<char> {
    "<tr><td><span class=\"d "@ + group_class_text(leg.group) + "\"></span>"@ + leg.ticker@
        + "</td><td class=\"n\">"@ + spec_format_thousands(fix, spec_fix_places(leg.ticker@) as int)
        + "</td><td class=\"n\">"@ + spec_format_thousands(q.quantity as int, spec_quantity_places(q.quantity as int) as int)
        + "</td><td class=\"n\">"@ + int_text(trunc_div(leg.weight_bp as int, 100)) + "%</td><td class=\"n\">"@
        + percent_text(share as int, 1) + "%</td></tr>"@
}

/// The basket table's rows for the first `n` holdings.
pub open spec fn leg_rows(qs: Seq<Quantity>, shares: Seq<(Leg, i128)>, twaps: Seq<(&str, Daily)>, day: int, n: int) -> Seq<
    char,
>
    decreases n,
{
    if n <= 0 {
        Seq::empty()
    } else {
        let (leg, share) = shares[n - 1];
        leg_rows(qs, shares, twaps, day, n - 1) + leg_row(qs[n - 1], leg, share, share_fix(twaps, leg, day))
    }
}

/// One segment of the weights bar.
pub open spec fn bar_segment(leg: Leg) -> Seq<char> {
    let pct = int_text(trunc_div(leg.weight_bp as int, 100));
    "<div class=\"seg "@ + group_class_text(leg.group) + "\" style=\"flex:"@ + int_text(leg.weight_bp as int)
        + "\" title=\""@ + leg.ticker@ + " \u{2014} "@ + pct + "%\"><i>"@ + pct + "</i></div>"@
}

/// The weights bar's segments for the first `n` legs.
pub open spec fn bar_segments(n: int) -> Seq<char>
    decreases n,
{
    if n <= 0 {
        Seq::empty()
    } else {
        bar_segments(n - 1) + bar_segment(spec_legs()[n - 1])
    }
}

/// One chip: a group and its weight in the basket as written.
pub open spec fn chip(g: Group) -> Seq<char> {
    "<span><span class=\"d "@ + group_class_text(g) + "\"></span>"@ + group_label(g) + " <b>"@ + percent_text(
        group_weight(g, 8),
        1,
    ) + "%</b></span>"@
}

/// The total share of group `g` among the first `n` shares.
pub open spec fn group_share(shares: Seq<(Leg, i128)>, g: Group, n: int) -> int
    decreases n,
{
    if n <= 0 {
        0
    } else {
        group_share(shares, g, n - 1) + if shares[n - 1].0.group == g { shares[n - 1].1 as int } else { 0 }
    }
}

/// One group and the share it has drifted to.
pub open spec fn drift_part(shares: Seq<(Leg, i128)>, g: Group) -> Seq<char> {
    group_label(g) + " "@ + percent_text(group_share(shares, g, shares.len() as int), 1) + "%"@
}

/// The drift of every group, in basket order.
pub open spec fn drift_text(shares: Seq<(Leg, i128)>) -> Seq<char> {
    drift_part(shares, Group::Crypto) + " \u{b7} "@ + drift_part(shares, Group::Fiat) + " \u{b7} "@ + drift_part(
        shares,
        Group::Elements,
    )
}

/// The day the page reads its fix on.
pub open spec fn readout_text(day: int) -> Seq<char> {
    "dollars per CX \u{b7} fix of "@ + date_text(day) + " \u{b7} hover the line for any day"@
}

/// The top of the page: the level, the range tabs, the first chart and the
/// readout.
pub open spec fn page_top(idx: Index, views: Seq<ChartView>) -> Seq<char> {
    let level = spec_format_thousands(idx.level.values@.last() as int, 2);
    PAGE_HEAD@ + level + PAGE_TITLE@ + level + PAGE_UNIT@ + date_text(idx.base_day as int) + PAGE_TABS@ + tabs_text(
        views,
        views.len() as int,
    ) + PAGE_CHART@ + views[0].svg@ + PAGE_READOUT@ + readout_text(last_level_day(idx))
}

/// The basket: the weights bar, the group chips and the table of holdings.
pub open spec fn page_basket(idx: Index, twaps: Seq<(&str, Daily)>) -> Seq<char> {
    let shares = latest_shares(idx, twaps);
    PAGE_BAR@ + bar_segments(8) + PAGE_CHIPS@ + chip(Group::Crypto) + chip(Group::Fiat) + chip(Group::Elements)
        + PAGE_LEGS@ + leg_rows(idx.quantities@, shares, twaps, last_level_day(idx), idx.quantities@.len() as int)
}

/// The bottom of the page: the drift note, the pricer and the views the
/// script swaps in.
pub open spec fn page_bottom(idx: Index, twaps: Seq<(&str, Daily)>, views: Seq<ChartView>, indexation_default: Seq<char>) -> Seq<
    char,
> {
    PAGE_FIXED_ON@ + date_text(idx.base_day as int) + PAGE_DRIFT@ + drift_text(latest_shares(idx, twaps)) + PAGE_PRICER@
        + pricer_text(indexation_default) + PAGE_VIEWS@ + views_json(views) + PAGE_TAIL@
}

/// The published page: the latest level, the chart, the basket as written
/// and as drifted, the pricer and the sources.
pub open spec fn page_text(idx: Index, twaps: Seq<(&str, Daily)>, views: Seq<ChartView>, indexation_default: Seq<char>) -> Seq<
    char,
> {
    page_top(idx, views) + page_basket(idx, twaps) + page_bottom(idx, twaps, views, indexation_default)
}


/// `t` occurs somewhere in `s`.
pub open spec fn contains(s: Seq<char>, t: Seq<char>) -> bool {
    exists|i: int| #[trigger] matches_at(s, t, i)
}

proof fn lemma_take_extend(s: Seq<char>, u: Seq<char>, k: int)
    requires
        0 <= k <= s.len(),
    ensures
        (s + u).take(k) == s.take(k),
{
    assert((s + u).take(k) =~= s.take(k));
}

proof fn lemma_contains_left(a: Seq<char>, b: Seq<char>, t: Seq<char>)
    requires
        contains(b, t),
    ensures
        contains(a + b, t),
{
    let i = choose|i: int| #[trigger] matches_at(b, t, i);
    assert((a + b).subrange(a.len() + i, a.len() + i + t.len()) =~= b.subrange(i, i + t.len()));
    assert(matches_at(a + b, t, a.len() + i));
}

proof fn lemma_contains_right(a: Seq<char>, b: Seq<char>, t: Seq<char>)
    requires
        contains(a, t),
    ensures
        contains(a + b, t),
{
    let i = choose|i: int| #[trigger] matches_at(a, t, i);
    assert((a + b).subrange(i, i + t.len()) =~= a.subrange(i, i + t.len()));
    assert(matches_at(a + b, t, i));
}

/// `s` ends with `t`.
spec fn ends_with(s: Seq<char>, t: Seq<char>) -> bool {
    s.len() >= t.len() && s.skip(s.len() - t.len()) == t
}

proof fn lemma_ends_with_self(x: Seq<char>, t: Seq<char>)
    ensures
        ends_with(x + t, t),
{
    assert((x + t).skip(x.len() as int) =~= t);
}

proof fn lemma_ends_with_extend(s: Seq<char>, t: Seq<char>, u: Seq<char>)
    requires
        ends_with(s, t),
    ensures
        ends_with(s + u, t + u),
{
    assert((s + u).skip(s.len() - t.len()) =~= s.skip(s.len() - t.len()) + u);
}

proof fn lemma_ends_contains(s: Seq<char>, t: Seq<char>)
    requires
        ends_with(s, t),
    ensures
        contains(s, t),
{
    let i = s.len() - t.len();
    assert(s.subrange(i, i + t.len()) =~= s.skip(i));
    assert(matches_at(s, t, i));
}

/// The tabs come one per view and in the views' order: the tabs of the
/// first `n` views open with the tabs of the first `i`, followed by the tab
/// of view `i`, which alone among them is switched on when `i` is zero.
pub proof fn lemma_tabs_in_order(views: Seq<ChartView>, n: int, i: int)
    requires
        0 <= i < n <= views.len(),
    ensures
        tabs_text(views, i + 1).len() <= tabs_text(views, n).len(),
        tabs_text(views, n).take(tabs_text(views, i + 1).len() as int) == tabs_text(views, i) + tab_text(views[i], i),
        tab_text(views[i], i) == "<button class=\"tab"@ + (if i == 0 { " on"@ } else { Seq::empty() }) + "\" data-range=\""@
            + views[i].key@ + "\" role=\"tab\">"@ + views[i].label@ + "</button>"@,
    decreases n,
{
    if n > i + 1 {
        lemma_tabs_in_order(views, n - 1, i);
        let a = tabs_text(views, n - 1);
        let k = tabs_text(views, i + 1).len() as int;
        assert(tabs_text(views, n) == a + tab_text(views[n - 1], n - 1));
        assert((a + tab_text(views[n - 1], n - 1)).take(k) =~= a.take(k));
    } else {
        assert(tabs_text(views, n).take(tabs_text(views, n).len() as int) =~= tabs_text(views, n));
    }
}

/// What the page shows: its title carries the latest level, the chart opens
/// on the first view's picture, the tabs of every view sit in order under
/// the level, and the pricer is embedded with its indexation default.
pub proof fn lemma_page_shows(idx: Index, twaps: Seq<(&str, Daily)>, views: Seq<ChartView>, indexation_default: Seq<char>)
    requires
        idx.level.values@.len() > 0,
        views.len() > 0,
    ensures
        ({
            let page = page_text(idx, twaps, views, indexation_default);
            let level = spec_format_thousands(idx.level.values@.last() as int, 2);
            &&& page.take((PAGE_HEAD@ + level + PAGE_TITLE@).len() as int) == PAGE_HEAD@ + level + PAGE_TITLE@
            &&& contains(page, PAGE_TABS@ + tabs_text(views, views.len() as int) + PAGE_CHART@ + views[0].svg@)
            &&& contains(page, pricer_text(indexation_default))
        }),
{
    let level = spec_format_thousands(idx.level.values@.last() as int, 2);
    let head = PAGE_HEAD@ + level + PAGE_TITLE@;
    let k = head.len() as int;
    let date = date_text(idx.base_day as int);
    let tabs = tabs_text(views, views.len() as int);
    let svg = views[0].svg@;
    let basket = page_basket(idx, twaps);
    let bottom = page_bottom(idx, twaps, views, indexation_default);
    // the title opens the page
    let s1 = head + level;
    let s2 = s1 + PAGE_UNIT@;
    let s3 = s2 + date;
    let s4 = s3 + PAGE_TABS@;
    let s5 = s4 + tabs;
    let s6 = s5 + PAGE_CHART@;
    let s7 = s6 + svg;
    let s8 = s7 + PAGE_READOUT@;
    let top = s8 + readout_text(last_level_day(idx));
    assert(top == page_top(idx, views));
    let s10 = top + basket;
    assert(head.take(k) =~= head);
    lemma_take_extend(head, level, k);
    lemma_take_extend(s1, PAGE_UNIT@, k);
    lemma_take_extend(s2, date, k);
    lemma_take_extend(s3, PAGE_TABS@, k);
    lemma_take_extend(s4, tabs, k);
    lemma_take_extend(s5, PAGE_CHART@, k);
    lemma_take_extend(s6, svg, k);
    lemma_take_extend(s7, PAGE_READOUT@, k);
    lemma_take_extend(s8, readout_text(last_level_day(idx)), k);
    lemma_take_extend(top, basket, k);
    lemma_take_extend(s10, bottom, k);
    // the tabs and the first picture sit together under the level
    lemma_ends_with_self(s3, PAGE_TABS@);
    lemma_ends_with_extend(s4, PAGE_TABS@, tabs);
    lemma_ends_with_extend(s5, PAGE_TABS@ + tabs, PAGE_CHART@);
    lemma_ends_with_extend(s6, PAGE_TABS@ + tabs + PAGE_CHART@, svg);
    let mid = PAGE_TABS@ + tabs + PAGE_CHART@ + svg;
    lemma_ends_contains(s7, mid);
    lemma_contains_right(s7, PAGE_READOUT@, mid);
    lemma_contains_right(s8, readout_text(last_level_day(idx)), mid);
    lemma_contains_right(top, basket, mid);
    lemma_contains_right(s10, bottom, mid);
    // the pricer sits in the bottom of the page
    let pricer = pricer_text(indexation_default);
    let b1 = PAGE_FIXED_ON@ + date + PAGE_DRIFT@ + drift_text(latest_shares(idx, twaps)) + PAGE_PRICER@;
    lemma_ends_with_self(b1, pricer);
    lemma_ends_contains(b1 + pricer, pricer);
    lemma_contains_right(b1 + pricer, PAGE_VIEWS@, pricer);
    lemma_contains_right(b1 + pricer + PAGE_VIEWS@, views_json(views), pricer);
    lemma_contains_right(b1 + pricer + PAGE_VIEWS@ + views_json(views), PAGE_TAIL@, pricer);
    assert(bottom == b1 + pricer + PAGE_VIEWS@ + views_json(views) + PAGE_TAIL@);
    lemma_contains_left(s10, bottom, pricer);
}


proof fn lemma_contains_self(t: Seq<char>)
    ensures
        contains(t, t),
{
    assert(t.subrange(0, t.len() as int) =~= t);
    assert(matches_at(t, t, 0));
}

proof fn lemma_contains_trans(a: Seq<char>, b: Seq<char>, c: Seq<char>)
    requires
        contains(a, b),
        contains(b, c),
    ensures
        contains(a, c),
{
    let i = choose|i: int| #[trigger] matches_at(a, b, i);
    let j = choose|j: int| #[trigger] matches_at(b, c, j);
    assert(a.subrange(i + j, i + j + c.len()) =~= b.subrange(j, j + c.len()));
    assert(matches_at(a, c, i + j));
}

proof fn lemma_rows_hold_row(qs: Seq<Quantity>, shares: Seq<(Leg, i128)>, twaps: Seq<(&str, Daily)>, day: int, n: int, k: int)
    requires
        0 <= k < n,
    ensures
        contains(
            leg_rows(qs, shares, twaps, day, n),
            leg_row(qs[k], shares[k].0, shares[k].1, share_fix(twaps, shares[k].0, day)),
        ),
    decreases n,
{
    let row = leg_row(qs[k], shares[k].0, shares[k].1, share_fix(twaps, shares[k].0, day));
    if k == n - 1 {
        lemma_ends_with_self(leg_rows(qs, shares, twaps, day, n - 1), row);
        lemma_ends_contains(leg_rows(qs, shares, twaps, day, n - 1) + row, row);
    } else {
        lemma_rows_hold_row(qs, shares, twaps, day, n - 1, k);
        let (leg, share) = shares[n - 1];
        lemma_contains_right(
            leg_rows(qs, shares, twaps, day, n - 1),
            leg_row(qs[n - 1], leg, share, share_fix(twaps, leg, day)),
            row,
        );
    }
}

/// The basket table shows what each leg has become: the row of holding `k`
/// closes with its weight as written and then its current share, the leg's
/// share of the level on the last day, in percent; so a leg whose price has
/// moved against the rest shows a share apart from its weight.
pub proof fn lemma_table_shows_current_share(idx: Index, twaps: Seq<(&str, Daily)>, views: Seq<ChartView>, indexation_default: Seq<char>, k: int)
    requires
        0 <= k < idx.quantities@.len(),
    ensures
        ({
            let share = latest_shares(idx, twaps)[k];
            contains(
                page_text(idx, twaps, views, indexation_default),
                int_text(trunc_div(idx.quantities@[k].leg.weight_bp as int, 100)) + "%</td><td class=\"n\">"@
                    + percent_text(share.1 as int, 1) + "%</td></tr>"@,
            )
        }),
{
    let qs = idx.quantities@;
    let shares = latest_shares(idx, twaps);
    let day = last_level_day(idx);
    let n = qs.len() as int;
    let (leg, share) = shares[k];
    assert(leg == qs[k].leg);
    let cell = int_text(trunc_div(leg.weight_bp as int, 100)) + "%</td><td class=\"n\">"@ + percent_text(share as int, 1)
        + "%</td></tr>"@;
    let row = leg_row(qs[k], leg, share, share_fix(twaps, leg, day));
    let lead = "<tr><td><span class=\"d "@ + group_class_text(leg.group) + "\"></span>"@ + leg.ticker@
        + "</td><td class=\"n\">"@ + spec_format_thousands(share_fix(twaps, leg, day), spec_fix_places(leg.ticker@) as int)
        + "</td><td class=\"n\">"@ + spec_format_thousands(qs[k].quantity as int, spec_quantity_places(qs[k].quantity as int) as int)
        + "</td><td class=\"n\">"@;
    assert(row =~= lead + cell);
    lemma_ends_with_self(lead, cell);
    lemma_ends_contains(row, cell);
    lemma_rows_hold_row(qs, shares, twaps, day, n, k);
    let rows = leg_rows(qs, shares, twaps, day, n);
    lemma_contains_trans(rows, row, cell);
    let before = PAGE_BAR@ + bar_segments(8) + PAGE_CHIPS@ + chip(Group::Crypto) + chip(Group::Fiat) + chip(Group::Elements)
        + PAGE_LEGS@;
    assert(page_basket(idx, twaps) == before + rows);
    lemma_contains_left(before, rows, cell);
    lemma_contains_left(page_top(idx, views), page_basket(idx, twaps), cell);
    lemma_contains_right(
        page_top(idx, views) + page_basket(idx, twaps),
        page_bottom(idx, twaps, views, indexation_default),
        cell,
    );
}

proof fn lemma_json_legs_hold_leg(
    qs: Seq<Quantity>,
    shares: Seq<(Leg, i128)>,
    twaps: Seq<(&str, Daily)>,
    cov: Seq<(&str, String, usize)>,
    day: int,
    n: int,
    k: int,
)
    requires
        0 <= k < n,
    ensures
        contains(
            json_legs(qs, shares, twaps, cov, day, n),
            json_leg(qs[k], shares[k].0, shares[k].1, share_fix(twaps, shares[k].0, day), json_coverage(cov, shares[k].0.ticker@), k + 1 >= qs.len()),
        ),
    decreases n,
{
    let entry = json_leg(qs[k], shares[k].0, shares[k].1, share_fix(twaps, shares[k].0, day), json_coverage(cov, shares[k].0.ticker@), k + 1 >= qs.len());
    let prev = json_legs(qs, shares, twaps, cov, day, n - 1);
    if k == n - 1 {
        lemma_ends_with_self(prev, entry);
        lemma_ends_contains(prev + entry, entry);
    } else {
        lemma_json_legs_hold_leg(qs, shares, twaps, cov, day, n - 1, k);
        let (leg, share) = shares[n - 1];
        lemma_contains_right(
            prev,
            json_leg(qs[n - 1], leg, share, share_fix(twaps, leg, day), json_coverage(cov, leg.ticker@), n >= qs.len()),
            entry,
        );
    }
}

/// The data prints each leg's latest average: the entry of holding `k`
/// gives, after who the leg is and what it weighs, the fix that leg's
/// average series reads on the last day of the level, the day the data
/// reports (nothing where the series does not reach it), not the fix it was
/// bought at.
pub proof fn lemma_json_prints_latest_fix(idx: Index, twaps: Seq<(&str, Daily)>, cov: Seq<(&str, String, usize)>, k: int)
    requires
        0 <= k < idx.quantities@.len(),
        idx.level.values@.len() > 0,
    ensures
        ({
            let leg = idx.quantities@[k].leg;
            contains(
                json_text(idx, twaps, cov),
                json_leg_head(leg) + "\", \"fix\": "@ + spec_format_fixed(share_fix(twaps, leg, last_level_day(idx)), 6)
                    + ", \"quantity\": "@,
            )
        }),
{
    let qs = idx.quantities@;
    let shares = latest_shares(idx, twaps);
    let day = json_day(idx);
    assert(day == last_level_day(idx));
    let n = qs.len() as int;
    let (leg, share) = shares[k];
    assert(leg == qs[k].leg);
    let cov_k = json_coverage(cov, leg.ticker@);
    let fix = share_fix(twaps, leg, day);
    let piece = json_leg_head(leg) + "\", \"fix\": "@ + spec_format_fixed(fix, 6) + ", \"quantity\": "@;
    let entry = json_leg(qs[k], leg, share, fix, cov_k, k + 1 >= n);
    let rest = spec_format_fixed(qs[k].quantity as int, 8) + ", \"share_bp\": "@ + int_text(share as int)
        + ", \"source\": \""@ + leg.source@ + "\", \"coverage\": \""@ + cov_k + "\"}"@ + (if k + 1 >= n {
        Seq::<char>::empty()
    } else {
        ","@
    }) + "\n"@;
    assert(entry =~= piece + rest);
    lemma_contains_self(piece);
    lemma_contains_right(piece, rest, piece);
    lemma_json_legs_hold_leg(qs, shares, twaps, cov, day, n, k);
    let legs = json_legs(qs, shares, twaps, cov, day, n);
    lemma_contains_trans(legs, entry, piece);
    let before = JSON_HEAD@ + date_text(idx.base_day as int) + JSON_DATE@ + date_text(day) + JSON_LEVEL@ + spec_format_fixed(
        json_level(idx),
        4,
    ) + JSON_LEGS@;
    let after = JSON_HISTORY@ + json_weeks(idx.level, week_count(idx.level)) + JSON_TAIL@;
    assert(json_text(idx, twaps, cov) == before + legs + after);
    lemma_contains_left(before, legs, piece);
    lemma_contains_right(before + legs, after, piece);
}

/// Appends the tabs of every view.
fn push_tabs(out: &mut String, views: &[ChartView])
    ensures
        final(out)@ == old(out)@ + tabs_text(views@, views@.len() as int),
{
    let ghost start = out@;
    let mut i: usize = 0;
    while i < views.len()
        invariant
            0 <= i <= views@.len(),
            out@ == start + tabs_text(views@, i as int),
        decreases views@.len() - i,
    {
        let ghost before = out@;
        out.append("<button class=\"tab");
        if i == 0 {
            out.append(" on");
        }
        out.append("\" data-range=\"");
        out.append(views[i].key);
        out.append("\" role=\"tab\">");
        out.append(views[i].label);
        out.append("</button>");
        assert(out@ =~= before + tab_text(views@[i as int], i as int));
        i = i + 1;
    }
}

/// Appends every view as one JSON object keyed by range.
fn push_views_json(out: &mut String, views: &[ChartView])
    ensures
        final(out)@ == old(out)@ + views_json(views@),
{
    let ghost start = out@;
    proof {
        reveal_strlit("\\");
        reveal_strlit("\"");
    }
    out.append("{");
    let ghost head = out@;
    let mut i: usize = 0;
    while i < views.len()
        invariant
            0 <= i <= views@.len(),
            "\\"@.len() == 1,
            "\""@.len() == 1,
            out@ == head + view_entries(views@, i as int),
        decreases views@.len() - i,
    {
        let ghost before = out@;
        if i > 0 {
            out.append(",");
        }
        out.append("\"");
        out.append(views[i].key);
        out.append("\":{\"svg\":\"");
        let once = replace(views[i].svg.as_str(), "\\", "\\\\");
        let twice = replace(once.as_str(), "\"", "\\\"");
        out.append(twice.as_str());
        out.append("\",\"pts\":");
        out.append(views[i].points_json.as_str());
        out.append(",\"log\":");
        if views[i].logarithmic {
            out.append("true");
        } else {
            out.append("false");
        }
        out.append("}");
        assert(out@ =~= before + view_entry(views@[i as int], i as int));
        i = i + 1;
    }
    out.append("}");
    assert(out@ =~= start + views_json(views@));
}

/// Appends the basket table's row for a holding.
#[verifier::rlimit(40)]
fn push_leg_row(out: &mut String, q: Quantity, leg: Leg, share: i128, fix: i128)
    requires
        -QUANTITY_LIMIT <= q.quantity <= QUANTITY_LIMIT,
        -SHARE_LIMIT <= leg.weight_bp <= SHARE_LIMIT,
        -SHARE_LIMIT <= share <= SHARE_LIMIT,
        -PRICE_LIMIT <= fix <= PRICE_LIMIT,
    ensures
        final(out)@ == old(out)@ + leg_row(q, leg, share, fix as int),
{
    let ghost start = out@;
    out.append("<tr><td><span class=\"d ");
    out.append(group_class(leg.group));
    out.append("\"></span>");
    out.append(leg.ticker);
    out.append("</td><td class=\"n\">");
    out.append(format_thousands(fix, leg.fix_places()).as_str());
    out.append("</td><td class=\"n\">");
    out.append(format_thousands(q.quantity, leg.quantity_places(q.quantity)).as_str());
    out.append("</td><td class=\"n\">");
    let pct = leg.weight_bp / 100;
    assert(pct == trunc_div(leg.weight_bp as int, 100));
    push_int(out, pct);
    out.append("%</td><td class=\"n\">");
    let share_pct = share * SCALE / 100;
    assert(share_pct == trunc_div(share * SCALE, 100));
    out.append(format_fixed(share_pct, 1).as_str());
    out.append("%</td></tr>");
    assert(out@ =~= start + leg_row(q, leg, share, fix as int));
}

/// Appends the basket table's rows.
#[verifier::rlimit(30)]
fn push_leg_rows(out: &mut String, idx: &Index, shares: &Vec<(Leg, i128)>, twaps: &[(&str, Daily)], day: i64)
    requires
        index_readable(*idx),
        holdings_printable(idx.quantities@),
        series_readable(twaps@),
        averages_chartable(twaps@),
        -DAY_BOUND <= day <= DAY_BOUND,
        shares@.len() == idx.quantities@.len(),
        forall|k: int| 0 <= k < shares@.len() ==> {
            &&& -SHARE_LIMIT <= (#[trigger] shares@[k]).0.weight_bp <= SHARE_LIMIT
            &&& -SHARE_LIMIT <= shares@[k].1 <= SHARE_LIMIT
        },
    ensures
        final(out)@ == old(out)@ + leg_rows(idx.quantities@, shares@, twaps@, day as int, idx.quantities@.len() as int),
{
    let ghost start = out@;
    let mut i: usize = 0;
    while i < idx.quantities.len()
        invariant
            0 <= i <= idx.quantities@.len(),
            index_readable(*idx),
            series_readable(twaps@),
            averages_chartable(twaps@),
            -DAY_BOUND <= day <= DAY_BOUND,
            shares@.len() == idx.quantities@.len(),
            forall|k: int| 0 <= k < shares@.len() ==> {
                &&& -SHARE_LIMIT <= (#[trigger] shares@[k]).0.weight_bp <= SHARE_LIMIT
                &&& -SHARE_LIMIT <= shares@[k].1 <= SHARE_LIMIT
            },
            out@ == start + leg_rows(idx.quantities@, shares@, twaps@, day as int, i as int),
        decreases idx.quantities@.len() - i,
    {
        let q = idx.quantities[i];
        let (leg, share) = shares[i];
        proof {
            assert(-QUANTITY_LIMIT <= idx.quantities@[i as int].quantity <= QUANTITY_LIMIT);
        }
        let fix = fix_for(twaps, leg, day);
        let ghost before = out@;
        push_leg_row(out, q, leg, share, fix);
        proof {
            let qs = idx.quantities@;
            assert(leg_rows(qs, shares@, twaps@, day as int, i + 1) == leg_rows(qs, shares@, twaps@, day as int, i as int)
                + leg_row(qs[i as int], leg, share, fix as int));
            assert(out@ =~= start + leg_rows(qs, shares@, twaps@, day as int, i + 1));
        }
        i = i + 1;
    }
}

/// Appends one segment of the weights bar.
#[verifier::rlimit(40)]
fn push_bar_segment(out: &mut String, leg: Leg)
    requires
        0 <= leg.weight_bp <= 10_000,
    ensures
        final(out)@ == old(out)@ + bar_segment(leg),
{
    let ghost start = out@;
    let pct = leg.weight_bp / 100;
    assert(pct == trunc_div(leg.weight_bp as int, 100));
    out.append("<div class=\"seg ");
    out.append(group_class(leg.group));
    out.append("\" style=\"flex:");
    push_int(out, leg.weight_bp);
    out.append("\" title=\"");
    out.append(leg.ticker);
    out.append(" \u{2014} ");
    push_int(out, pct);
    out.append("%\"><i>");
    push_int(out, pct);
    out.append("</i></div>");
    assert(out@ =~= start + bar_segment(leg));
}

/// Appends the weights bar's segments, one per leg.
fn push_bar(out: &mut String)
    ensures
        final(out)@ == old(out)@ + bar_segments(8),
{
    let ghost start = out@;
    let all = legs();
    let mut i: usize = 0;
    while i < all.len()
        invariant
            0 <= i <= all@.len(),
            all@ == spec_legs(),
            all@.len() == 8,
            out@ == start + bar_segments(i as int),
        decreases all@.len() - i,
    {
        let leg = all[i];
        proof {
            assert(0 <= leg.weight_bp <= 10_000);
        }
        push_bar_segment(out, leg);
        i = i + 1;
    }
}

/// The weight in the basket of each group as written: crypto, fiat, elements.
fn group_totals() -> (r: (i128, i128, i128))
    ensures
        r.0 == group_weight(Group::Crypto, 8),
        r.1 == group_weight(Group::Fiat, 8),
        r.2 == group_weight(Group::Elements, 8),
{
    let all = legs();
    let mut c: i128 = 0;
    let mut f: i128 = 0;
    let mut e: i128 = 0;
    let mut i: usize = 0;
    while i < all.len()
        invariant
            0 <= i <= all@.len(),
            all@ == spec_legs(),
            all@.len() == 8,
            c == group_weight(Group::Crypto, i as int),
            f == group_weight(Group::Fiat, i as int),
            e == group_weight(Group::Elements, i as int),
            0 <= c <= i * 10_000,
            0 <= f <= i * 10_000,
            0 <= e <= i * 10_000,
        decreases all@.len() - i,
    {
        let leg = all[i];
        proof {
            assert(0 <= leg.weight_bp <= 10_000);
        }
        if leg.group == Group::Crypto {
            c = c + leg.weight_bp;
        }
        if leg.group == Group::Fiat {
            f = f + leg.weight_bp;
        }
        if leg.group == Group::Elements {
            e = e + leg.weight_bp;
        }
        i = i + 1;
    }
    (c, f, e)
}

/// Appends one chip.
fn push_chip(out: &mut String, g: Group, total: i128)
    requires
        total == group_weight(g, 8),
        0 <= total <= 10_000,
    ensures
        final(out)@ == old(out)@ + chip(g),
{
    let ghost start = out@;
    out.append("<span><span class=\"d ");
    out.append(group_class(g));
    out.append("\"></span>");
    out.append(g.label());
    out.append(" <b>");
    out.append(format_fixed(total * SCALE / 100, 1).as_str());
    out.append("%</b></span>");
    assert(out@ =~= start + chip(g));
}

/// The total share of each group: crypto, fiat, elements.
fn group_shares(shares: &Vec<(Leg, i128)>) -> (r: (i128, i128, i128))
    requires
        shares@.len() <= 1_048_576,
        forall|k: int| 0 <= k < shares@.len() ==> -SHARE_LIMIT <= (#[trigger] shares@[k]).1 <= SHARE_LIMIT,
    ensures
        r.0 == group_share(shares@, Group::Crypto, shares@.len() as int),
        r.1 == group_share(shares@, Group::Fiat, shares@.len() as int),
        r.2 == group_share(shares@, Group::Elements, shares@.len() as int),
        -1_048_576 * SHARE_LIMIT <= r.0 <= 1_048_576 * SHARE_LIMIT,
        -1_048_576 * SHARE_LIMIT <= r.1 <= 1_048_576 * SHARE_LIMIT,
        -1_048_576 * SHARE_LIMIT <= r.2 <= 1_048_576 * SHARE_LIMIT,
{
    let mut c: i128 = 0;
    let mut f: i128 = 0;
    let mut e: i128 = 0;
    let mut i: usize = 0;
    while i < shares.len()
        invariant
            0 <= i <= shares@.len(),
            shares@.len() <= 1_048_576,
            forall|k: int| 0 <= k < shares@.len() ==> -SHARE_LIMIT <= (#[trigger] shares@[k]).1 <= SHARE_LIMIT,
            c == group_share(shares@, Group::Crypto, i as int),
            f == group_share(shares@, Group::Fiat, i as int),
            e == group_share(shares@, Group::Elements, i as int),
            -i * SHARE_LIMIT <= c <= i * SHARE_LIMIT,
            -i * SHARE_LIMIT <= f <= i * SHARE_LIMIT,
            -i * SHARE_LIMIT <= e <= i * SHARE_LIMIT,
        decreases shares@.len() - i,
    {
        let (leg, share) = shares[i];
        if leg.group == Group::Crypto {
            c = c + share;
        }
        if leg.group == Group::Fiat {
            f = f + share;
        }
        if leg.group == Group::Elements {
            e = e + share;
        }
        i = i + 1;
    }
    (c, f, e)
}

/// Appends one group's drifted share.
fn push_drift_part(out: &mut String, shares: Ghost<Seq<(Leg, i128)>>, g: Group, total: i128)
    requires
        total == group_share(shares@, g, shares@.len() as int),
        -1_048_576 * SHARE_LIMIT <= total <= 1_048_576 * SHARE_LIMIT,
    ensures
        final(out)@ == old(out)@ + drift_part(shares@, g),
{
    let ghost start = out@;
    out.append(g.label());
    out.append(" ");
    out.append(format_fixed(total * SCALE / 100, 1).as_str());
    out.append("%");
    assert(out@ =~= start + drift_part(shares@, g));
}

/// Appends the top of the page.
#[verifier::rlimit(40)]
fn push_page_top(out: &mut String, idx: &Index, views: &[ChartView], day: i64, level: i128)
    requires
        idx.level.values@.len() > 0,
        views@.len() > 0,
        day == last_level_day(*idx),
        level == idx.level.values@.last(),
        -PRICE_LIMIT <= level <= PRICE_LIMIT,
        -DAY_BOUND <= day <= DAY_BOUND,
        -DAY_BOUND <= idx.base_day <= DAY_BOUND,
    ensures
        final(out)@ == old(out)@ + page_top(*idx, views@),
{
    let ghost start = out@;
    let level_text = format_thousands(level, 2);
    out.append(PAGE_HEAD);
    out.append(level_text.as_str());
    out.append(PAGE_TITLE);
    out.append(level_text.as_str());
    out.append(PAGE_UNIT);
    out.append(format_date(idx.base_day).as_str());
    out.append(PAGE_TABS);
    push_tabs(out, views);
    out.append(PAGE_CHART);
    out.append(views[0].svg.as_str());
    out.append(PAGE_READOUT);
    out.append("dollars per CX \u{b7} fix of ");
    out.append(format_date(day).as_str());
    out.append(" \u{b7} hover the line for any day");
    assert(out@ =~= start + page_top(*idx, views@));
}

/// Appends the basket: bar, chips and holdings.
fn push_page_basket(out: &mut String, idx: &Index, shares: &Vec<(Leg, i128)>, twaps: &[(&str, Daily)], day: i64)
    requires
        publishable(*idx, twaps@),
        shares@ == latest_shares(*idx, twaps@),
        day == last_level_day(*idx),
        -DAY_BOUND <= day <= DAY_BOUND,
    ensures
        final(out)@ == old(out)@ + page_basket(*idx, twaps@),
{
    let ghost start = out@;
    proof {
        lemma_latest_shares(*idx, twaps@);
        lemma_group_weights();
    }
    out.append(PAGE_BAR);
    push_bar(out);
    out.append(PAGE_CHIPS);
    let (c, f, e) = group_totals();
    push_chip(out, Group::Crypto, c);
    push_chip(out, Group::Fiat, f);
    push_chip(out, Group::Elements, e);
    out.append(PAGE_LEGS);
    push_leg_rows(out, idx, shares, twaps, day);
    assert(out@ =~= start + page_basket(*idx, twaps@));
}

/// Appends the bottom of the page: drift, pricer, views.
fn push_page_bottom(
    out: &mut String,
    idx: &Index,
    shares: &Vec<(Leg, i128)>,
    twaps: Ghost<Seq<(&str, Daily)>>,
    views: &[ChartView],
    indexation_default: &str,
)
    requires
        -DAY_BOUND <= idx.base_day <= DAY_BOUND,
        shares@ == latest_shares(*idx, twaps@),
        shares@.len() <= 1_048_576,
        forall|k: int| 0 <= k < shares@.len() ==> -SHARE_LIMIT <= (#[trigger] shares@[k]).1 <= SHARE_LIMIT,
    ensures
        final(out)@ == old(out)@ + page_bottom(*idx, twaps@, views@, indexation_default@),
{
    let ghost start = out@;
    out.append(PAGE_FIXED_ON);
    out.append(format_date(idx.base_day).as_str());
    out.append(PAGE_DRIFT);
    let (dc, df, de) = group_shares(shares);
    let ghost before_drift = out@;
    push_drift_part(out, Ghost(shares@), Group::Crypto, dc);
    out.append(" \u{b7} ");
    push_drift_part(out, Ghost(shares@), Group::Fiat, df);
    out.append(" \u{b7} ");
    push_drift_part(out, Ghost(shares@), Group::Elements, de);
    assert(out@ =~= before_drift + drift_text(shares@));
    out.append(PAGE_PRICER);
    out.append(html(indexation_default).as_str());
    out.append(PAGE_VIEWS);
    push_views_json(out, views);
    out.append(PAGE_TAIL);
    assert(out@ =~= start + page_bottom(*idx, twaps@, views@, indexation_default@));
}

/// The page for an index with a level and at least one view.
#[verifier::rlimit(60)]
fn page_for(idx: &Index, twaps: &[(&str, Daily)], views: &[ChartView], indexation_default: &str, day: i64, level: i128) -> (r: String)
    requires
        publishable(*idx, twaps@),
        idx.level.values@.len() > 0,
        views@.len() > 0,
        day == last_level_day(*idx),
        level == idx.level.values@.last(),
    ensures
        r@ == page_text(*idx, twaps@, views@, indexation_default@),
{
    proof {
        assert(-PRICE_LIMIT <= idx.level.values@.last() <= PRICE_LIMIT);
        lemma_latest_shares(*idx, twaps@);
    }
    let shares = idx.current_shares(twaps);
    let mut page = String::new();
    push_page_top(&mut page, idx, views, day, level);
    let ghost top = page@;
    push_page_basket(&mut page, idx, &shares, twaps, day);
    let ghost basket = page@;
    push_page_bottom(&mut page, idx, &shares, Ghost(twaps@), views, indexation_default);
    proof {
        assert(page@ =~= page_text(*idx, twaps@, views@, indexation_default@));
    }
    page
}

/// The published page, with the pricer's indexation slider opening at
/// `indexation_default`. `Err` when the index has no level yet, or when
/// there is no chart view to show.
pub fn render(idx: &Index, twaps: &[(&str, Daily)], views: &[ChartView], indexation_default: &str) -> (r: Result<
    String,
    String,
>)
    requires
        publishable(*idx, twaps@),
    ensures
        r is Ok <==> (idx.level.values@.len() > 0 && views@.len() > 0),
        match r {
            Ok(page) => {
                &&& idx.level.values@.len() > 0
                &&& views@.len() > 0
                &&& page@ == page_text(*idx, twaps@, views@, indexation_default@)
            },
            Err(e) => {
                ||| idx.level.values@.len() == 0 && e@ == "no index level"@
                ||| idx.level.values@.len() > 0 && views@.len() == 0 && e@ == "no chart views"@
            },
        },
{
    let (day, level) = match idx.latest() {
        Some(v) => v,
        None => {
            return Err(String::from_str("no index level"));
        },
    };
    if views.len() == 0 {
        return Err(String::from_str("no chart views"));
    }
    let page = page_for(idx, twaps, views, indexation_default, day, level);
    Ok(page)
}


// ---------------------------------------------------------------------------
// the machine-readable fix
// ---------------------------------------------------------------------------

/// The fix as data, up to the base date.
pub const JSON_HEAD: &'static str = "{\n  \"index\": \"CX\",\n  \"base_date\": \"";

/// From the base date to the fix's date.
pub const JSON_DATE: &'static str = "\",\n  \"base_level\": 1,\n  \"unit\": \"USD per CX\",\n  \"date\": \"";

/// From the fix's date to its level.
pub const JSON_LEVEL: &'static str = "\",\n  \"level\": ";

/// From the level to the legs.
pub const JSON_LEGS: &'static str = ",\n  \"twap_days\": 365,\n  \"legs\": [\n";

/// From the legs to the history.
pub const JSON_HISTORY: &'static str = "  ],\n  \"history\": [\n";

/// After the history.
pub const JSON_TAIL: &'static str = "\n  ]\n}\n";

/// The day the data reads its fix on: the last day of the level, or day zero
/// when there is no level.
pub open spec fn json_day(idx: Index) -> int {
    if idx.level.values@.len() > 0 { last_level_day(idx) } else { 0 }
}

/// The level the data reports: the last one, or zero when there is none.
pub open spec fn json_level(idx: Index) -> int {
    if idx.level.values@.len() > 0 { idx.level.values@.last() as int } else { 0 }
}

/// What the coverage entries say of a ticker, as data: the span and the
/// number of observations, or nothing.
pub open spec fn json_coverage(cov: Seq<(&str, String, usize)>, ticker: Seq<char>) -> Seq<char> {
    let i = coverage_index(cov, ticker);
    if i < cov.len() {
        cov[i].1@ + " ("@ + decimal_digits(cov[i].2 as nat) + " observations)"@
    } else {
        Seq::empty()
    }
}

/// The data of one holding, followed by a comma unless it is the last.
pub open spec fn json_leg(q: Quantity, leg: Leg, share: i128, fix: int, cov: Seq<char>, last: bool) -> Seq<char> {
    "    {\"ticker\": \""@ + leg.ticker@ + "\", \"group\": \""@ + group_label(leg.group) + "\", \"weight_bp\": "@
        + int_text(leg.weight_bp as int) + ", \"unit\": \""@ + leg.unit@ + "\", \"fix\": "@ + spec_format_fixed(fix, 6)
        + ", \"quantity\": "@ + spec_format_fixed(q.quantity as int, 8) + ", \"share_bp\": "@ + int_text(share as int)
        + ", \"source\": \""@ + leg.source@ + "\", \"coverage\": \""@ + cov + "\"}"@ + (if last {
        Seq::empty()
    } else {
        ","@
    }) + "\n"@
}

/// The data of the first `n` holdings.
pub open spec fn json_legs(
    qs: Seq<Quantity>,
    shares: Seq<(Leg, i128)>,
    twaps: Seq<(&str, Daily)>,
    cov: Seq<(&str, String, usize)>,
    day: int,
    n: int,
) -> Seq<char>
    decreases n,
{
    if n <= 0 {
        Seq::empty()
    } else {
        let (leg, share) = shares[n - 1];
        json_legs(qs, shares, twaps, cov, day, n - 1) + json_leg(
            qs[n - 1],
            leg,
            share,
            share_fix(twaps, leg, day),
            json_coverage(cov, leg.ticker@),
            n >= qs.len(),
        )
    }
}

/// The level every seventh day from the start, for the first `k` weeks.
pub open spec fn json_weeks(level: Daily, k: int) -> Seq<char>
    decreases k,
{
    if k <= 0 {
        Seq::empty()
    } else {
        let day = level.start + 7 * (k - 1);
        json_weeks(level, k - 1) + (if k > 1 { ",\n"@ } else { Seq::empty() }) + "    [\""@ + date_text(day) + "\", "@
            + spec_format_fixed(fix_on(level, day) as int, 4) + "]"@
    }
}

/// How many weekly points the history holds.
pub open spec fn week_count(level: Daily) -> int {
    if level.values@.len() > 0 { (level.values@.len() - 1) / 7 + 1 } else { 0 }
}

/// The same fix as data: the level, the quantities with their provenance,
/// and the level every seventh day.
pub open spec fn json_text(idx: Index, twaps: Seq<(&str, Daily)>, cov: Seq<(&str, String, usize)>) -> Seq<char> {
    let day = json_day(idx);
    JSON_HEAD@ + date_text(idx.base_day as int) + JSON_DATE@ + date_text(day) + JSON_LEVEL@ + spec_format_fixed(
        json_level(idx),
        4,
    ) + JSON_LEGS@ + json_legs(
        idx.quantities@,
        latest_shares(idx, twaps),
        twaps,
        cov,
        day,
        idx.quantities@.len() as int,
    ) + JSON_HISTORY@ + json_weeks(idx.level, week_count(idx.level)) + JSON_TAIL@
}

/// Appends what the coverage entries say of `ticker`, as data.
fn push_json_coverage(out: &mut String, cov: &[(&str, String, usize)], ticker: &str)
    ensures
        final(out)@ == old(out)@ + json_coverage(cov@, ticker@),
{
    let ghost start = out@;
    let i = find_coverage(cov, ticker);
    if i < cov.len() {
        out.append(cov[i].1.as_str());
        out.append(" (");
        push_decimal(out, cov[i].2 as u128);
        out.append(" observations)");
    }
    assert(out@ =~= start + json_coverage(cov@, ticker@));
}

/// The first half of a holding's data: who it is and what it weighs.
pub open spec fn json_leg_head(leg: Leg) -> Seq<char> {
    "    {\"ticker\": \""@ + leg.ticker@ + "\", \"group\": \""@ + group_label(leg.group) + "\", \"weight_bp\": "@
        + int_text(leg.weight_bp as int) + ", \"unit\": \""@ + leg.unit@
}

/// Appends the first half of a holding's data.
fn push_json_leg_head(out: &mut String, leg: Leg)
    requires
        -SHARE_LIMIT <= leg.weight_bp <= SHARE_LIMIT,
    ensures
        final(out)@ == old(out)@ + json_leg_head(leg),
{
    let ghost start = out@;
    out.append("    {\"ticker\": \"");
    out.append(leg.ticker);
    out.append("\", \"group\": \"");
    out.append(leg.group.label());
    out.append("\", \"weight_bp\": ");
    push_int(out, leg.weight_bp);
    out.append(", \"unit\": \"");
    out.append(leg.unit);
    assert(out@ =~= start + json_leg_head(leg));
}

/// Appends the data of one holding.
#[verifier::rlimit(40)]
fn push_json_leg(
    out: &mut String,
    q: Quantity,
    leg: Leg,
    share: i128,
    fix: i128,
    cov: &[(&str, String, usize)],
    last: bool,
)
    requires
        -QUANTITY_LIMIT <= q.quantity <= QUANTITY_LIMIT,
        -SHARE_LIMIT <= leg.weight_bp <= SHARE_LIMIT,
        -SHARE_LIMIT <= share <= SHARE_LIMIT,
        -PRICE_LIMIT <= fix <= PRICE_LIMIT,
    ensures
        final(out)@ == old(out)@ + json_leg(q, leg, share, fix as int, json_coverage(cov@, leg.ticker@), last),
{
    let ghost start = out@;
    push_json_leg_head(out, leg);
    let ghost mid = out@;
    out.append("\", \"fix\": ");
    out.append(format_fixed(fix, 6).as_str());
    out.append(", \"quantity\": ");
    out.append(format_fixed(q.quantity, 8).as_str());
    out.append(", \"share_bp\": ");
    push_int(out, share);
    out.append(", \"source\": \"");
    out.append(leg.source);
    out.append("\", \"coverage\": \"");
    push_json_coverage(out, cov, leg.ticker);
    out.append("\"}");
    if !last {
        out.append(",");
    }
    out.append("\n");
    assert(json_leg(q, leg, share, fix as int, json_coverage(cov@, leg.ticker@), last) =~= json_leg_head(leg)
        + "\", \"fix\": "@ + spec_format_fixed(fix as int, 6) + ", \"quantity\": "@ + spec_format_fixed(q.quantity as int, 8)
        + ", \"share_bp\": "@ + int_text(share as int) + ", \"source\": \""@ + leg.source@ + "\", \"coverage\": \""@
        + json_coverage(cov@, leg.ticker@) + "\"}"@ + (if last { Seq::empty() } else { ","@ }) + "\n"@);
    assert(out@ =~= start + json_leg(q, leg, share, fix as int, json_coverage(cov@, leg.ticker@), last));
}

/// Appends the level every seventh day.
fn push_json_weeks(out: &mut String, level: &Daily)
    requires
        chartable(*level),
        prices_bounded(level.values@),
    ensures
        final(out)@ == old(out)@ + json_weeks(*level, week_count(*level)),
{
    let ghost start = out@;
    proof {
        assert(daily_fits(level.start, level.values@.len()));
    }
    let end = level.end();
    let mut cursor = level.start;
    let mut first = true;
    let ghost mut k: int = 0;
    while cursor <= end
        invariant
            chartable(*level),
            prices_bounded(level.values@),
            end == level.start + level.values@.len() - 1,
            cursor == level.start + 7 * k,
            0 <= k,
            k > 0 ==> cursor - 7 <= end,
            first == (k == 0),
            out@ == start + json_weeks(*level, k),
        decreases end + 7 - cursor,
    {
        let ghost before = out@;
        if let Some(v) = level.value_on(cursor) {
            if !first {
                out.append(",\n");
            }
            out.append("    [\"");
            out.append(format_date(cursor).as_str());
            out.append("\", ");
            out.append(format_fixed(v, 4).as_str());
            out.append("]");
            first = false;
        }
        assert(out@ =~= before + (if k > 0 { ",\n"@ } else { Seq::empty() }) + "    [\""@ + date_text(cursor as int)
            + "\", "@ + spec_format_fixed(fix_on(*level, cursor as int) as int, 4) + "]"@);
        cursor = cursor + 7;
        proof {
            k = k + 1;
        }
    }
    proof {
        if level.values@.len() > 0 {
            assert(k == week_count(*level)) by (nonlinear_arith)
                requires cursor == level.start + 7 * k, cursor > end, k > 0, cursor - 7 <= end,
                    end == level.start + level.values@.len() - 1, week_count(*level) == (level.values@.len()
                    - 1) / 7 + 1;
        } else {
            assert(k == 0);
        }
    }
}

/// The same fix as data: the level series, the quantities and the provenance.
#[verifier::rlimit(40)]
pub fn render_json(idx: &Index, twaps: &[(&str, Daily)], coverage: &[(&str, String, usize)]) -> (r: String)
    requires
        publishable(*idx, twaps@),
    ensures
        r@ == json_text(*idx, twaps@, coverage@),
{
    let (day, level) = match idx.latest() {
        Some(v) => v,
        None => (0, 0),
    };
    proof {
        if idx.level.values@.len() > 0 {
            assert(-PRICE_LIMIT <= idx.level.values@.last() <= PRICE_LIMIT);
        }
        lemma_latest_shares(*idx, twaps@);
    }
    let mut out = String::new();
    out.append(JSON_HEAD);
    out.append(format_date(idx.base_day).as_str());
    out.append(JSON_DATE);
    out.append(format_date(day).as_str());
    out.append(JSON_LEVEL);
    out.append(format_fixed(level, 4).as_str());
    out.append(JSON_LEGS);
    let ghost head = out@;
    let shares = idx.current_shares(twaps);
    let n = idx.quantities.len();
    let mut i: usize = 0;
    while i < n
        invariant
            0 <= i <= n,
            n == idx.quantities@.len(),
            index_readable(*idx),
            series_readable(twaps@),
            averages_chartable(twaps@),
            -DAY_BOUND <= day <= DAY_BOUND,
            shares@ == latest_shares(*idx, twaps@),
            shares@.len() == n,
            forall|k: int| 0 <= k < shares@.len() ==> {
                &&& -SHARE_LIMIT <= (#[trigger] shares@[k]).0.weight_bp <= SHARE_LIMIT
                &&& -SHARE_LIMIT <= shares@[k].1 <= SHARE_LIMIT
            },
            out@ == head + json_legs(idx.quantities@, shares@, twaps@, coverage@, day as int, i as int),
        decreases n - i,
    {
        let q = idx.quantities[i];
        let (leg, share) = shares[i];
        proof {
            assert(-QUANTITY_LIMIT <= idx.quantities@[i as int].quantity <= QUANTITY_LIMIT);
        }
        let fix = fix_for(twaps, leg, day);
        push_json_leg(&mut out, q, leg, share, fix, coverage, i + 1 >= n);
        i = i + 1;
    }
    out.append(JSON_HISTORY);
    push_json_weeks(&mut out, &idx.level);
    out.append(JSON_TAIL);
    assert(out@ =~= json_text(*idx, twaps@, coverage@));
    out
}

} // verus!
