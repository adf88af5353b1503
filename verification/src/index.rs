//! The basket and the index level.
//!
//! `q_i = w_i · BASE / P_i(t0)` fixes the quantities once, at the base date;
//! from then on `I(t) = Σ q_i · P_i(t)`.

use crate::calendar::{civil_of, epoch_day, lemma_year_of_day, lemma_years_apart, valid_date};
use crate::num::{civil_from_days, days_from_civil, fdiv, fmul, trunc_div, SCALE};
use crate::series::{daily_fits, Daily};
use crate::text::{int_text, push_int, str_eq};
use vstd::prelude::*;

verus! {

/// One CX is what the basket cost on the base date: a dollar.
pub const BASE_LEVEL: i128 = SCALE;

/// The trailing window: every price enters as a 365-day average.
pub const TWAP_WINDOW: usize = 365;

/// Prices up to this magnitude (about 7.4e10 dollars) can be priced into the index without overflow.
pub const PRICE_LIMIT: i128 = 73_786_976_294_838_206_464;

/// Quantities up to this magnitude can be valued without overflow.
pub const QUANTITY_LIMIT: i128 = 288_230_376_151_711_744;

/// Which layer of the basket a leg belongs to.
#[derive(Debug, Clone, Copy, PartialEq, Eq, Structural)]
pub enum Group {
    Crypto,
    Fiat,
    Elements,
}

/// The name of a group as printed.
pub open spec fn group_label(g: Group) -> Seq<char> {
    match g {
        Group::Crypto => "crypto"@,
        Group::Fiat => "fiat"@,
        Group::Elements => "elements"@,
    }
}

impl Group {
    pub fn label(&self) -> (r: &'static str)
        ensures
            r@ == group_label(*self),
    {
        match self {
            Group::Crypto => "crypto",
            Group::Fiat => "fiat",
            Group::Elements => "elements",
        }
    }
}

/// One leg of the basket: what it is, how much of the index it carries, and
/// the unit its quantity is denominated in.
#[derive(Debug, Clone, Copy)]
pub struct Leg {
    pub ticker: &'static str,
    pub group: Group,
    /// weight in basis points of the index
    pub weight_bp: i128,
    pub unit: &'static str,
    pub source: &'static str,
}

/// The eight legs, in publication order.
pub open spec fn spec_legs() -> Seq<Leg> {
    seq![
        Leg { ticker: "BTC", group: Group::Crypto, weight_bp: 2000, unit: "BTC", source: "Coinbase BTC-USD daily close" },
        Leg { ticker: "ETH", group: Group::Crypto, weight_bp: 1500, unit: "ETH", source: "Coinbase ETH-USD daily close" },
        Leg { ticker: "CNY", group: Group::Fiat, weight_bp: 1500, unit: "CNY", source: "ECB reference rate via Frankfurter" },
        Leg { ticker: "USD", group: Group::Fiat, weight_bp: 1500, unit: "USD", source: "quote currency, fixed at 1" },
        Leg { ticker: "GOLD", group: Group::Elements, weight_bp: 1500, unit: "troy oz", source: "LBMA gold PM fix (USD)" },
        Leg { ticker: "CU", group: Group::Elements, weight_bp: 1000, unit: "tonne", source: "IMF global copper price via FRED (monthly)" },
        Leg { ticker: "OIL", group: Group::Elements, weight_bp: 500, unit: "bbl", source: "Brent Europe spot via FRED (daily)" },
        Leg { ticker: "UX", group: Group::Elements, weight_bp: 500, unit: "lb U3O8", source: "IMF uranium price via FRED (monthly)" },
    ]
}

/// The eight legs, in publication order.
pub fn legs() -> (r: Vec<Leg>)
    ensures
        r@ == spec_legs(),
{
    let r = vec![
        Leg { ticker: "BTC", group: Group::Crypto, weight_bp: 2000, unit: "BTC", source: "Coinbase BTC-USD daily close" },
        Leg { ticker: "ETH", group: Group::Crypto, weight_bp: 1500, unit: "ETH", source: "Coinbase ETH-USD daily close" },
        Leg { ticker: "CNY", group: Group::Fiat, weight_bp: 1500, unit: "CNY", source: "ECB reference rate via Frankfurter" },
        Leg { ticker: "USD", group: Group::Fiat, weight_bp: 1500, unit: "USD", source: "quote currency, fixed at 1" },
        Leg { ticker: "GOLD", group: Group::Elements, weight_bp: 1500, unit: "troy oz", source: "LBMA gold PM fix (USD)" },
        Leg { ticker: "CU", group: Group::Elements, weight_bp: 1000, unit: "tonne", source: "IMF global copper price via FRED (monthly)" },
        Leg { ticker: "OIL", group: Group::Elements, weight_bp: 500, unit: "bbl", source: "Brent Europe spot via FRED (daily)" },
        Leg { ticker: "UX", group: Group::Elements, weight_bp: 500, unit: "lb U3O8", source: "IMF uranium price via FRED (monthly)" },
    ];
    assert(r@ =~= spec_legs());
    r
}

/// Decimals for printing a leg's fix: a yuan needs more than a barrel.
pub open spec fn spec_fix_places(ticker: Seq<char>) -> u32 {
    if ticker == "CNY"@ { 6 } else if ticker == "USD"@ { 0 } else { 2 }
}

/// Decimals for printing a quantity: enough for four significant digits.
pub open spec fn spec_quantity_places(value: int) -> u32 {
    let v = if value < 0 { -value } else { value };
    if v >= SCALE { 3 } else if v >= SCALE / 100 { 5 } else if v >= SCALE / 10_000 { 7 } else { 9 }
}

impl Leg {
    /// Decimals when printing this leg's fix.
    pub fn fix_places(&self) -> (r: u32)
        ensures
            r == spec_fix_places(self.ticker@),
    {
        if str_eq(self.ticker, "CNY") {
            6
        } else if str_eq(self.ticker, "USD") {
            0
        } else {
            2
        }
    }

    /// Decimals when printing a quantity of this leg.
    pub fn quantity_places(&self, value: i128) -> (r: u32)
        requires
            value != i128::MIN,
        ensures
            r == spec_quantity_places(value as int),
    {
        let v = if value < 0 { -value } else { value };
        if v >= SCALE {
            3
        } else if v >= SCALE / 100 {
            5
        } else if v >= SCALE / 10_000 {
            7
        } else {
            9
        }
    }
}

/// A leg's fixed quantity, derived once from the base-date fix.
#[derive(Debug, Clone, Copy)]
pub struct Quantity {
    pub leg: Leg,
    pub base_fix: i128,
    pub quantity: i128,
}

/// The computed index: quantities, the daily level series, and the base date.
#[derive(Debug, Clone)]
pub struct Index {
    pub base_day: i64,
    pub quantities: Vec<Quantity>,
    pub level: Daily,
}

/// Why an index could not be built.
#[derive(Debug, Clone, Copy)]
pub enum IndexError {
    WeightsDoNotSum(i128),
    MissingLeg(&'static str),
    BaseFixUnavailable(&'static str),
    NonPositiveFix(&'static str),
    NoOverlap,
}

/// What an index error says.
pub open spec fn index_error_text(e: IndexError) -> Seq<char> {
    match e {
        IndexError::WeightsDoNotSum(bp) => "weights sum to "@ + int_text(bp as int) + " bp, expected 10000"@,
        IndexError::MissingLeg(t) => "no series supplied for leg "@ + t@,
        IndexError::BaseFixUnavailable(t) => "leg "@ + t@ + " has no fix on the base date"@,
        IndexError::NonPositiveFix(t) => "leg "@ + t@ + " carries a non-positive fix"@,
        IndexError::NoOverlap => "legs share no common date range"@,
    }
}

impl IndexError {
    /// The error in words.
    pub fn message(&self) -> (r: String)
        ensures
            r@ == index_error_text(*self),
    {
        match self {
            IndexError::WeightsDoNotSum(bp) => {
                let mut out = String::from_str("weights sum to ");
                push_int(&mut out, *bp);
                out.append(" bp, expected 10000");
                out
            },
            IndexError::MissingLeg(t) => {
                let mut out = String::from_str("no series supplied for leg ");
                out.append(t);
                out
            },
            IndexError::BaseFixUnavailable(t) => {
                let mut out = String::from_str("leg ");
                out.append(t);
                out.append(" has no fix on the base date");
                out
            },
            IndexError::NonPositiveFix(t) => {
                let mut out = String::from_str("leg ");
                out.append(t);
                out.append(" carries a non-positive fix");
                out
            },
            IndexError::NoOverlap => String::from_str("legs share no common date range"),
        }
    }
}

/// `i` is the first entry of `series` keyed by `ticker` (`series.len()` when none is).
pub open spec fn is_first_ticker(series: Seq<(&str, Daily)>, ticker: Seq<char>, i: int) -> bool {
    &&& 0 <= i <= series.len()
    &&& i < series.len() ==> series[i].0@ == ticker
    &&& forall|j: int| 0 <= j < i ==> (#[trigger] series[j]).0@ != ticker
}

/// The first entry of `series` keyed by `ticker`, or `series.len()`.
pub open spec fn ticker_index(series: Seq<(&str, Daily)>, ticker: Seq<char>) -> int {
    choose|i: int| is_first_ticker(series, ticker, i)
}

pub proof fn lemma_ticker_index(series: Seq<(&str, Daily)>, ticker: Seq<char>, i: int)
    requires
        is_first_ticker(series, ticker, i),
    ensures
        ticker_index(series, ticker) == i,
{
    let k = ticker_index(series, ticker);
    assert(is_first_ticker(series, ticker, k));
    if k < i {
        assert(series[k].0@ != ticker);
    }
    if i < k {
        assert(series[i].0@ != ticker);
    }
}

/// Every series has a first entry for any ticker, or none at all.
pub proof fn lemma_ticker_index_exists(series: Seq<(&str, Daily)>, ticker: Seq<char>)
    ensures
        is_first_ticker(series, ticker, ticker_index(series, ticker)),
    decreases series.len(),
{
    if series.len() == 0 {
        lemma_ticker_index(series, ticker, 0);
    } else {
        let p = series.drop_last();
        lemma_ticker_index_exists(p, ticker);
        let j = ticker_index(p, ticker);
        if j < p.len() {
            assert(series[j] == p[j]);
            assert forall|k: int| 0 <= k < j implies (#[trigger] series[k]).0@ != ticker by {
                assert(series[k] == p[k]);
            }
            lemma_ticker_index(series, ticker, j);
        } else {
            assert forall|k: int| 0 <= k < p.len() implies (#[trigger] series[k]).0@ != ticker by {
                assert(series[k] == p[k]);
            }
            if series.last().0@ == ticker {
                lemma_ticker_index(series, ticker, p.len() as int);
            } else {
                lemma_ticker_index(series, ticker, series.len() as int);
            }
        }
    }
}

/// The first entry of `series` keyed by `ticker`, or `series.len()`.
pub fn find_ticker(series: &[(&str, Daily)], ticker: &str) -> (r: usize)
    ensures
        r == ticker_index(series@, ticker@),
        r <= series@.len(),
{
    let mut i: usize = 0;
    while i < series.len()
        invariant
            0 <= i <= series@.len(),
            forall|j: int| 0 <= j < i ==> (#[trigger] series@[j]).0@ != ticker@,
        decreases series@.len() - i,
    {
        if str_eq(series[i].0, ticker) {
            proof {
                lemma_ticker_index(series@, ticker@, i as int);
            }
            return i;
        }
        i = i + 1;
    }
    proof {
        lemma_ticker_index(series@, ticker@, i as int);
    }
    i
}

/// The calendar covers `day`.
pub open spec fn covers(d: Daily, day: int) -> bool {
    d.start <= day < d.start + d.values@.len()
}

/// The fix a calendar holds on `day`.
pub open spec fn fix_on(d: Daily, day: int) -> i128 {
    d.values@[day - d.start]
}

/// Every fix lies within [`PRICE_LIMIT`] of zero.
pub open spec fn prices_bounded(v: Seq<i128>) -> bool {
    forall|k: int| 0 <= k < v.len() ==> -PRICE_LIMIT <= #[trigger] v[k] <= PRICE_LIMIT
}

/// The entry of `series` that leg `k` reads.
pub open spec fn leg_entry(series: Seq<(&str, Daily)>, k: int) -> int {
    ticker_index(series, spec_legs()[k].ticker@)
}

/// The calendar that leg `k` reads.
pub open spec fn leg_daily(series: Seq<(&str, Daily)>, k: int) -> Daily {
    series[leg_entry(series, k)].1
}

/// Why leg `k` cannot enter the index at `base_day`, if it cannot.
pub open spec fn leg_problem(series: Seq<(&str, Daily)>, base_day: int, k: int) -> Option<IndexError> {
    let leg = spec_legs()[k];
    if leg_entry(series, k) == series.len() {
        Some(IndexError::MissingLeg(leg.ticker))
    } else if !covers(leg_daily(series, k), base_day) {
        Some(IndexError::BaseFixUnavailable(leg.ticker))
    } else if fix_on(leg_daily(series, k), base_day) <= 0 {
        Some(IndexError::NonPositiveFix(leg.ticker))
    } else {
        None
    }
}

/// The problem of the first of legs `0..n` that has one.
pub open spec fn first_problem(series: Seq<(&str, Daily)>, base_day: int, n: int) -> Option<IndexError>
    decreases n,
{
    if n <= 0 {
        None
    } else {
        match first_problem(series, base_day, n - 1) {
            Some(e) => Some(e),
            None => leg_problem(series, base_day, n - 1),
        }
    }
}

/// The dollar amount of leg `k` in one CX at the base date.
pub open spec fn weighted(k: int) -> int {
    BASE_LEVEL * spec_legs()[k].weight_bp / 10_000
}

/// Leg `k`'s quantity: its dollar weight divided by its base-date fix.
pub open spec fn leg_quantity(series: Seq<(&str, Daily)>, base_day: int, k: int) -> int {
    trunc_div(weighted(k) * SCALE, fix_on(leg_daily(series, k), base_day) as int)
}

/// The first day every one of legs `0..n` covers, and not before `base_day`.
pub open spec fn span_start(series: Seq<(&str, Daily)>, base_day: int, n: int) -> int
    decreases n,
{
    if n <= 0 {
        base_day
    } else {
        let s = span_start(series, base_day, n - 1);
        let t = leg_daily(series, n - 1).start as int;
        if t > s { t } else { s }
    }
}

/// The last day every one of legs `0..n` covers.
pub open spec fn span_end(series: Seq<(&str, Daily)>, n: int) -> int
    decreases n,
{
    if n <= 0 {
        i64::MAX as int
    } else {
        let e = span_end(series, n - 1);
        let d = leg_daily(series, n - 1);
        let t = d.start + d.values@.len() - 1;
        if t < e { t } else { e }
    }
}

/// The index level on `day` from legs `0..n`: the sum of quantity times fix.
pub open spec fn level_sum(series: Seq<(&str, Daily)>, base_day: int, day: int, n: int) -> int
    decreases n,
{
    if n <= 0 {
        0
    } else {
        level_sum(series, base_day, day, n - 1) + trunc_div(
            leg_quantity(series, base_day, n - 1) * fix_on(leg_daily(series, n - 1), day),
            SCALE as int,
        )
    }
}

/// The calendars the legs read can be priced without overflow.
pub open spec fn legs_priceable(series: Seq<(&str, Daily)>, base_day: int) -> bool {
    forall|k: int|
        0 <= k < 8 && leg_entry(series, k) < series.len() ==> {
            let d = #[trigger] leg_daily(series, k);
            &&& daily_fits(d.start, d.values@.len())
            &&& prices_bounded(d.values@)
            &&& base_day >= d.start ==> base_day - d.start <= i64::MAX
        }
}

/// Whether every fix of `v` lies within [`PRICE_LIMIT`].
pub fn prices_within_limit(v: &Vec<i128>) -> (b: bool)
    ensures
        b == prices_bounded(v@),
{
    let mut i: usize = 0;
    while i < v.len()
        invariant
            0 <= i <= v@.len(),
            forall|k: int| 0 <= k < i ==> -PRICE_LIMIT <= #[trigger] v@[k] <= PRICE_LIMIT,
        decreases v@.len() - i,
    {
        if v[i] < -PRICE_LIMIT || v[i] > PRICE_LIMIT {
            return false;
        }
        i = i + 1;
    }
    true
}

/// Whether the calendars the legs read can be priced without overflow: the
/// condition [`build`] needs.
pub fn legs_are_priceable(series: &[(&str, Daily)], base_day: i64) -> (b: bool)
    ensures
        b == legs_priceable(series@, base_day as int),
{
    let all = legs();
    let mut k: usize = 0;
    while k < all.len()
        invariant
            0 <= k <= 8,
            all@ == spec_legs(),
            all@.len() == 8,
            forall|j: int|
                0 <= j < k && leg_entry(series@, j) < series@.len() ==> {
                    let d = #[trigger] leg_daily(series@, j);
                    &&& daily_fits(d.start, d.values@.len())
                    &&& prices_bounded(d.values@)
                    &&& base_day >= d.start ==> base_day - d.start <= i64::MAX
                },
        decreases 8 - k,
    {
        let i = find_ticker(series, all[k].ticker);
        assert(leg_entry(series@, k as int) == i);
        if i < series.len() {
            let d = &series[i].1;
            assert(leg_daily(series@, k as int) == *d);
            let start = d.start as i128;
            let len = d.values.len() as i128;
            if len > i64::MAX as i128 || start + len > i64::MAX as i128 || start + len - 1 < i64::MIN as i128 {
                assert(!daily_fits(leg_daily(series@, k as int).start, leg_daily(series@, k as int).values@.len()));
                return false;
            }
            if !prices_within_limit(&d.values) {
                assert(!prices_bounded(leg_daily(series@, k as int).values@));
                return false;
            }
            if base_day >= d.start && (base_day as i128) - start > i64::MAX as i128 {
                assert(!(base_day >= leg_daily(series@, k as int).start ==> base_day - leg_daily(series@, k as int).start
                    <= i64::MAX));
                return false;
            }
        }
        k = k + 1;
    }
    true
}

pub proof fn lemma_weights()
    ensures
        spec_legs().len() == 8,
        forall|k: int| 0 <= k < 8 ==> 0 < #[trigger] weighted(k) <= 200_000_000,
        weighted(0) + weighted(1) + weighted(2) + weighted(3) + weighted(4) + weighted(5)
            + weighted(6) + weighted(7) == BASE_LEVEL,
{
}

/// Once a problem is found among the first legs, it stays the first problem.
pub proof fn lemma_first_problem_stays(series: Seq<(&str, Daily)>, base_day: int, n: int, m: int)
    requires
        0 <= n <= m,
        first_problem(series, base_day, n) is Some,
    ensures
        first_problem(series, base_day, m) == first_problem(series, base_day, n),
    decreases m - n,
{
    if n < m {
        lemma_first_problem_stays(series, base_day, n, m - 1);
    }
}

/// The weights make up the whole basket: ten thousand basis points.
pub proof fn lemma_weight_sum()
    ensures
        weight_sum(8) == 10_000,
        forall|k: int| 0 <= k <= 8 ==> 0 <= #[trigger] weight_sum(k) <= 10_000,
{
    reveal_with_fuel(weight_sum, 9);
}

/// Looks up leg `k` and fixes its quantity at `base_day`.
fn fix_leg(series: &[(&str, Daily)], base_day: i64, k: usize, leg: Leg) -> (r: Result<(usize, Quantity), IndexError>)
    requires
        0 <= k < 8,
        leg == spec_legs()[k as int],
        legs_priceable(series@, base_day as int),
    ensures
        match r {
            Err(e) => leg_problem(series@, base_day as int, k as int) == Some(e),
            Ok((i, q)) => {
                &&& leg_problem(series@, base_day as int, k as int) is None
                &&& i == leg_entry(series@, k as int)
                &&& i < series@.len()
                &&& q == (Quantity {
                    leg: spec_legs()[k as int],
                    base_fix: fix_on(leg_daily(series@, k as int), base_day as int),
                    quantity: leg_quantity(series@, base_day as int, k as int) as i128,
                })
            },
        },
{
    proof {
        lemma_weights();
    }
    let i = find_ticker(series, leg.ticker);
    if i == series.len() {
        return Err(IndexError::MissingLeg(leg.ticker));
    }
    let daily = &series[i].1;
    let base_fix = match daily.value_on(base_day) {
        Some(v) => v,
        None => {
            return Err(IndexError::BaseFixUnavailable(leg.ticker));
        },
    };
    if base_fix <= 0 {
        return Err(IndexError::NonPositiveFix(leg.ticker));
    }
    let dollars = BASE_LEVEL * leg.weight_bp / 10_000;
    assert(dollars == weighted(k as int));
    let quantity = match fdiv(dollars, base_fix) {
        Some(q) => q,
        None => {
            return Err(IndexError::NonPositiveFix(leg.ticker));
        },
    };
    Ok((i, Quantity { leg, base_fix, quantity }))
}

/// With no problem among the first `n` legs, none of them has one.
pub proof fn lemma_no_problem(series: Seq<(&str, Daily)>, base_day: int, n: int, j: int)
    requires
        0 <= j < n,
        first_problem(series, base_day, n) is None,
    ensures
        leg_problem(series, base_day, j) is None,
    decreases n,
{
    if j < n - 1 {
        lemma_no_problem(series, base_day, n - 1, j);
    }
}

/// The common span lies within every leg's calendar.
pub proof fn lemma_span_within(series: Seq<(&str, Daily)>, base_day: int, n: int, j: int)
    requires
        0 <= j < n,
    ensures
        span_start(series, base_day, n) >= leg_daily(series, j).start,
        span_start(series, base_day, n) >= base_day,
        span_end(series, n) <= leg_daily(series, j).start + leg_daily(series, j).values@.len() - 1,
    decreases n,
{
    if j < n - 1 {
        lemma_span_within(series, base_day, n - 1, j);
    }
    lemma_span_base(series, base_day, n);
}

pub proof fn lemma_span_base(series: Seq<(&str, Daily)>, base_day: int, n: int)
    ensures
        span_start(series, base_day, n) >= base_day,
    decreases n,
{
    if n > 0 {
        lemma_span_base(series, base_day, n - 1);
    }
}

proof fn lemma_passing_span(series: Seq<(&str, Daily)>, base_day: int, n: int)
    requires
        0 <= n <= 8,
        base_day <= i64::MAX,
        first_problem(series, base_day, n) is None,
    ensures
        span_start(series, base_day, n) == base_day,
        base_day <= span_end(series, n),
    decreases n,
{
    if n > 0 {
        lemma_no_problem(series, base_day, n, n - 1);
        assert(first_problem(series, base_day, n - 1) is None);
        lemma_passing_span(series, base_day, n - 1);
        assert(covers(leg_daily(series, n - 1), base_day));
    }
}

/// Legs that all pass always overlap: when every leg is present with a
/// positive fix on the base date, the common span opens on the base date
/// and reaches at least that far, so the build has a calendar to fill.
pub proof fn lemma_passing_legs_overlap(series: Seq<(&str, Daily)>, base_day: int)
    requires
        base_day <= i64::MAX,
        first_problem(series, base_day, 8) is None,
    ensures
        span_start(series, base_day, 8) == base_day,
        base_day <= span_end(series, 8),
{
    lemma_passing_span(series, base_day, 8);
}

/// A leg that enters the index holds between zero and 2e17 units.
pub proof fn lemma_quantity_bound(series: Seq<(&str, Daily)>, base_day: int, k: int)
    requires
        0 <= k < 8,
        leg_problem(series, base_day, k) is None,
    ensures
        0 <= leg_quantity(series, base_day, k) <= 200_000_000_000_000_000,
{
    lemma_weights();
    let x = weighted(k) * SCALE;
    let f = fix_on(leg_daily(series, k), base_day) as int;
    assert(f >= 1);
    assert(0 <= x <= 200_000_000_000_000_000);
    assert(x / f <= x) by (nonlinear_arith)
        requires
            x >= 0,
            f >= 1,
    ;
    assert(x / f >= 0) by (nonlinear_arith)
        requires
            x >= 0,
            f >= 1,
    ;
}

/// The index level on `day`, summed over the eight legs.
fn level_on(
    series: &[(&str, Daily)],
    entries: &Vec<usize>,
    quantities: &Vec<Quantity>,
    day: i64,
    base_day: Ghost<int>,
    start: Ghost<int>,
    end: Ghost<int>,
) -> (r: i128)
    requires
        legs_priceable(series@, base_day@),
        first_problem(series@, base_day@, 8) is None,
        entries@.len() == 8,
        quantities@.len() == 8,
        forall|j: int| 0 <= j < 8 ==> #[trigger] entries@[j] == leg_entry(series@, j),
        forall|j: int| 0 <= j < 8 ==> #[trigger] entries@[j] < series@.len(),
        forall|j: int| 0 <= j < 8 ==> (#[trigger] quantities@[j]).quantity == leg_quantity(series@, base_day@, j) as i128,
        start@ == span_start(series@, base_day@, 8),
        end@ == span_end(series@, 8),
        start@ <= day <= end@,
    ensures
        r == level_sum(series@, base_day@, day as int, 8),
{
    let ghost s = series@;
    let mut level: i128 = 0;
    let mut j: usize = 0;
    while j < 8
        invariant
            s == series@,
            legs_priceable(s, base_day@),
            first_problem(s, base_day@, 8) is None,
            entries@.len() == 8,
            quantities@.len() == 8,
            forall|j: int| 0 <= j < 8 ==> #[trigger] entries@[j] == leg_entry(s, j),
            forall|j: int| 0 <= j < 8 ==> #[trigger] entries@[j] < s.len(),
            forall|j: int| 0 <= j < 8 ==> (#[trigger] quantities@[j]).quantity == leg_quantity(s, base_day@, j) as i128,
            start@ == span_start(s, base_day@, 8),
            end@ == span_end(s, 8),
            start@ <= day <= end@,
            0 <= j <= 8,
            level == level_sum(s, base_day@, day as int, j as int),
            -(j as int) * 20_000_000_000_000_000_000_000_000_000 <= level <= (j as int) * 20_000_000_000_000_000_000_000_000_000,
        decreases 8 - j,
    {
        let daily = &series[entries[j]].1;
        proof {
            lemma_no_problem(s, base_day@, 8, j as int);
            lemma_span_within(s, base_day@, 8, j as int);
            lemma_quantity_bound(s, base_day@, j as int);
            assert(leg_daily(s, j as int) == *daily);
            assert(leg_entry(s, j as int) < s.len());
        }
        let fix = match daily.value_on(day) {
            Some(v) => v,
            None => {
                return 0;
            },
        };
        let q = quantities[j].quantity;
        proof {
            assert(prices_bounded(daily.values@));
            assert(-PRICE_LIMIT <= fix <= PRICE_LIMIT);
            assert(-15_000_000_000_000_000_000_000_000_000_000_000_000 <= q * fix <= 15_000_000_000_000_000_000_000_000_000_000_000_000)
                by (nonlinear_arith)
                requires
                    0 <= q <= 200_000_000_000_000_000,
                    -PRICE_LIMIT <= fix <= PRICE_LIMIT,
            ;
        }
        let value = fmul(q, fix);
        assert(-20_000_000_000_000_000_000_000_000_000 <= value <= 20_000_000_000_000_000_000_000_000_000);
        level = level + value;
        j = j + 1;
    }
    level
}

/// Build the index from one average series per leg, keyed by ticker. The
/// index runs over the range every leg covers, starting no earlier than
/// `base_day`; the first leg that is missing, has no fix on the base date, or
/// has a non-positive one stops the build.
pub fn build(series: &[(&str, Daily)], base_day: i64) -> (r: Result<Index, IndexError>)
    requires
        legs_priceable(series@, base_day as int),
    ensures
        r is Ok <==> first_problem(series@, base_day as int, 8) is None,
        r matches Err(e) ==> first_problem(series@, base_day as int, 8) == Some(e),
        match r {
            Err(e) => match first_problem(series@, base_day as int, 8) {
                Some(p) => e == p,
                None => e == IndexError::NoOverlap && span_end(series@, 8) < span_start(series@, base_day as int, 8),
            },
            Ok(idx) => {
                &&& idx.level.start == base_day
                &&& idx.level.values@.len() > 0
                &&& BASE_LEVEL - base_slack(series@, base_day as int, 8) <= idx.level.values@[0] <= BASE_LEVEL
                &&& first_problem(series@, base_day as int, 8) is None
                &&& span_start(series@, base_day as int, 8) <= span_end(series@, 8)
                &&& idx.base_day == base_day
                &&& idx.quantities@.len() == 8
                &&& forall|k: int| 0 <= k < 8 ==> #[trigger] idx.quantities@[k] == (Quantity {
                    leg: spec_legs()[k],
                    base_fix: fix_on(leg_daily(series@, k), base_day as int),
                    quantity: leg_quantity(series@, base_day as int, k) as i128,
                })
                &&& idx.level.start == span_start(series@, base_day as int, 8)
                &&& idx.level.values@ == Seq::new(
                    (span_end(series@, 8) - span_start(series@, base_day as int, 8) + 1) as nat,
                    |j: int| level_sum(series@, base_day as int, span_start(series@, base_day as int, 8) + j, 8) as i128,
                )
            },
        },
{
    let ghost s = series@;
    let legs = legs();
    proof {
        if first_problem(s, base_day as int, 8) is None {
            lemma_passing_legs_overlap(s, base_day as int);
            lemma_base_level(s, base_day as int);
        }
        lemma_weights();
        lemma_weight_sum();
    }
    let mut total_bp: i128 = 0;
    let mut w: usize = 0;
    while w < legs.len()
        invariant
            legs@ == spec_legs(),
            0 <= w <= 8,
            total_bp == weight_sum(w as int),
            forall|k: int| 0 <= k <= 8 ==> 0 <= #[trigger] weight_sum(k) <= 10_000,
        decreases 8 - w,
    {
        total_bp = total_bp + legs[w].weight_bp;
        w = w + 1;
    }
    assert(total_bp == 10_000);
    if total_bp != 10_000 {
        return Err(IndexError::WeightsDoNotSum(total_bp));
    }
    let mut quantities: Vec<Quantity> = Vec::new();
    let mut entries: Vec<usize> = Vec::new();
    let mut start = base_day;
    let mut end = i64::MAX;
    let mut k: usize = 0;
    while k < legs.len()
        invariant
            s == series@,
            legs@ == spec_legs(),
            legs_priceable(s, base_day as int),
            0 <= k <= 8,
            first_problem(s, base_day as int, k as int) is None,
            quantities@.len() == k,
            entries@.len() == k,
            forall|j: int| 0 <= j < k ==> #[trigger] entries@[j] == leg_entry(s, j),
            forall|j: int| 0 <= j < k ==> #[trigger] entries@[j] < s.len(),
            forall|j: int| 0 <= j < k ==> #[trigger] quantities@[j] == (Quantity {
                leg: spec_legs()[j],
                base_fix: fix_on(leg_daily(s, j), base_day as int),
                quantity: leg_quantity(s, base_day as int, j) as i128,
            }),
            start == span_start(s, base_day as int, k as int),
            end == span_end(s, k as int),
        decreases 8 - k,
    {
        let leg = legs[k];
        let (i, q) = match fix_leg(series, base_day, k, leg) {
            Ok(found) => found,
            Err(e) => {
                proof {
                    assert(first_problem(s, base_day as int, k + 1) == Some(e));
                    lemma_first_problem_stays(s, base_day as int, k + 1, 8);
                }
                return Err(e);
            },
        };
        let daily = &series[i].1;
        assert(leg_daily(s, k as int) == *daily);
        if daily.start > start {
            start = daily.start;
        }
        let daily_end = daily.end();
        if daily_end < end {
            end = daily_end;
        }
        quantities.push(q);
        entries.push(i);
        k = k + 1;
    }
    if end < start {
        return Err(IndexError::NoOverlap);
    }
    proof {
        lemma_no_problem(s, base_day as int, 8, 0);
        lemma_span_within(s, base_day as int, 8, 0);
        assert(entries@[0] == leg_entry(s, 0) && entries@[0] < s.len());
        assert(daily_fits(leg_daily(s, 0).start, leg_daily(s, 0).values@.len()));
    }
    let mut values: Vec<i128> = Vec::new();
    let mut day = start;
    while day <= end
        invariant
            s == series@,
            legs_priceable(s, base_day as int),
            first_problem(s, base_day as int, 8) is None,
            entries@.len() == 8,
            quantities@.len() == 8,
            forall|j: int| 0 <= j < 8 ==> #[trigger] entries@[j] == leg_entry(s, j),
            forall|j: int| 0 <= j < 8 ==> #[trigger] entries@[j] < s.len(),
            forall|j: int| 0 <= j < 8 ==> #[trigger] quantities@[j] == (Quantity {
                leg: spec_legs()[j],
                base_fix: fix_on(leg_daily(s, j), base_day as int),
                quantity: leg_quantity(s, base_day as int, j) as i128,
            }),
            start == span_start(s, base_day as int, 8),
            end == span_end(s, 8),
            end < i64::MAX,
            start <= day <= end + 1,
            values@.len() == day - start,
            forall|t: int| 0 <= t < values@.len() ==> #[trigger] values@[t] == level_sum(s, base_day as int, start + t, 8) as i128,
            forall|t: int| 0 <= t < values@.len() ==> i128::MIN <= #[trigger] level_sum(s, base_day as int, start + t, 8) <= i128::MAX,
        decreases end + 1 - day,
    {
        proof {
            assert forall|j: int| 0 <= j < 8 implies (#[trigger] quantities@[j]).quantity == leg_quantity(s, base_day as int, j) as i128 by {
                assert(quantities@[j].quantity == leg_quantity(s, base_day as int, j) as i128);
            }
        }
        let level = level_on(series, &entries, &quantities, day, Ghost(base_day as int), Ghost(start as int), Ghost(end as int));
        values.push(level);
        day = day + 1;
    }
    proof {
        assert(values@ =~= Seq::new((end - start + 1) as nat, |t: int| level_sum(s, base_day as int, start + t, 8) as i128));
        assert(start == base_day);
        assert(i128::MIN <= level_sum(s, base_day as int, start + 0, 8) <= i128::MAX);
        assert(values@[0] == level_sum(s, base_day as int, base_day as int, 8));
    }
    Ok(Index { base_day, quantities, level: Daily { start, values } })
}

// ---------------------------------------------------------------------------
// what the level does
// ---------------------------------------------------------------------------

/// What leg `k` contributes to the level on `day`: its quantity times its fix.
pub open spec fn leg_value(series: Seq<(&str, Daily)>, base_day: int, day: int, k: int) -> int {
    trunc_div(leg_quantity(series, base_day, k) * fix_on(leg_daily(series, k), day), SCALE as int)
}

/// The most the base-date level can fall short of one dollar through the
/// truncation of legs `0..n`: one unit per leg, plus the leg's fix counted
/// in whole dollars.
pub open spec fn base_slack(series: Seq<(&str, Daily)>, base_day: int, n: int) -> int
    decreases n,
{
    if n <= 0 {
        0
    } else {
        base_slack(series, base_day, n - 1) + (fix_on(leg_daily(series, n - 1), base_day) as int) / (SCALE as int) + 1
    }
}

/// The level on `day` is the sum of what each of legs `0..n` contributes.
proof fn lemma_level_sum_is_values(series: Seq<(&str, Daily)>, base_day: int, day: int, n: int)
    ensures
        n > 0 ==> level_sum(series, base_day, day, n) == level_sum(series, base_day, day, n - 1)
            + leg_value(series, base_day, day, n - 1),
{
}

/// A leg that can enter the index holds a non-negative quantity, worth at
/// most its dollar weight at the base date and at least that weight less the
/// truncation of its fix.
proof fn lemma_leg_at_base(series: Seq<(&str, Daily)>, base_day: int, k: int)
    requires
        0 <= k < 8,
        leg_problem(series, base_day, k) is None,
    ensures
        leg_quantity(series, base_day, k) >= 0,
        leg_value(series, base_day, base_day, k) <= weighted(k),
        leg_value(series, base_day, base_day, k) >= weighted(k) - (fix_on(leg_daily(series, k), base_day) as int) / (SCALE as int) - 1,
{
    lemma_weights();
    let f = fix_on(leg_daily(series, k), base_day) as int;
    let w = weighted(k);
    let s = SCALE as int;
    let q = leg_quantity(series, base_day, k);
    assert(f > 0);
    assert(w * s > 0) by (nonlinear_arith)
        requires w > 0, s > 0;
    assert(q == (w * s) / f);
    assert(q >= 0) by (nonlinear_arith)
        requires q == (w * s) / f, w * s > 0, f > 0;
    assert(q * f <= w * s && q * f > w * s - f) by (nonlinear_arith)
        requires q == (w * s) / f, f > 0;
    assert(q * f >= 0) by (nonlinear_arith)
        requires q >= 0, f > 0;
    let t = leg_value(series, base_day, base_day, k);
    assert(t == (q * f) / s);
    assert(t <= w) by (nonlinear_arith)
        requires t == (q * f) / s, q * f <= w * s, s > 0;
    let g = f / s;
    assert(t >= w - g - 1) by (nonlinear_arith)
        requires t == (q * f) / s, q * f > w * s - f, s > 0, g == f / s, f > 0, q * f >= 0;
}

proof fn lemma_base_level_upto(series: Seq<(&str, Daily)>, base_day: int, n: int)
    requires
        0 <= n <= 8,
        first_problem(series, base_day, 8) is None,
    ensures
        weight_sum(n) * 100_000 - base_slack(series, base_day, n) <= level_sum(series, base_day, base_day, n)
            <= weight_sum(n) * 100_000,
    decreases n,
{
    if n > 0 {
        lemma_base_level_upto(series, base_day, n - 1);
        lemma_no_problem(series, base_day, 8, n - 1);
        lemma_leg_at_base(series, base_day, n - 1);
        lemma_level_sum_is_values(series, base_day, base_day, n);
        assert(weighted(n - 1) == spec_legs()[n - 1].weight_bp * 100_000);
    }
}

/// The base-date law: on the base date the index reads one dollar, short only
/// by the truncation of each leg's quantity, never above it.
pub proof fn lemma_base_level(series: Seq<(&str, Daily)>, base_day: int)
    requires
        first_problem(series, base_day, 8) is None,
    ensures
        BASE_LEVEL - base_slack(series, base_day, 8) <= level_sum(series, base_day, base_day, 8) <= BASE_LEVEL,
{
    lemma_weight_sum();
    lemma_base_level_upto(series, base_day, 8);
}

proof fn lemma_same_fixes_upto(series: Seq<(&str, Daily)>, base_day: int, d1: int, d2: int, n: int)
    requires
        0 <= n <= 8,
        forall|k: int| 0 <= k < 8 ==> fix_on(#[trigger] leg_daily(series, k), d1) == fix_on(leg_daily(series, k), d2),
    ensures
        level_sum(series, base_day, d1, n) == level_sum(series, base_day, d2, n),
    decreases n,
{
    if n > 0 {
        lemma_same_fixes_upto(series, base_day, d1, d2, n - 1);
        assert(fix_on(leg_daily(series, n - 1), d1) == fix_on(leg_daily(series, n - 1), d2));
    }
}

/// The level on a day is a function of that day's fixes: two days on which
/// every leg reads the same fix carry the same level (so a basket whose
/// prices never move never moves).
pub proof fn lemma_same_fixes_same_level(series: Seq<(&str, Daily)>, base_day: int, d1: int, d2: int)
    requires
        forall|k: int| 0 <= k < 8 ==> fix_on(#[trigger] leg_daily(series, k), d1) == fix_on(leg_daily(series, k), d2),
    ensures
        level_sum(series, base_day, d1, 8) == level_sum(series, base_day, d2, 8),
{
    lemma_same_fixes_upto(series, base_day, d1, d2, 8);
}

/// Scaling a non-negative amount by `c` before truncating loses at most `c - 1`
/// against scaling the truncated amount.
proof fn lemma_scaled_floor(a: int, c: int, s: int)
    requires
        a >= 0,
        c >= 1,
        s > 0,
    ensures
        c * (a / s) <= (c * a) / s <= c * (a / s) + c - 1,
{
    let q = a / s;
    let t = (c * a) / s;
    assert(s * q <= a < s * q + s) by (nonlinear_arith)
        requires q == a / s, s > 0;
    assert(s * t <= c * a < s * t + s) by (nonlinear_arith)
        requires t == (c * a) / s, s > 0;
    assert(c * (s * q) <= c * a < c * (s * q) + c * s) by (nonlinear_arith)
        requires s * q <= a < s * q + s, c >= 1;
    assert(c * q <= t) by (nonlinear_arith)
        requires c * (s * q) <= c * a, c * a < s * t + s, s > 0;
    assert(t <= c * q + c - 1) by (nonlinear_arith)
        requires s * t <= c * a, c * a < c * (s * q) + c * s, s > 0;
}

proof fn lemma_scaled_upto(series: Seq<(&str, Daily)>, base_day: int, d1: int, d2: int, c: int, n: int)
    requires
        0 <= n <= 8,
        c >= 1,
        first_problem(series, base_day, 8) is None,
        forall|k: int| 0 <= k < 8 ==> fix_on(#[trigger] leg_daily(series, k), d1) >= 0,
        forall|k: int| 0 <= k < 8 ==> fix_on(#[trigger] leg_daily(series, k), d2) == c * fix_on(leg_daily(series, k), d1),
    ensures
        c * level_sum(series, base_day, d1, n) <= level_sum(series, base_day, d2, n)
            <= c * level_sum(series, base_day, d1, n) + n * (c - 1),
    decreases n,
{
    if n > 0 {
        let k = n - 1;
        lemma_scaled_upto(series, base_day, d1, d2, c, k);
        lemma_no_problem(series, base_day, 8, k);
        lemma_leg_at_base(series, base_day, k);
        let q = leg_quantity(series, base_day, k);
        let f1 = fix_on(leg_daily(series, k), d1) as int;
        let f2 = fix_on(leg_daily(series, k), d2) as int;
        assert(f1 >= 0 && f2 == c * f1);
        let a = q * f1;
        assert(a >= 0) by (nonlinear_arith)
            requires q >= 0, f1 >= 0, a == q * f1;
        assert(q * f2 == c * a) by (nonlinear_arith)
            requires f2 == c * f1, a == q * f1;
        lemma_scaled_floor(a, c, SCALE as int);
        let l1 = level_sum(series, base_day, d1, k);
        let l2 = level_sum(series, base_day, d2, k);
        assert(c * (l1 + a / (SCALE as int)) == c * l1 + c * (a / (SCALE as int))) by (nonlinear_arith);
        assert(n * (c - 1) == k * (c - 1) + (c - 1)) by (nonlinear_arith)
            requires n == k + 1;
    }
}

/// Proportional response: when every fix on `d2` is `c` times its fix on
/// `d1`, the level on `d2` is `c` times the level on `d1`, up to one unit of
/// truncation per leg for each step of `c` past one.
pub proof fn lemma_proportional_response(series: Seq<(&str, Daily)>, base_day: int, d1: int, d2: int, c: int)
    requires
        c >= 1,
        first_problem(series, base_day, 8) is None,
        forall|k: int| 0 <= k < 8 ==> fix_on(#[trigger] leg_daily(series, k), d1) >= 0,
        forall|k: int| 0 <= k < 8 ==> fix_on(#[trigger] leg_daily(series, k), d2) == c * fix_on(leg_daily(series, k), d1),
    ensures
        c * level_sum(series, base_day, d1, 8) <= level_sum(series, base_day, d2, 8)
            <= c * level_sum(series, base_day, d1, 8) + 8 * (c - 1),
{
    lemma_scaled_upto(series, base_day, d1, d2, c, 8);
}

proof fn lemma_one_leg_falls_upto(series: Seq<(&str, Daily)>, base_day: int, day: int, k: int, n: int)
    requires
        0 <= n <= 8,
        0 <= k < 8,
        first_problem(series, base_day, 8) is None,
        forall|j: int| 0 <= j < 8 && j != k ==> fix_on(#[trigger] leg_daily(series, j), day) == fix_on(leg_daily(series, j), base_day),
        0 <= fix_on(leg_daily(series, k), day) <= fix_on(leg_daily(series, k), base_day),
    ensures
        k < n ==> level_sum(series, base_day, base_day, n) - leg_value(series, base_day, base_day, k)
            <= level_sum(series, base_day, day, n) <= level_sum(series, base_day, base_day, n),
        k >= n ==> level_sum(series, base_day, day, n) == level_sum(series, base_day, base_day, n),
    decreases n,
{
    if n > 0 {
        let j = n - 1;
        lemma_one_leg_falls_upto(series, base_day, day, k, j);
        lemma_no_problem(series, base_day, 8, j);
        lemma_leg_at_base(series, base_day, j);
        if j == k {
            let q = leg_quantity(series, base_day, k);
            let f0 = fix_on(leg_daily(series, k), base_day) as int;
            let f1 = fix_on(leg_daily(series, k), day) as int;
            let s = SCALE as int;
            assert(q * f1 >= 0 && q * f1 <= q * f0) by (nonlinear_arith)
                requires q >= 0, 0 <= f1 <= f0;
            assert((q * f1) / s >= 0 && (q * f1) / s <= (q * f0) / s) by (nonlinear_arith)
                requires q * f1 >= 0, q * f1 <= q * f0, s > 0;
        } else {
            assert(fix_on(leg_daily(series, j), day) == fix_on(leg_daily(series, j), base_day));
        }
    }
}

/// A leg going to zero costs at most its weight: when one leg's fix falls
/// anywhere between its base fix and zero while every other leg stands at
/// its base fix, the level drops by at most that leg's base-date dollar
/// weight, and does not rise.
pub proof fn lemma_one_leg_falls(series: Seq<(&str, Daily)>, base_day: int, day: int, k: int)
    requires
        0 <= k < 8,
        first_problem(series, base_day, 8) is None,
        forall|j: int| 0 <= j < 8 && j != k ==> fix_on(#[trigger] leg_daily(series, j), day) == fix_on(leg_daily(series, j), base_day),
        0 <= fix_on(leg_daily(series, k), day) <= fix_on(leg_daily(series, k), base_day),
    ensures
        level_sum(series, base_day, base_day, 8) - weighted(k) <= level_sum(series, base_day, day, 8)
            <= level_sum(series, base_day, base_day, 8),
{
    lemma_one_leg_falls_upto(series, base_day, day, k, 8);
    lemma_no_problem(series, base_day, 8, k);
    lemma_leg_at_base(series, base_day, k);
}

proof fn lemma_base_level_without(series: Seq<(&str, Daily)>, base_day: int, k: int, n: int)
    requires
        0 <= n <= 8,
        0 <= k < 8,
        first_problem(series, base_day, 8) is None,
    ensures
        ({
            let g = (fix_on(leg_daily(series, k), base_day) as int) / (SCALE as int) + 1;
            let own = if k < n { leg_value(series, base_day, base_day, k) } else { 0 };
            let own_weight = if k < n { weighted(k) } else { 0 };
            let own_slack = if k < n { g } else { 0 };
            level_sum(series, base_day, base_day, n) - own >= weight_sum(n) * 100_000 - own_weight - (base_slack(
                series,
                base_day,
                n,
            ) - own_slack)
        }),
    decreases n,
{
    if n > 0 {
        lemma_base_level_without(series, base_day, k, n - 1);
        lemma_no_problem(series, base_day, 8, n - 1);
        lemma_leg_at_base(series, base_day, n - 1);
        lemma_level_sum_is_values(series, base_day, base_day, n);
        assert(weighted(n - 1) == spec_legs()[n - 1].weight_bp * 100_000);
    }
}

/// A leg going to zero costs at most its weight, counted from one dollar:
/// when one leg's fix falls anywhere between its base fix and zero while
/// every other leg stands at its base fix, the level is at least one dollar
/// less that leg's share of it, short only by the truncation of the other
/// legs' quantities.
pub proof fn lemma_one_leg_falls_from_a_dollar(series: Seq<(&str, Daily)>, base_day: int, day: int, k: int)
    requires
        0 <= k < 8,
        first_problem(series, base_day, 8) is None,
        forall|j: int| 0 <= j < 8 && j != k ==> fix_on(#[trigger] leg_daily(series, j), day) == fix_on(leg_daily(series, j), base_day),
        0 <= fix_on(leg_daily(series, k), day) <= fix_on(leg_daily(series, k), base_day),
    ensures
        level_sum(series, base_day, day, 8) >= BASE_LEVEL * (10_000 - spec_legs()[k].weight_bp) / 10_000 - (base_slack(
            series,
            base_day,
            8,
        ) - ((fix_on(leg_daily(series, k), base_day) as int) / (SCALE as int) + 1)),
{
    lemma_one_leg_falls_upto(series, base_day, day, k, 8);
    lemma_base_level_without(series, base_day, k, 8);
    lemma_weight_sum();
    lemma_weights();
    assert(weighted(k) == spec_legs()[k].weight_bp * 100_000);
    assert(BASE_LEVEL * (10_000 - spec_legs()[k].weight_bp) / 10_000 == 1_000_000_000 - spec_legs()[k].weight_bp
        * 100_000) by (nonlinear_arith)
        requires BASE_LEVEL == 1_000_000_000;
}

/// The weights of legs `0..n`, in basis points.
pub open spec fn weight_sum(n: int) -> int
    decreases n,
{
    if n <= 0 { 0 } else { weight_sum(n - 1) + spec_legs()[n - 1].weight_bp }
}

/// The fix a share calculation reads for `leg` on `day`: the first entry
/// keyed by the leg's ticker, on that day, or zero when there is none.
pub open spec fn share_fix(series: Seq<(&str, Daily)>, leg: Leg, day: int) -> int {
    let i = ticker_index(series, leg.ticker@);
    if i < series.len() && covers(series[i].1, day) { fix_on(series[i].1, day) as int } else { 0 }
}

/// The dollar value of the `k`-th holding on `day`.
pub open spec fn holding_value(q: Quantity, series: Seq<(&str, Daily)>, day: int) -> int {
    trunc_div(q.quantity * share_fix(series, q.leg, day), SCALE as int)
}

/// The dollar value of the first `n` holdings on `day`.
pub open spec fn holdings_total(qs: Seq<Quantity>, series: Seq<(&str, Daily)>, day: int, n: int) -> int
    decreases n,
{
    if n <= 0 { 0 } else { holdings_total(qs, series, day, n - 1) + holding_value(qs[n - 1], series, day) }
}

/// Each holding's share of the basket's value on `day`, in basis points;
/// raw values when the total is not positive.
pub open spec fn spec_shares(qs: Seq<Quantity>, series: Seq<(&str, Daily)>, day: int) -> Seq<(Leg, i128)> {
    let total = holdings_total(qs, series, day, qs.len() as int);
    Seq::new(qs.len(), |k: int| {
        let v = holding_value(qs[k], series, day);
        (qs[k].leg, (if total > 0 { trunc_div(v * 10_000, total) } else { v }) as i128)
    })
}

/// An index whose holdings and level can be read without overflow.
pub open spec fn index_readable(idx: Index) -> bool {
    &&& daily_fits(idx.level.start, idx.level.values@.len())
    &&& idx.quantities@.len() <= 1_048_576
    &&& forall|k: int| 0 <= k < idx.quantities@.len() ==> -QUANTITY_LIMIT <= (#[trigger] idx.quantities@[k]).quantity <= QUANTITY_LIMIT
}

/// Every entry of `series` is priced within [`PRICE_LIMIT`] and can be looked up by day.
pub open spec fn series_readable(series: Seq<(&str, Daily)>) -> bool {
    forall|i: int| 0 <= i < series.len() ==> {
        &&& prices_bounded((#[trigger] series[i]).1.values@)
        &&& daily_fits(series[i].1.start, series[i].1.values@.len())
    }
}

pub proof fn lemma_mul_bounded(a: int, b: int, x: int, y: int)
    requires
        -x <= a <= x,
        -y <= b <= y,
    ensures
        -(x * y) <= a * b <= x * y,
{
    assert(-(x * y) <= a * b <= x * y) by (nonlinear_arith)
        requires
            -x <= a <= x,
            -y <= b <= y,
    ;
}

pub proof fn lemma_holding_bound(q: Quantity, series: Seq<(&str, Daily)>, day: int)
    requires
        series_readable(series),
        -QUANTITY_LIMIT <= q.quantity <= QUANTITY_LIMIT,
    ensures
        -39614081257132168796771975168int <= holding_value(q, series, day) <= 39614081257132168796771975168int,
        -42535295865117307932921825928971026432int <= q.quantity * share_fix(series, q.leg, day) <= 42535295865117307932921825928971026432int,
{
    let i = ticker_index(series, q.leg.ticker@);
    lemma_ticker_index_exists(series, q.leg.ticker@);
    let f = share_fix(series, q.leg, day);
    if i < series.len() && covers(series[i].1, day) {
        assert(prices_bounded(series[i].1.values@));
        assert(-PRICE_LIMIT <= series[i].1.values@[day - series[i].1.start] <= PRICE_LIMIT);
    }
    assert(-PRICE_LIMIT <= f <= PRICE_LIMIT);
    lemma_mul_bounded(q.quantity as int, f, QUANTITY_LIMIT as int, PRICE_LIMIT as int);
    assert(QUANTITY_LIMIT * PRICE_LIMIT <= 42535295865117307932921825928971026432int);
}

impl Index {
    /// The latest published level.
    pub fn latest(&self) -> (r: Option<(i64, i128)>)
        requires
            daily_fits(self.level.start, self.level.values@.len()),
        ensures
            r == (if self.level.values@.len() > 0 {
                Some(((self.level.start + self.level.values@.len() - 1) as i64, self.level.values@.last()))
            } else {
                None::<(i64, i128)>
            }),
    {
        if self.level.values.len() > 0 {
            Some((self.level.end(), self.level.values[self.level.values.len() - 1]))
        } else {
            None
        }
    }

    /// The level `days` calendar days before the end, for a change figure.
    pub fn level_before(&self, days: i64) -> (r: Option<i128>)
        requires
            daily_fits(self.level.start, self.level.values@.len()),
            i64::MIN <= self.level.start + self.level.values@.len() - 1 - days <= i64::MAX,
            self.level.values@.len() - 1 - days >= 0 ==> self.level.values@.len() - 1 - days <= i64::MAX,
        ensures
            ({
                let day = self.level.start + self.level.values@.len() - 1 - days;
                r == (if covers(self.level, day) { Some(fix_on(self.level, day)) } else { None::<i128> })
            }),
    {
        self.level.value_on(self.level.end() - days)
    }

    /// Each leg's share of the current level, in basis points: the weights
    /// drift from their starting values as prices move.
    pub fn current_shares(&self, series: &[(&str, Daily)]) -> (r: Vec<(Leg, i128)>)
        requires
            index_readable(*self),
            series_readable(series@),
            forall|i: int| 0 <= i < series@.len() && (#[trigger] series@[i]).1.start <= self.level.start + self.level.values@.len() - 1
                ==> self.level.start + self.level.values@.len() - 1 - series@[i].1.start <= i64::MAX,
        ensures
            r@ == spec_shares(self.quantities@, series@, self.level.start + self.level.values@.len() - 1),
            ({
                let day = self.level.start + self.level.values@.len() - 1;
                let qs = self.quantities@;
                holdings_total(qs, series@, day, qs.len() as int) > 0 && (forall|k: int|
                    0 <= k < qs.len() ==> holding_value(#[trigger] qs[k], series@, day) >= 0) ==> 10_000 - qs.len()
                    < share_sum(r@, qs.len() as int) <= 10_000
            }),
    {
        let ghost s = series@;
        let ghost qs = self.quantities@;
        let day = self.level.end();
        let n = self.quantities.len();
        let mut out: Vec<(Leg, i128)> = Vec::new();
        let mut total: i128 = 0;
        let mut k: usize = 0;
        while k < n
            invariant
                s == series@,
                qs == self.quantities@,
                n == qs.len(),
                n <= 1_048_576,
                series_readable(s),
                forall|j: int| 0 <= j < n ==> -QUANTITY_LIMIT <= (#[trigger] qs[j]).quantity <= QUANTITY_LIMIT,
                0 <= k <= n,
                total == holdings_total(qs, s, day as int, k as int),
                -(k as int) * 39614081257132168796771975168int <= total <= (k as int) * 39614081257132168796771975168int,
                out@.len() == k,
                forall|j: int| 0 <= j < k ==> #[trigger] out@[j] == (qs[j].leg, holding_value(qs[j], s, day as int) as i128),
                forall|j: int| 0 <= j < k ==> -39614081257132168796771975168int <= #[trigger] out@[j].1 <= 39614081257132168796771975168int,
                forall|j: int| 0 <= j < k ==> -39614081257132168796771975168int <= holding_value(#[trigger] qs[j], s, day as int) <= 39614081257132168796771975168int,
                forall|i: int| 0 <= i < s.len() && (#[trigger] s[i]).1.start <= day ==> day - s[i].1.start <= i64::MAX,
                day == self.level.start + self.level.values@.len() - 1,
            decreases n - k,
        {
            let q = self.quantities[k];
            let i = find_ticker(series, q.leg.ticker);
            proof {
                lemma_ticker_index_exists(s, q.leg.ticker@);
            }
            let mut fix: i128 = 0;
            if i < series.len() {
                proof {
                    assert(daily_fits(s[i as int].1.start, s[i as int].1.values@.len()));
                }
                let d = &series[i].1;
                assert(d.start <= day ==> day - d.start <= i64::MAX);
                if day >= d.start {
                    match d.value_on(day) {
                        Some(v) => {
                            fix = v;
                        },
                        None => {},
                    }
                }
            }
            proof {
                lemma_holding_bound(q, s, day as int);
                assert(fix == share_fix(s, q.leg, day as int));
            }
            let value = fmul(q.quantity, fix);
            total = total + value;
            out.push((q.leg, value));
            k = k + 1;
        }
        let ghost raw = out@;
        if total > 0 {
            let mut j: usize = 0;
            while j < n
                invariant
                    n == out@.len(),
                    raw.len() == n,
                    0 < total <= (n as int) * 39614081257132168796771975168int,
                    n <= 1_048_576,
                    0 <= j <= n,
                    forall|t: int| j <= t < n ==> #[trigger] out@[t] == raw[t],
                    forall|t: int| 0 <= t < j ==> #[trigger] out@[t] == (raw[t].0, trunc_div(raw[t].1 * 10_000, total as int) as i128),
                    forall|t: int| 0 <= t < n ==> -39614081257132168796771975168int <= #[trigger] raw[t].1 <= 39614081257132168796771975168int,
                decreases n - j,
            {
                let (leg, value) = out[j];
                proof {
                    assert(-39614081257132168796771975168int <= value <= 39614081257132168796771975168int);
                }
                let share = value * 10_000 / total;
                out.set(j, (leg, share));
                j = j + 1;
            }
        }
        proof {
            assert(out@ =~= spec_shares(qs, s, day as int));
            if holdings_total(qs, s, day as int, qs.len() as int) > 0 && (forall|k: int|
                0 <= k < qs.len() ==> holding_value(#[trigger] qs[k], s, day as int) >= 0) {
                lemma_shares_sum(qs, s, day as int);
            }
        }
        out
    }
}

/// The sum of the first `n` shares.
pub open spec fn share_sum(shares: Seq<(Leg, i128)>, n: int) -> int
    decreases n,
{
    if n <= 0 { 0 } else { share_sum(shares, n - 1) + shares[n - 1].1 }
}

proof fn lemma_holdings_prefix(qs: Seq<Quantity>, series: Seq<(&str, Daily)>, day: int, n: int, m: int)
    requires
        0 <= n <= m <= qs.len(),
        forall|k: int| 0 <= k < qs.len() ==> holding_value(#[trigger] qs[k], series, day) >= 0,
    ensures
        0 <= holdings_total(qs, series, day, n) <= holdings_total(qs, series, day, m),
    decreases m - n, n,
{
    if n < m {
        lemma_holdings_prefix(qs, series, day, n, m - 1);
        assert(holding_value(qs[m - 1], series, day) >= 0);
    } else if n > 0 {
        lemma_holdings_prefix(qs, series, day, n - 1, n - 1);
        assert(holding_value(qs[n - 1], series, day) >= 0);
    }
}

proof fn lemma_share_sum_upto(qs: Seq<Quantity>, series: Seq<(&str, Daily)>, day: int, n: int)
    requires
        0 <= n <= qs.len(),
        holdings_total(qs, series, day, qs.len() as int) > 0,
        forall|k: int| 0 <= k < qs.len() ==> holding_value(#[trigger] qs[k], series, day) >= 0,
    ensures
        ({
            let t = holdings_total(qs, series, day, qs.len() as int);
            let sum = share_sum(spec_shares(qs, series, day), n);
            let h = holdings_total(qs, series, day, n);
            &&& sum * t <= 10_000 * h
            &&& 10_000 * h - sum * t <= n * (t - 1)
        }),
    decreases n,
{
    if n > 0 {
        lemma_share_sum_upto(qs, series, day, n - 1);
        let t = holdings_total(qs, series, day, qs.len() as int);
        let v = holding_value(qs[n - 1], series, day);
        lemma_holdings_prefix(qs, series, day, n - 1, n - 1);
        lemma_holdings_prefix(qs, series, day, n, qs.len() as int);
        assert(0 <= v <= t);
        let x = (v * 10_000) / t;
        vstd::arithmetic::div_mod::lemma_fundamental_div_mod(v * 10_000, t);
        let r = (v * 10_000) % t;
        assert(v * 10_000 == t * x + r);
        assert(0 <= r < t);
        assert(v * 10_000 == x * t + r) by (nonlinear_arith) requires v * 10_000 == t * x + r;
        assert(0 <= x <= 10_000) by (nonlinear_arith)
            requires v * 10_000 == x * t + r, 0 <= r < t, 0 <= v <= t, t > 0;
        assert(trunc_div(v * 10_000, t) == x);
        assert(spec_shares(qs, series, day)[n - 1].1 == x);
        let s0 = share_sum(spec_shares(qs, series, day), n - 1);
        let h0 = holdings_total(qs, series, day, n - 1);
        assert(share_sum(spec_shares(qs, series, day), n) == s0 + x);
        assert(holdings_total(qs, series, day, n) == h0 + v);
        assert((s0 + x) * t <= 10_000 * (h0 + v) && 10_000 * (h0 + v) - (s0 + x) * t <= n * (t - 1))
            by (nonlinear_arith)
            requires
                s0 * t <= 10_000 * h0,
                10_000 * h0 - s0 * t <= (n - 1) * (t - 1),
                v * 10_000 == x * t + r,
                0 <= r < t,
        ;
    }
}

/// The shares add up to the whole: when the basket is worth something and no
/// holding is negative, the shares sum to at most ten thousand basis points
/// and lose less than one point per holding to truncation.
pub proof fn lemma_shares_sum(qs: Seq<Quantity>, series: Seq<(&str, Daily)>, day: int)
    requires
        holdings_total(qs, series, day, qs.len() as int) > 0,
        forall|k: int| 0 <= k < qs.len() ==> holding_value(#[trigger] qs[k], series, day) >= 0,
    ensures
        10_000 - qs.len() < share_sum(spec_shares(qs, series, day), qs.len() as int) <= 10_000,
{
    let n = qs.len() as int;
    lemma_share_sum_upto(qs, series, day, n);
    let t = holdings_total(qs, series, day, n);
    let sum = share_sum(spec_shares(qs, series, day), n);
    assert(sum <= 10_000) by (nonlinear_arith) requires sum * t <= 10_000 * t, t > 0;
    assert(n >= 1);
    assert(10_000 - n < sum) by (nonlinear_arith)
        requires 10_000 * t - sum * t <= n * (t - 1), t > 0, n >= 1;
}

/// The collar: a year's rent may rise at most 35% against the year before...
pub const COLLAR_UP_BP: i128 = 13_500;

/// ...and fall at most 15%, measured in the bitcoin numéraire.
pub const COLLAR_DOWN_BP: i128 = 8_500;

/// Day counts within this distance of 1970 keep every anniversary computable.
pub const DAY_BOUND: i64 = 100_000_000_000_000;

/// One anniversary of a lease written on the base date.
#[derive(Debug, Clone, Copy)]
pub struct Anniversary {
    pub day: i64,
    /// the basket priced in bitcoin, before the collar
    pub uncollared: i128,
    /// the rent actually owed, collared and floored
    pub rent_btc: i128,
    /// what that rent invoices in dollars
    pub invoice: i128,
}

/// What an annual rate is read from on a lease walk: the first and last
/// invoices and the years between them, when the walk reaches a second
/// anniversary and opens on a positive invoice.
pub fn rate_span(path: &[Anniversary]) -> (r: Option<(i128, i128, usize)>)
    ensures
        r == (if path@.len() >= 2 && path@[0].invoice > 0 {
            Some((path@[0].invoice, path@.last().invoice, (path@.len() - 1) as usize))
        } else {
            None::<(i128, i128, usize)>
        }),
{
    let n = path.len();
    if n < 2 {
        return None;
    }
    let first = path[0].invoice;
    let last = path[n - 1].invoice;
    if first <= 0 {
        return None;
    }
    Some((first, last, n - 1))
}

/// The last day a calendar covers.
pub open spec fn last_day(d: Daily) -> int {
    d.start + d.values@.len() - 1
}

/// The `k`-th anniversary of `base_day`: the same month and day, `k` years on
/// (a 29th of February lands on the 1st of March in other years).
pub open spec fn anniversary_day(base_day: int, k: int) -> int {
    let t = civil_of(base_day);
    epoch_day(t.0 + k, t.1, t.2)
}

/// Anniversary `k` can be priced: it falls within the level series, both
/// series hold a fix on it, and the ruler's fix is not zero.
pub open spec fn priced_on(level: Daily, btc: Daily, base_day: int, k: int) -> bool {
    let day = anniversary_day(base_day, k);
    &&& day <= last_day(level)
    &&& covers(level, day)
    &&& covers(btc, day)
    &&& fix_on(btc, day) != 0
}

/// The basket priced in bitcoin on anniversary `k`.
pub open spec fn uncollared_at(level: Daily, btc: Daily, base_day: int, k: int) -> int {
    let day = anniversary_day(base_day, k);
    trunc_div(fix_on(level, day) * SCALE, fix_on(btc, day) as int)
}

/// The year-zero dollar rent priced in bitcoin on anniversary `k`.
pub open spec fn dollar_floor_at(btc: Daily, base_day: int, k: int) -> int {
    trunc_div(BASE_LEVEL * SCALE, fix_on(btc, anniversary_day(base_day, k)) as int)
}

/// `x` held within `[lo, hi]`.
pub open spec fn clamp(x: int, lo: int, hi: int) -> int {
    if x < lo { lo } else if x > hi { hi } else { x }
}

/// The lowest rent the collar allows after a year's rent `prev`.
pub open spec fn collar_low(prev: int) -> int {
    trunc_div(prev * COLLAR_DOWN_BP, 10_000)
}

/// The highest rent the collar allows after a year's rent `prev`.
pub open spec fn collar_high(prev: int) -> int {
    trunc_div(prev * COLLAR_UP_BP, 10_000)
}

/// The rent owed on anniversary `k`, in bitcoin: the uncollared price, held
/// within the collar of the year before, and never below the year-zero rent
/// in bitcoin nor below the year-zero dollar rent.
pub open spec fn rent_at(level: Daily, btc: Daily, base_day: int, k: nat) -> int
    decreases k,
{
    let s = uncollared_at(level, btc, base_day, k as int);
    let s0 = uncollared_at(level, btc, base_day, 0);
    let f = dollar_floor_at(btc, base_day, k as int);
    let floor = if s0 > f { s0 } else { f };
    let r = if k == 0 {
        s
    } else {
        let p = rent_at(level, btc, base_day, (k - 1) as nat);
        clamp(s, collar_low(p), collar_high(p))
    };
    if r > floor { r } else { floor }
}

/// The anniversary record for year `k`.
pub open spec fn anniversary_at(level: Daily, btc: Daily, base_day: int, k: int) -> Anniversary {
    let day = anniversary_day(base_day, k);
    let rent = rent_at(level, btc, base_day, k as nat);
    Anniversary {
        day: day as i64,
        uncollared: uncollared_at(level, btc, base_day, k) as i128,
        rent_btc: rent as i128,
        invoice: trunc_div(rent * fix_on(btc, day), SCALE as int) as i128,
    }
}

/// Anniversary `k` is priced with no arithmetic leaving `i128`, and the
/// collar it applies is a well-ordered range.
pub open spec fn computable_at(level: Daily, btc: Daily, base_day: int, k: int) -> bool {
    let day = anniversary_day(base_day, k);
    let rent = rent_at(level, btc, base_day, k as nat);
    &&& i128::MIN <= fix_on(level, day) * SCALE <= i128::MAX
    &&& k > 0 ==> {
        let p = rent_at(level, btc, base_day, (k - 1) as nat);
        &&& i128::MIN <= p * COLLAR_UP_BP <= i128::MAX
        &&& collar_low(p) <= collar_high(p)
    }
    &&& i128::MIN <= rent * fix_on(btc, day) <= i128::MAX
}

/// Every anniversary that is reached is computable.
pub open spec fn path_computable(level: Daily, btc: Daily, base_day: int) -> bool {
    forall|k: int|
        0 <= k && (forall|j: int| 0 <= j <= k ==> #[trigger] priced_on(level, btc, base_day, j))
            ==> #[trigger] computable_at(level, btc, base_day, k)
}

proof fn lemma_rent_fits(level: Daily, btc: Daily, base_day: int, k: int)
    requires
        0 <= k,
        forall|j: int| 0 <= j <= k ==> #[trigger] priced_on(level, btc, base_day, j),
        path_computable(level, btc, base_day),
    ensures
        i128::MIN <= rent_at(level, btc, base_day, k as nat) <= i128::MAX,
        i128::MIN <= uncollared_at(level, btc, base_day, k) <= i128::MAX,
{
    assert(priced_on(level, btc, base_day, k));
    assert(computable_at(level, btc, base_day, k));
    let day = anniversary_day(base_day, k);
    let r = rent_at(level, btc, base_day, k as nat);
    let f = fix_on(btc, day) as int;
    assert(f != 0);
    let x = r * f;
    assert(i128::MIN <= x <= i128::MAX);
    if f > 0 {
        if r >= 0 {
            assert(r <= x) by (nonlinear_arith) requires x == r * f, f >= 1, r >= 0;
        } else {
            assert(x <= r) by (nonlinear_arith) requires x == r * f, f >= 1, r < 0;
        }
    } else {
        if r >= 0 {
            assert(-x >= r) by (nonlinear_arith) requires x == r * f, f <= -1, r >= 0;
        } else {
            assert(-x <= r) by (nonlinear_arith) requires x == r * f, f <= -1, r < 0;
        }
    }
    let y = fix_on(level, day) * SCALE;
    assert(i128::MIN <= y <= i128::MAX);
    let u = uncollared_at(level, btc, base_day, k);
    assert(u == trunc_div(y, f));
    if y >= 0 {
        if f > 0 {
            assert(0 <= y / f <= y) by (nonlinear_arith) requires y >= 0, f > 0;
        } else {
            assert(0 <= y / (-f) <= y) by (nonlinear_arith) requires y >= 0, -f > 0;
        }
    } else {
        if f > 0 {
            assert(0 <= (-y) / f <= -y) by (nonlinear_arith) requires -y > 0, f > 0;
        } else {
            assert(0 <= (-y) / (-f) <= -y) by (nonlinear_arith) requires -y > 0, -f > 0;
        }
    }
}

/// The lease walk as a recurrence: on every anniversary after the first, the
/// rent is the basket's bitcoin price held within the collar of the year
/// before's rent, then raised to the dual floor; the first year's rent is
/// its price raised to the floor; and each invoice is the rent at that
/// day's bitcoin fix.
pub proof fn lemma_path_recurrence(level: Daily, btc: Daily, base_day: int, k: int)
    requires
        0 <= k,
        daily_fits(level.start, level.values@.len()),
        forall|j: int| 0 <= j <= k ==> #[trigger] priced_on(level, btc, base_day, j),
        path_computable(level, btc, base_day),
    ensures
        ({
            let a = anniversary_at(level, btc, base_day, k);
            let held = if k == 0 {
                a.uncollared as int
            } else {
                let p = anniversary_at(level, btc, base_day, k - 1).rent_btc as int;
                clamp(a.uncollared as int, collar_low(p), collar_high(p))
            };
            let f = floor_at(level, btc, base_day, k);
            &&& a.rent_btc == (if held > f { held } else { f })
            &&& a.invoice == trunc_div(a.rent_btc * fix_on(btc, a.day as int), SCALE as int)
        }),
{
    lemma_rent_fits(level, btc, base_day, k);
    if k > 0 {
        lemma_rent_fits(level, btc, base_day, k - 1);
    }
    assert(computable_at(level, btc, base_day, k));
    let day = anniversary_day(base_day, k);
    assert(priced_on(level, btc, base_day, k));
    assert(i64::MIN <= day <= i64::MAX);
}

impl Index {
    /// The lease machinery across the published span: price the basket in
    /// bitcoin on each anniversary of the base date, collar each annual step,
    /// hold the dual floor, and convert back to dollars at the same fix. The
    /// walk stops at the first anniversary that cannot be priced.
    pub fn collared_path(&self, btc: &Daily) -> (r: Vec<Anniversary>)
        requires
            -DAY_BOUND <= self.base_day <= DAY_BOUND,
            -DAY_BOUND <= self.level.start,
            last_day(self.level) <= DAY_BOUND,
            -DAY_BOUND <= btc.start,
            daily_fits(self.level.start, self.level.values@.len()),
            path_computable(self.level, *btc, self.base_day as int),
        ensures
            forall|k: int| 0 <= k < r@.len() ==> #[trigger] priced_on(self.level, *btc, self.base_day as int, k),
            !priced_on(self.level, *btc, self.base_day as int, r@.len() as int),
            forall|k: int| 0 <= k < r@.len() ==> #[trigger] r@[k] == anniversary_at(self.level, *btc, self.base_day as int, k),
    {
        let ghost level = self.level;
        let ghost base = self.base_day as int;
        let (y, m, d) = civil_from_days(self.base_day);
        proof {
            lemma_year_of_day(y as int, m as int, d as int, DAY_BOUND as int);
        }
        let end = self.level.end();
        let mut out: Vec<Anniversary> = Vec::new();
        let mut year: i64 = 0;
        let mut prev: Option<i128> = None;
        let mut s0: i128 = 0;
        loop
            invariant
                level == self.level,
                base == self.base_day,
                (y as int, m as int, d as int) == civil_of(base),
                valid_date(y as int, m as int, d as int),
                epoch_day(y as int, m as int, d as int) == base,
                -DAY_BOUND <= base <= DAY_BOUND,
                -DAY_BOUND <= level.start,
                last_day(level) <= DAY_BOUND,
                -DAY_BOUND <= btc.start,
                end == last_day(level),
                -(DAY_BOUND / 365) - 3000 <= y <= DAY_BOUND / 365 + 3000,
                path_computable(level, *btc, base),
                0 <= year,
                365 * (year - 1) <= DAY_BOUND * 2,
                out@.len() == year,
                forall|k: int| 0 <= k < year ==> #[trigger] priced_on(level, *btc, base, k),
                forall|k: int| 0 <= k < year ==> #[trigger] out@[k] == anniversary_at(level, *btc, base, k),
                year == 0 ==> prev is None,
                year > 0 ==> prev == Some(rent_at(level, *btc, base, (year - 1) as nat) as i128),
                year > 0 ==> s0 == uncollared_at(level, *btc, base, 0),
            ensures
                !priced_on(level, *btc, base, year as int),
            decreases DAY_BOUND * 2 + 365 - 365 * year,
        {
            proof {
                lemma_years_apart(y as int, m as int, d as int, year as nat);
            }
            let day = days_from_civil(y + year, m, d);
            assert(day == anniversary_day(base, year as int));
            if day > end {
                break;
            }
            let lv = match self.level.value_on(day) {
                Some(v) => v,
                None => {
                    break;
                },
            };
            let x = match btc.value_on(day) {
                Some(v) => v,
                None => {
                    break;
                },
            };
            if x == 0 {
                break;
            }
            proof {
                assert(priced_on(level, *btc, base, year as int));
                assert(forall|j: int| 0 <= j <= year ==> #[trigger] priced_on(level, *btc, base, j));
                assert(computable_at(level, *btc, base, year as int));
            }
            let s = match fdiv(lv, x) {
                Some(v) => v,
                None => {
                    break;
                },
            };
            let mut rent = match prev {
                None => {
                    s0 = s;
                    s
                },
                Some(p) => {
                    let hi = p * COLLAR_UP_BP / 10_000;
                    let lo = p * COLLAR_DOWN_BP / 10_000;
                    if s < lo {
                        lo
                    } else if s > hi {
                        hi
                    } else {
                        s
                    }
                },
            };
            match fdiv(BASE_LEVEL, x) {
                Some(fiat) => {
                    let floor = if s0 > fiat { s0 } else { fiat };
                    if floor > rent {
                        rent = floor;
                    }
                },
                None => {},
            }
            assert(rent == rent_at(level, *btc, base, year as nat));
            let invoice = fmul(rent, x);
            out.push(Anniversary { day, uncollared: s, rent_btc: rent, invoice });
            prev = Some(rent);
            year = year + 1;
        }
        out
    }

    /// Whether every anniversary the lease walk reaches is priced without
    /// arithmetic leaving `i128`: the condition [`Index::collared_path`] needs.
    #[verifier::rlimit(80)]
    pub fn path_is_computable(&self, btc: &Daily) -> (r: bool)
        requires
            -DAY_BOUND <= self.base_day <= DAY_BOUND,
            -DAY_BOUND <= self.level.start,
            last_day(self.level) <= DAY_BOUND,
            -DAY_BOUND <= btc.start,
            daily_fits(self.level.start, self.level.values@.len()),
        ensures
            r == path_computable(self.level, *btc, self.base_day as int),
    {
        let ghost level = self.level;
        let ghost base = self.base_day as int;
        let (y, m, d) = civil_from_days(self.base_day);
        proof {
            lemma_year_of_day(y as int, m as int, d as int, DAY_BOUND as int);
        }
        let end = self.level.end();
        let mut year: i64 = 0;
        let mut prev: Option<i128> = None;
        let mut s0: i128 = 0;
        loop
            invariant
                level == self.level,
                base == self.base_day,
                (y as int, m as int, d as int) == civil_of(base),
                valid_date(y as int, m as int, d as int),
                epoch_day(y as int, m as int, d as int) == base,
                -DAY_BOUND <= base <= DAY_BOUND,
                -DAY_BOUND <= level.start,
                last_day(level) <= DAY_BOUND,
                -DAY_BOUND <= btc.start,
                end == last_day(level),
                -(DAY_BOUND / 365) - 3000 <= y <= DAY_BOUND / 365 + 3000,
                0 <= year,
                365 * (year - 1) <= DAY_BOUND * 2,
                forall|k: int| 0 <= k < year ==> #[trigger] priced_on(level, *btc, base, k),
                forall|k: int| 0 <= k < year ==> #[trigger] computable_at(level, *btc, base, k),
                year == 0 ==> prev is None,
                year > 0 ==> prev == Some(rent_at(level, *btc, base, (year - 1) as nat) as i128),
                year > 0 ==> i128::MIN <= rent_at(level, *btc, base, (year - 1) as nat) <= i128::MAX,
                year > 0 ==> s0 == uncollared_at(level, *btc, base, 0),
            ensures
                !priced_on(level, *btc, base, year as int),
            decreases DAY_BOUND * 2 + 365 - 365 * year,
        {
            proof {
                lemma_years_apart(y as int, m as int, d as int, year as nat);
            }
            let day = days_from_civil(y + year, m, d);
            assert(day == anniversary_day(base, year as int));
            if day > end {
                break;
            }
            let lv = match self.level.value_on(day) {
                Some(v) => v,
                None => {
                    break;
                },
            };
            let x = match btc.value_on(day) {
                Some(v) => v,
                None => {
                    break;
                },
            };
            if x == 0 {
                break;
            }
            proof {
                assert(priced_on(level, *btc, base, year as int));
                assert(forall|j: int| 0 <= j <= year ==> #[trigger] priced_on(level, *btc, base, j));
            }
            if lv.checked_mul(SCALE).is_none() {
                proof {
                    assert(!computable_at(level, *btc, base, year as int));
                }
                return false;
            }
            match prev {
                Some(p) => {
                    if p.checked_mul(COLLAR_UP_BP).is_none() || p * COLLAR_DOWN_BP / 10_000 > p * COLLAR_UP_BP / 10_000 {
                        proof {
                            assert(!computable_at(level, *btc, base, year as int));
                        }
                        return false;
                    }
                },
                None => {},
            }
            let s = match fdiv(lv, x) {
                Some(v) => v,
                None => {
                    break;
                },
            };
            let mut rent = match prev {
                None => {
                    s0 = s;
                    s
                },
                Some(p) => {
                    let hi = p * COLLAR_UP_BP / 10_000;
                    let lo = p * COLLAR_DOWN_BP / 10_000;
                    if s < lo {
                        lo
                    } else if s > hi {
                        hi
                    } else {
                        s
                    }
                },
            };
            match fdiv(BASE_LEVEL, x) {
                Some(fiat) => {
                    let floor = if s0 > fiat { s0 } else { fiat };
                    if floor > rent {
                        rent = floor;
                    }
                },
                None => {},
            }
            assert(rent == rent_at(level, *btc, base, year as nat));
            if rent.checked_mul(x).is_none() {
                proof {
                    assert(!computable_at(level, *btc, base, year as int));
                }
                return false;
            }
            assert(computable_at(level, *btc, base, year as int));
            prev = Some(rent);
            year = year + 1;
        }
        proof {
            assert forall|k: int|
                0 <= k && (forall|j: int| 0 <= j <= k ==> #[trigger] priced_on(level, *btc, base, j))
                    implies #[trigger] computable_at(level, *btc, base, k) by {
                if k >= year {
                    assert(priced_on(level, *btc, base, year as int));
                }
            }
        }
        true
    }
}


/// The weights of the legs among the first `n` that belong to group `g`.
pub open spec fn group_weight(g: Group, n: int) -> int
    decreases n,
{
    if n <= 0 {
        0
    } else {
        group_weight(g, n - 1) + if spec_legs()[n - 1].group == g { spec_legs()[n - 1].weight_bp as int } else { 0 }
    }
}

/// The basket is written at 35% crypto, 30% fiat and 35% elements.
pub proof fn lemma_group_weights()
    ensures
        group_weight(Group::Crypto, 8) == 3_500,
        group_weight(Group::Fiat, 8) == 3_000,
        group_weight(Group::Elements, 8) == 3_500,
{
    reveal_with_fuel(group_weight, 9);
}

// ---------------------------------------------------------------------------
// what the collar does
// ---------------------------------------------------------------------------

/// The floor under anniversary `k`: the year-zero rent in bitcoin, or the
/// year-zero dollar rent priced in bitcoin, whichever is higher.
pub open spec fn floor_at(level: Daily, btc: Daily, base_day: int, k: int) -> int {
    let s0 = uncollared_at(level, btc, base_day, 0);
    let f = dollar_floor_at(btc, base_day, k);
    if s0 > f { s0 } else { f }
}

/// The dual floor: the rent owed in any year is never below the year-zero
/// rent in bitcoin, nor below the year-zero dollar rent priced at that
/// year's fix.
pub proof fn lemma_rent_floor(level: Daily, btc: Daily, base_day: int, k: nat)
    ensures
        rent_at(level, btc, base_day, k) >= uncollared_at(level, btc, base_day, 0),
        rent_at(level, btc, base_day, k) >= dollar_floor_at(btc, base_day, k as int),
        rent_at(level, btc, base_day, k) >= floor_at(level, btc, base_day, k as int),
{
}

/// The collar: after a year's non-negative rent `p`, the next year's rent
/// falls no lower than 85% of `p`, and rises above 135% of `p` only where
/// the floor itself stands higher, in which case it is the floor.
pub proof fn lemma_rent_collar(level: Daily, btc: Daily, base_day: int, k: nat)
    requires
        k >= 1,
        rent_at(level, btc, base_day, (k - 1) as nat) >= 0,
    ensures
        ({
            let p = rent_at(level, btc, base_day, (k - 1) as nat);
            let r = rent_at(level, btc, base_day, k);
            let f = floor_at(level, btc, base_day, k as int);
            &&& r >= collar_low(p)
            &&& r <= collar_high(p) || r == f
        }),
{
    let p = rent_at(level, btc, base_day, (k - 1) as nat);
    assert(p * COLLAR_DOWN_BP >= 0 && p * COLLAR_DOWN_BP <= p * COLLAR_UP_BP) by (nonlinear_arith)
        requires p >= 0;
    assert((p * COLLAR_DOWN_BP) / 10_000 <= (p * COLLAR_UP_BP) / 10_000) by (nonlinear_arith)
        requires 0 <= p * COLLAR_DOWN_BP <= p * COLLAR_UP_BP;
}

/// A flat world never moves the invoice: while the level and the ruler read
/// on every anniversary what they read on the base date, and the ruler's fix
/// is positive, every year's rent is the year-zero rent.
pub proof fn lemma_flat_world(level: Daily, btc: Daily, base_day: int, k: nat)
    requires
        fix_on(btc, anniversary_day(base_day, 0)) > 0,
        forall|j: int| 0 < j <= k ==> {
            &&& fix_on(level, #[trigger] anniversary_day(base_day, j)) == fix_on(level, anniversary_day(base_day, 0))
            &&& fix_on(btc, anniversary_day(base_day, j)) == fix_on(btc, anniversary_day(base_day, 0))
        },
    ensures
        rent_at(level, btc, base_day, k) == rent_at(level, btc, base_day, 0),
        anniversary_at(level, btc, base_day, k as int).invoice == anniversary_at(level, btc, base_day, 0).invoice,
    decreases k,
{
    let s0 = uncollared_at(level, btc, base_day, 0);
    let x = fix_on(btc, anniversary_day(base_day, 0)) as int;
    let f0 = dollar_floor_at(btc, base_day, 0);
    assert(f0 >= 0) by (nonlinear_arith)
        requires f0 == trunc_div(BASE_LEVEL * SCALE, x), x > 0;
    if k > 0 {
        lemma_flat_world(level, btc, base_day, (k - 1) as nat);
        let r = rent_at(level, btc, base_day, 0);
        assert(anniversary_day(base_day, k as int) == anniversary_day(base_day, k as int));
        assert(uncollared_at(level, btc, base_day, k as int) == s0);
        assert(dollar_floor_at(btc, base_day, k as int) == f0);
        assert(r >= 0);
        assert(collar_low(r) <= r && collar_high(r) >= r) by (nonlinear_arith)
            requires r >= 0, collar_low(r) == trunc_div(r * COLLAR_DOWN_BP, 10_000),
                collar_high(r) == trunc_div(r * COLLAR_UP_BP, 10_000);
    }
}

} // verus!
