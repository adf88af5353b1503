//! The chart's integer geometry: which gridlines an axis carries, which days
//! a view samples, and how the x axis is labelled.
//!
//! Placing a value on a logarithmic axis needs a logarithm; that one step is
//! left to the page builder, and everything it is handed is computed here.

use crate::calendar::{civil_of, epoch_day, lemma_div_is, lemma_year_of_day, valid_date};
use crate::index::{prices_bounded, DAY_BOUND, PRICE_LIMIT};
use crate::num::{
    civil_from_days, date_text, format_date, format_fixed, format_thousands, spec_format_fixed, spec_format_thousands,
    SCALE,
};
use crate::series::{daily_fits, Daily};
use crate::text::{int_text, padded, push_char, push_int, push_padded};
use vstd::prelude::*;

verus! {

/// Axis values up to this magnitude (a trillion billion dollars) keep every
/// gridline computation inside `i128`.
pub const CHART_LIMIT: i128 = 1_000_000_000_000_000_000_000_000_000_000;

/// One range of the chart, ready to embed: the page swaps a string rather
/// than recomputing anything in the browser.
pub struct ChartView {
    pub key: &'static str,
    pub label: &'static str,
    /// inner SVG: grid, ticks, path, end marker, hover group
    pub svg: String,
    /// `[[x, y, "level", "YYYY-MM-DD"], …]` for the hover layer
    pub points_json: String,
    pub logarithmic: bool,
}

// ---------------------------------------------------------------------------
// a logarithmic axis: the 1-2-5 ladder
// ---------------------------------------------------------------------------

/// The decade (in whole dollars) a log axis starts from: the largest power of
/// ten reached from `decade` whose tenfold is still at or below `min_v`.
pub open spec fn first_decade(decade: int, min_v: int) -> int
    decreases min_v - decade,
{
    if decade >= 1 && decade * SCALE * 10 <= min_v {
        first_decade(decade * 10, min_v)
    } else {
        decade
    }
}

/// `t` as a gridline, if it reaches half of `min_v`.
pub open spec fn keep_tick(t: int, min_v: int) -> Seq<i128> {
    if t * 2 >= min_v { seq![t as i128] } else { Seq::empty() }
}

/// The gridlines `1, 2, 5 × decade` dollars, then the same a decade up, and
/// so on: each one kept if it reaches half of `min_v`, the whole ladder
/// stopping at the first rung past twice `max_v`, or after the decade of a
/// million dollars.
pub open spec fn log_ladder(decade: int, min_v: int, max_v: int) -> Seq<i128>
    decreases 1_000_000 - decade,
{
    let t1 = decade * SCALE;
    let t2 = 2 * decade * SCALE;
    let t5 = 5 * decade * SCALE;
    if t1 > max_v * 2 {
        Seq::empty()
    } else if t2 > max_v * 2 {
        keep_tick(t1, min_v)
    } else if t5 > max_v * 2 {
        keep_tick(t1, min_v) + keep_tick(t2, min_v)
    } else {
        keep_tick(t1, min_v) + keep_tick(t2, min_v) + keep_tick(t5, min_v) + if decade >= 1 && decade * 10
            <= 1_000_000 {
            log_ladder(decade * 10, min_v, max_v)
        } else {
            Seq::empty()
        }
    }
}

/// The rungs `t1 < t2 < t3` kept from one decade all lie between half of
/// `min_v` and `hi`, in increasing order.
proof fn lemma_rungs(t1: int, t2: int, t3: int, min_v: int, lo: int, hi: int)
    requires
        i128::MIN <= lo <= t1 < t2 < t3 <= hi <= i128::MAX,
    ensures
        ({
            let h = keep_tick(t1, min_v) + keep_tick(t2, min_v) + keep_tick(t3, min_v);
            &&& forall|i: int| 0 <= i < h.len() ==> lo <= #[trigger] h[i] <= hi && h[i] * 2 >= min_v
            &&& forall|i: int, j: int| 0 <= i < j < h.len() ==> #[trigger] h[i] < #[trigger] h[j]
        }),
{
    let k1 = keep_tick(t1, min_v);
    let k2 = keep_tick(t2, min_v);
    let k3 = keep_tick(t3, min_v);
    let h = k1 + k2 + k3;
    let e = Seq::<i128>::empty();
    if t1 * 2 >= min_v {
        if t2 * 2 >= min_v {
            if t3 * 2 >= min_v { assert(h =~= seq![t1 as i128, t2 as i128, t3 as i128]); }
            else { assert(h =~= seq![t1 as i128, t2 as i128]); }
        } else {
            if t3 * 2 >= min_v { assert(h =~= seq![t1 as i128, t3 as i128]); }
            else { assert(h =~= seq![t1 as i128]); }
        }
    } else {
        if t2 * 2 >= min_v {
            if t3 * 2 >= min_v { assert(h =~= seq![t2 as i128, t3 as i128]); }
            else { assert(h =~= seq![t2 as i128]); }
        } else {
            if t3 * 2 >= min_v { assert(h =~= seq![t3 as i128]); }
            else { assert(h =~= e); }
        }
    }
}

/// Every rung of a ladder is at least the starting decade, between half of
/// `min_v` and twice `max_v`, and above the rungs before it.
proof fn lemma_log_ladder(decade: int, min_v: int, max_v: int)
    requires
        decade >= 1,
        -CHART_LIMIT <= max_v <= CHART_LIMIT,
    ensures
        forall|i: int| 0 <= i < log_ladder(decade, min_v, max_v).len() ==> {
            let t = #[trigger] log_ladder(decade, min_v, max_v)[i];
            &&& t >= decade * SCALE
            &&& t * 2 >= min_v
            &&& t <= max_v * 2
        },
        forall|i: int, j: int| 0 <= i < j < log_ladder(decade, min_v, max_v).len()
            ==> #[trigger] log_ladder(decade, min_v, max_v)[i] < #[trigger] log_ladder(decade, min_v, max_v)[j],
    decreases 1_000_000 - decade,
{
    let r = log_ladder(decade, min_v, max_v);
    let t1 = decade * SCALE;
    let t2 = 2 * decade * SCALE;
    let t5 = 5 * decade * SCALE;
    if t1 > max_v * 2 {
    } else if t2 > max_v * 2 {
        if t1 * 2 >= min_v {
            assert(r =~= seq![t1 as i128]);
        } else {
            assert(r =~= Seq::<i128>::empty());
        }
    } else if t5 > max_v * 2 {
        lemma_rungs(t1, t2, t2 + 1, min_v, t1, t2 + 1);
        assert(r =~= keep_tick(t1, min_v) + keep_tick(t2, min_v) + keep_tick(t2 + 1, min_v).take(0));
    } else {
        lemma_rungs(t1, t2, t5, min_v, t1, t5);
        let head = keep_tick(t1, min_v) + keep_tick(t2, min_v) + keep_tick(t5, min_v);
        if decade * 10 <= 1_000_000 {
            lemma_log_ladder(decade * 10, min_v, max_v);
            let rest = log_ladder(decade * 10, min_v, max_v);
            assert(r == head + rest);
            assert forall|i: int, j: int| 0 <= i < j < r.len() implies #[trigger] r[i] < #[trigger] r[j] by {
                if j >= head.len() {
                    assert(r[j] == rest[j - head.len()]);
                    if i >= head.len() {
                        assert(r[i] == rest[i - head.len()]);
                    }
                }
            }
            assert forall|i: int| 0 <= i < r.len() implies {
                let t = #[trigger] r[i];
                &&& t >= decade * SCALE
                &&& t * 2 >= min_v
                &&& t <= max_v * 2
            } by {
                if i >= head.len() {
                    assert(r[i] == rest[i - head.len()]);
                }
            }
        } else {
            assert(r =~= head);
        }
    }
}

/// Appends the ladder that starts at `decade`.
fn push_log_ladder(out: &mut Vec<i128>, decade: i128, min_v: i128, max_v: i128)
    requires
        1 <= decade <= 1_000_000_000_000_000_000_000,
        -CHART_LIMIT <= min_v <= CHART_LIMIT,
        -CHART_LIMIT <= max_v <= CHART_LIMIT,
    ensures
        final(out)@ == old(out)@ + log_ladder(decade as int, min_v as int, max_v as int),
    decreases 1_000_000 - decade,
{
    let ghost start = out@;
    let t1 = decade * SCALE;
    let t2 = 2 * decade * SCALE;
    let t5 = 5 * decade * SCALE;
    let twice_max = max_v * 2;
    if t1 > twice_max {
        assert(out@ =~= start + log_ladder(decade as int, min_v as int, max_v as int));
        return;
    }
    if t1 * 2 >= min_v {
        out.push(t1);
    }
    if t2 > twice_max {
        assert(out@ =~= start + log_ladder(decade as int, min_v as int, max_v as int));
        return;
    }
    if t2 * 2 >= min_v {
        out.push(t2);
    }
    if t5 > twice_max {
        assert(out@ =~= start + log_ladder(decade as int, min_v as int, max_v as int));
        return;
    }
    if t5 * 2 >= min_v {
        out.push(t5);
    }
    let ghost head = out@;
    assert(head =~= start + keep_tick(t1 as int, min_v as int) + keep_tick(t2 as int, min_v as int) + keep_tick(
        t5 as int,
        min_v as int,
    ));
    if decade * 10 <= 1_000_000 {
        push_log_ladder(out, decade * 10, min_v, max_v);
    }
    assert(out@ =~= start + log_ladder(decade as int, min_v as int, max_v as int));
}

/// The gridlines of a logarithmic axis over `[min_v, max_v]`: the 1-2-5
/// ladder of whole-dollar values, from the decade just below `min_v`.
pub fn log_ticks(min_v: i128, max_v: i128) -> (r: Vec<i128>)
    requires
        -CHART_LIMIT <= min_v <= CHART_LIMIT,
        -CHART_LIMIT <= max_v <= CHART_LIMIT,
    ensures
        r@ == log_ladder(first_decade(1, min_v as int), min_v as int, max_v as int),
        forall|i: int| 0 <= i < r@.len() ==> {
            &&& #[trigger] r@[i] >= SCALE
            &&& r@[i] * 2 >= min_v
            &&& r@[i] <= max_v * 2
        },
        forall|i: int, j: int| 0 <= i < j < r@.len() ==> #[trigger] r@[i] < #[trigger] r@[j],
{
    let mut decade: i128 = 1;
    while decade * SCALE * 10 <= min_v
        invariant
            1 <= decade,
            decade * SCALE <= CHART_LIMIT,
            -CHART_LIMIT <= min_v <= CHART_LIMIT,
            first_decade(decade as int, min_v as int) == first_decade(1, min_v as int),
        decreases min_v - decade,
    {
        decade = decade * 10;
    }
    let mut ticks: Vec<i128> = Vec::new();
    push_log_ladder(&mut ticks, decade, min_v, max_v);
    proof {
        lemma_log_ladder(decade as int, min_v as int, max_v as int);
        assert(ticks@ =~= log_ladder(decade as int, min_v as int, max_v as int));
    }
    ticks
}

// ---------------------------------------------------------------------------
// a linear axis: a round step
// ---------------------------------------------------------------------------

/// How many gridlines `step` needs to span `[min_v, max_v]`: its multiples
/// from the one at or below `min_v` to the one at or above `max_v`.
pub open spec fn ladder_count(min_v: int, max_v: int, step: int) -> int {
    (max_v + step - 1) / step - min_v / step + 1
}

/// The first of `1, 2, 5 × step`, then of the same a decade up, and so on,
/// that spans `[min_v, max_v]` in at most six gridlines; a step past
/// [`CHART_LIMIT`] spans every chartable range.
pub open spec fn step_from(step: int, min_v: int, max_v: int) -> int
    decreases (if step < CHART_LIMIT { CHART_LIMIT - step } else { 0 }),
{
    if step < 1 || step >= CHART_LIMIT {
        step
    } else if ladder_count(min_v, max_v, step) <= 6 {
        step
    } else if ladder_count(min_v, max_v, step * 2) <= 6 {
        step * 2
    } else if ladder_count(min_v, max_v, step * 5) <= 6 {
        step * 5
    } else {
        step_from(step * 10, min_v, max_v)
    }
}

/// The gridline step of a linear axis over `[min_v, max_v]`: the finest
/// round step, from a cent up, that needs no more than six gridlines.
pub open spec fn linear_step(min_v: int, max_v: int) -> int {
    step_from(SCALE / 100, min_v, max_v)
}

/// How many gridlines a linear axis draws: what the step needs to span the
/// range, and never fewer than four.
pub open spec fn linear_count(min_v: int, max_v: int) -> int {
    let n = ladder_count(min_v, max_v, linear_step(min_v, max_v));
    if n <= 0 { 0 } else if n < 4 { 4 } else { n }
}

/// The gridlines of a linear axis: consecutive multiples of the step from
/// the one at or below `min_v`, as many as [`linear_count`] says.
pub open spec fn linear_ladder(min_v: int, max_v: int) -> Seq<i128> {
    let step = linear_step(min_v, max_v);
    let a = min_v / step;
    Seq::new(linear_count(min_v, max_v) as nat, |i: int| ((a + i) * step) as i128)
}

/// A step that needs more than six gridlines is under a quarter of the range.
proof fn lemma_count_above_six(min_v: int, max_v: int, step: int)
    requires
        step >= 1,
        ladder_count(min_v, max_v, step) > 6,
    ensures
        max_v - min_v > 4 * step,
{
    let a = min_v / step;
    let b = (max_v + step - 1) / step;
    assert(a * step > min_v - step) by (nonlinear_arith) requires a == min_v / step, step >= 1;
    assert(b * step < max_v + step) by (nonlinear_arith) requires b == (max_v + step - 1) / step, step >= 1;
    assert(b - a >= 6);
    assert((b - a) * step >= 6 * step) by (nonlinear_arith) requires b - a >= 6, step >= 1;
    assert(b * step - a * step == (b - a) * step) by (nonlinear_arith);
    assert(max_v - min_v > 4 * step) by (nonlinear_arith)
        requires
            a * step > min_v - step,
            b * step < max_v + step,
            (b - a) * step >= 6 * step,
            b * step - a * step == (b - a) * step;
}

/// The step search ends on a step that needs at most six gridlines, no finer
/// than where it started and no coarser than ten times the range.
proof fn lemma_step_from(step: int, min_v: int, max_v: int)
    requires
        step >= 1,
        -CHART_LIMIT <= min_v <= CHART_LIMIT,
        -CHART_LIMIT <= max_v <= CHART_LIMIT,
    ensures
        step <= step_from(step, min_v, max_v),
        step_from(step, min_v, max_v) <= step || step_from(step, min_v, max_v) <= 10 * (max_v - min_v),
        ladder_count(min_v, max_v, step_from(step, min_v, max_v)) <= 6,
    decreases (if step < CHART_LIMIT { CHART_LIMIT - step } else { 0 }),
{
    if step >= CHART_LIMIT {
        let a = min_v / step;
        let b = (max_v + step - 1) / step;
        assert(a >= -1) by (nonlinear_arith) requires a == min_v / step, min_v >= -CHART_LIMIT, step >= CHART_LIMIT;
        assert(b <= 1) by (nonlinear_arith) requires b == (max_v + step - 1) / step, max_v <= CHART_LIMIT, step >= CHART_LIMIT;
    } else if ladder_count(min_v, max_v, step) <= 6 {
    } else if ladder_count(min_v, max_v, step * 2) <= 6 {
        lemma_count_above_six(min_v, max_v, step);
    } else if ladder_count(min_v, max_v, step * 5) <= 6 {
        lemma_count_above_six(min_v, max_v, step);
    } else {
        lemma_count_above_six(min_v, max_v, step * 5);
        lemma_step_from(step * 10, min_v, max_v);
    }
}

/// The multiple of `step` at or below `v`, counted in steps.
fn steps_below(v: i128, step: i128) -> (r: i128)
    requires
        step >= 1,
        -CHART_LIMIT <= v <= 30 * CHART_LIMIT,
    ensures
        r == v as int / step as int,
        -CHART_LIMIT - 1 <= r <= 30 * CHART_LIMIT,
{
    proof {
        assert(-CHART_LIMIT - 1 <= v as int / step as int <= 30 * CHART_LIMIT) by (nonlinear_arith)
            requires -CHART_LIMIT <= v <= 30 * CHART_LIMIT, step >= 1;
    }
    match v.checked_div_euclid(step) {
        Some(q) => q,
        None => 0,
    }
}

/// [`ladder_count`] for a chartable range.
fn count_for(min_v: i128, max_v: i128, step: i128) -> (r: i128)
    requires
        1 <= step <= 5 * CHART_LIMIT,
        -CHART_LIMIT <= min_v <= CHART_LIMIT,
        -CHART_LIMIT <= max_v <= CHART_LIMIT,
    ensures
        r == ladder_count(min_v as int, max_v as int, step as int),
{
    let b = steps_below(max_v + step - 1, step);
    let a = steps_below(min_v, step);
    b - a + 1
}

/// The round step for `[min_v, max_v]`, searched from `step` up.
fn search_step(step: i128, min_v: i128, max_v: i128) -> (r: i128)
    requires
        1 <= step <= 10 * CHART_LIMIT,
        -CHART_LIMIT <= min_v <= CHART_LIMIT,
        -CHART_LIMIT <= max_v <= CHART_LIMIT,
    ensures
        r == step_from(step as int, min_v as int, max_v as int),
    decreases (if step < CHART_LIMIT { CHART_LIMIT - step } else { 0 }),
{
    if step >= CHART_LIMIT {
        step
    } else if count_for(min_v, max_v, step) <= 6 {
        step
    } else if count_for(min_v, max_v, step * 2) <= 6 {
        step * 2
    } else if count_for(min_v, max_v, step * 5) <= 6 {
        step * 5
    } else {
        search_step(step * 10, min_v, max_v)
    }
}

/// Four to six round gridlines spanning a linear range: the finest step of
/// 1, 2 or 5 times a power of ten, from a cent up, that spans `[min_v, max_v]`
/// in six gridlines or fewer, its multiples from the one at or below the
/// data to the one at or above it, extended upwards to four when the range
/// needs fewer.
pub fn linear_ticks(min_v: i128, max_v: i128) -> (r: Vec<i128>)
    requires
        -CHART_LIMIT <= min_v <= CHART_LIMIT,
        -CHART_LIMIT <= max_v <= CHART_LIMIT,
    ensures
        r@ == linear_ladder(min_v as int, max_v as int),
        linear_step(min_v as int, max_v as int) >= 1,
        forall|i: int| 0 <= i < r@.len() - 1 ==> #[trigger] r@[i + 1] - r@[i] == linear_step(min_v as int, max_v as int),
        min_v <= max_v ==> {
            &&& 4 <= r@.len() <= 6
            &&& r@[0] <= min_v
            &&& r@.last() >= max_v
        },
{
    let step = search_step(SCALE / 100, min_v, max_v);
    proof {
        lemma_step_from(SCALE / 100, min_v as int, max_v as int);
        assert(1 <= step <= 20 * CHART_LIMIT + SCALE);
    }
    let a = steps_below(min_v, step);
    let b = steps_below(max_v + step - 1, step);
    proof {
        assert(a * step <= min_v && a * step > min_v - step) by (nonlinear_arith)
            requires a == min_v as int / step as int, step >= 1;
        assert(b * step >= max_v && b * step < max_v + step) by (nonlinear_arith)
            requires b == (max_v + step - 1) as int / step as int, step >= 1;
        assert(b - a + 1 <= 6);
    }
    let n = b - a + 1;
    let count: i128 = if n <= 0 { 0 } else if n < 4 { 4 } else { n };
    let ghost want = linear_ladder(min_v as int, max_v as int);
    let mut ticks: Vec<i128> = Vec::new();
    let mut i: i128 = 0;
    while i < count
        invariant
            0 <= i <= count <= 6,
            1 <= step <= 20 * CHART_LIMIT + SCALE,
            a * step <= min_v,
            -CHART_LIMIT - 1 <= a <= 30 * CHART_LIMIT,
            -CHART_LIMIT <= min_v <= CHART_LIMIT,
            a * step > min_v - step,
            ticks@.len() == i,
            forall|j: int| 0 <= j < ticks@.len() ==> #[trigger] ticks@[j] == (a + j) * step,
        decreases count - i,
    {
        proof {
            assert(a * step <= (a + i) * step <= a * step + 5 * step) by (nonlinear_arith)
                requires 0 <= i <= 5, step >= 1;
        }
        ticks.push((a + i) * step);
        i = i + 1;
    }
    proof {
        assert(ticks@ =~= want);
        assert forall|j: int| 0 <= j < ticks@.len() - 1 implies #[trigger] ticks@[j + 1] - ticks@[j] == step by {
            assert((a + j + 1) * step - (a + j) * step == step) by (nonlinear_arith);
        }
        if min_v <= max_v {
            assert(b >= a) by (nonlinear_arith)
                requires a * step <= min_v, b * step >= max_v, min_v <= max_v, step >= 1;
            assert((a + count - 1) * step >= b * step) by (nonlinear_arith)
                requires count >= b - a + 1, step >= 1;
        }
    }
    ticks
}

// ---------------------------------------------------------------------------
// sampling a range of the level
// ---------------------------------------------------------------------------

/// A calendar lies within [`DAY_BOUND`] days of 1970.
pub open spec fn chartable(level: Daily) -> bool {
    &&& -DAY_BOUND <= level.start
    &&& level.start + level.values@.len() <= DAY_BOUND
}

/// The first day a view shows: `days` back from the last day, or the whole
/// calendar, never before its start.
pub open spec fn view_start(level: Daily, days: Option<i64>) -> int {
    let end = level.start + level.values@.len() - 1;
    match days {
        Some(d) => if end - d + 1 > level.start { end - d + 1 } else { level.start as int },
        None => level.start as int,
    }
}

/// How many days apart the samples of a view spanning `span` days fall.
pub open spec fn view_stride(span: int) -> int {
    if 0 <= span <= 45 {
        1
    } else if 46 <= span <= 200 {
        2
    } else if 201 <= span <= 800 {
        4
    } else {
        7
    }
}

/// The samples of a view: every `stride`-th day from its first day to the
/// last day of the calendar with its fix, and the last day itself when the
/// stride steps past it.
pub open spec fn sampled(level: Daily, days: Option<i64>) -> Seq<(i64, i128)> {
    let end = level.start + level.values@.len() - 1;
    let start = view_start(level, days);
    let stride = view_stride(end - start + 1);
    let n: int = if start <= end { (end - start) / stride + 1 } else { 0 };
    let body = Seq::new(
        n as nat,
        |i: int| ((start + i * stride) as i64, level.values@[start + i * stride - level.start]),
    );
    if level.values@.len() > 0 && (n == 0 || start + (n - 1) * stride != end) {
        body.push((end as i64, level.values@.last()))
    } else {
        body
    }
}

/// Every view ends on the latest fix: the last point a view of a non-empty
/// calendar plots is the calendar's last day with its last value, however
/// the view is thinned.
pub proof fn lemma_views_end_on_latest(level: Daily, days: Option<i64>)
    requires
        chartable(level),
        level.values@.len() > 0,
    ensures
        sampled(level, days).len() > 0,
        sampled(level, days).last() == (
            (level.start + level.values@.len() - 1) as i64,
            level.values@[level.values@.len() - 1],
        ),
{
    let end = level.start + level.values@.len() - 1;
    let start = view_start(level, days);
    let stride = view_stride(end - start + 1);
    let n: int = if start <= end { (end - start) / stride + 1 } else { 0 };
    if n > 0 && start + (n - 1) * stride == end {
        assert(sampled(level, days).len() == n);
        assert(sampled(level, days)[n - 1] == ((start + (n - 1) * stride) as i64, level.values@[start + (n - 1) * stride - level.start]));
    }
}

/// The points a view plots: the range of the last `days` days (the whole
/// calendar for `None`), thinned to every second, fourth or seventh day as
/// the range grows so a view stays small to embed, always ending on the
/// last day.
pub fn sample(level: &Daily, days: Option<i64>) -> (r: Vec<(i64, i128)>)
    requires
        chartable(*level),
        days matches Some(d) ==> -DAY_BOUND <= d <= DAY_BOUND,
    ensures
        r@ == sampled(*level, days),
{
    proof {
        assert(daily_fits(level.start, level.values@.len()));
    }
    let end = level.end();
    let start = match days {
        Some(d) => {
            let s = end - d + 1;
            if s > level.start {
                s
            } else {
                level.start
            }
        },
        None => level.start,
    };
    assert(start == view_start(*level, days));
    let span = end - start + 1;
    let stride: i64 = if 0 <= span && span <= 45 {
        1
    } else if 46 <= span && span <= 200 {
        2
    } else if 201 <= span && span <= 800 {
        4
    } else {
        7
    };
    let ghost n: int = if start <= end { (end - start) / (stride as int) + 1 } else { 0 };
    let ghost want = Seq::new(
        n as nat,
        |i: int| ((start + i * stride) as i64, level.values@[start + i * stride - level.start]),
    );
    let mut out: Vec<(i64, i128)> = Vec::new();
    let mut day = start;
    let ghost mut k: int = 0;
    while day <= end
        invariant
            chartable(*level),
            end == level.start + level.values@.len() - 1,
            level.start <= start,
            1 <= stride <= 7,
            start <= day <= end + stride || (start > end && day == start),
            day == start + k * stride,
            out@.len() == k,
            forall|i: int| 0 <= i < k ==> #[trigger] out@[i] == ((start + i * stride) as i64, level.values@[start + i
                * stride - level.start]),
        decreases end + stride - day,
    {
        if let Some(v) = level.value_on(day) {
            out.push((day, v));
        }
        proof {
            assert(day + stride == start + (k + 1) * stride) by (nonlinear_arith)
                requires day == start + k * stride;
        }
        day = day + stride;
        proof {
            k = k + 1;
        }
    }
    proof {
        if start <= end {
            assert((k - 1) * stride <= end - start < (k - 1) * stride + stride) by (nonlinear_arith)
                requires day == start + k * stride, day > end, day - stride <= end, start <= end, stride >= 1;
            lemma_div_is(end - start, stride as int, k - 1);
        }
        assert(out@ =~= want);
    }
    if let Some(v) = level.value_on(end) {
        if out.len() == 0 || out[out.len() - 1].0 != end {
            out.push((end, v));
        }
    }
    proof {
        if n > 0 {
            assert(want.last().0 == start + (n - 1) * stride) by {
                assert(start + (n - 1) * stride <= end) by (nonlinear_arith)
                    requires n == (end - start) / (stride as int) + 1, start <= end, stride >= 1;
            }
        }
        assert(out@ =~= sampled(*level, days));
    }
    out
}

// ---------------------------------------------------------------------------
// labelling the x axis
// ---------------------------------------------------------------------------

/// `MM-DD` of a day.
pub open spec fn month_day_text(z: int) -> Seq<char> {
    padded(civil_of(z).1, 2) + seq!['-'] + padded(civil_of(z).2, 2)
}

/// `YYYY-MM` of a day, the year written as Rust writes an integer.
pub open spec fn year_month_text(z: int) -> Seq<char> {
    padded(civil_of(z).0, 0) + seq!['-'] + padded(civil_of(z).1, 2)
}

/// The year of a day, as Rust writes an integer.
pub open spec fn year_text(z: int) -> Seq<char> {
    padded(civil_of(z).0, 0)
}

/// Labels for short ranges: every `step`-th of the first `n` points, by date.
pub open spec fn day_labels(pts: Seq<(i64, i128)>, step: int, n: int) -> Seq<(usize, Seq<char>)>
    decreases n,
{
    if n <= 0 {
        Seq::empty()
    } else if (n - 1) % step == 0 {
        day_labels(pts, step, n - 1).push(((n - 1) as usize, month_day_text(pts[n - 1].0 as int)))
    } else {
        day_labels(pts, step, n - 1)
    }
}

/// Labels for a year: the first of the first `n` points in each odd-numbered
/// month, by month; with the month last labelled (`i64::MIN` before any).
pub open spec fn month_labels(pts: Seq<(i64, i128)>, n: int) -> (Seq<(usize, Seq<char>)>, int)
    decreases n,
{
    if n <= 0 {
        (Seq::empty(), i64::MIN as int)
    } else {
        let (ls, last) = month_labels(pts, n - 1);
        let t = civil_of(pts[n - 1].0 as int);
        let key = t.0 * 12 + t.1;
        if key != last && t.1 % 2 == 1 {
            (ls.push(((n - 1) as usize, year_month_text(pts[n - 1].0 as int))), key)
        } else {
            (ls, last)
        }
    }
}

/// Labels for the whole series: the first of the first `n` points of each
/// year that falls in January or February, by year; with the year last
/// labelled (`i64::MIN` before any).
pub open spec fn year_labels(pts: Seq<(i64, i128)>, n: int) -> (Seq<(usize, Seq<char>)>, int)
    decreases n,
{
    if n <= 0 {
        (Seq::empty(), i64::MIN as int)
    } else {
        let (ls, last) = year_labels(pts, n - 1);
        let t = civil_of(pts[n - 1].0 as int);
        if t.0 != last && t.1 <= 2 {
            (ls.push(((n - 1) as usize, year_text(pts[n - 1].0 as int))), t.0)
        } else {
            (ls, last)
        }
    }
}

/// The x-axis labels a view of `days` days carries.
pub open spec fn axis_labels(pts: Seq<(i64, i128)>, days: Option<i64>) -> Seq<(usize, Seq<char>)> {
    match days {
        Some(d) => if d <= 30 {
            day_labels(pts, if pts.len() / 4 > 1 { (pts.len() / 4) as int } else { 1 }, pts.len() as int)
        } else {
            month_labels(pts, pts.len() as int).0
        },
        None => year_labels(pts, pts.len() as int).0,
    }
}

/// The labels `r` carry these positions and texts.
pub open spec fn labels_are(r: Seq<(usize, String)>, want: Seq<(usize, Seq<char>)>) -> bool {
    &&& r.len() == want.len()
    &&& forall|i: int| 0 <= i < r.len() ==> (#[trigger] r[i]).0 == want[i].0 && r[i].1@ == want[i].1
}

/// Every point lies within [`DAY_BOUND`] days of 1970.
pub open spec fn points_chartable(pts: Seq<(i64, i128)>) -> bool {
    forall|i: int| 0 <= i < pts.len() ==> -DAY_BOUND <= #[trigger] pts[i].0 <= DAY_BOUND
}

/// The date of a chartable day, with its year bounded.
pub fn civil_of_point(z: i64) -> (r: (i64, i64, i64))
    requires
        -DAY_BOUND <= z <= DAY_BOUND,
    ensures
        (r.0 as int, r.1 as int, r.2 as int) == civil_of(z as int),
        valid_date(r.0 as int, r.1 as int, r.2 as int),
        epoch_day(r.0 as int, r.1 as int, r.2 as int) == z,
        1 <= r.1 <= 12,
        1 <= r.2 <= 31,
        -1_000_000_000_000 <= r.0 <= 1_000_000_000_000,
{
    let r = civil_from_days(z);
    proof {
        lemma_year_of_day(r.0 as int, r.1 as int, r.2 as int, DAY_BOUND as int);
    }
    r
}

/// X-axis labels for the points of a view: `MM-DD` dates at four or so even
/// intervals for a week or a month, `YYYY-MM` at the first point of every
/// other month for a longer range, and the year at the first January or
/// February point of each year for the whole series.
pub fn x_labels(pts: &Vec<(i64, i128)>, days: Option<i64>) -> (r: Vec<(usize, String)>)
    requires
        points_chartable(pts@),
    ensures
        labels_are(r@, axis_labels(pts@, days)),
{
    let mut out: Vec<(usize, String)> = Vec::new();
    let short = match days {
        Some(d) => d <= 30,
        None => false,
    };
    if short {
        let step = if pts.len() / 4 > 1 { pts.len() / 4 } else { 1 };
        let mut i: usize = 0;
        while i < pts.len()
            invariant
                points_chartable(pts@),
                step >= 1,
                step == (if pts@.len() / 4 > 1 { (pts@.len() / 4) as int } else { 1 }),
                0 <= i <= pts@.len(),
                labels_are(out@, day_labels(pts@, step as int, i as int)),
            decreases pts@.len() - i,
        {
            if i % step == 0 {
                let (_, m, d) = civil_of_point(pts[i].0);
                let mut text = String::new();
                push_padded(&mut text, m, 2);
                push_char(&mut text, '-');
                push_padded(&mut text, d, 2);
                let ghost prev = out@;
                assert(text@ =~= month_day_text(pts@[i as int].0 as int));
                out.push((i, text));
                proof {
                    let want = day_labels(pts@, step as int, i + 1);
                    assert(want == day_labels(pts@, step as int, i as int).push(
                        (i, month_day_text(pts@[i as int].0 as int)),
                    ));
                    assert forall|j: int| 0 <= j < out@.len() implies (#[trigger] out@[j]).0 == want[j].0
                        && out@[j].1@ == want[j].1 by {
                        if j < prev.len() {
                            assert(out@[j] == prev[j]);
                        }
                    }
                }
            }
            i = i + 1;
        }
        proof {
            assert(axis_labels(pts@, days) == day_labels(pts@, step as int, pts@.len() as int));
        }
    } else if days.is_some() {
        let mut last: i64 = i64::MIN;
        let mut i: usize = 0;
        while i < pts.len()
            invariant
                points_chartable(pts@),
                0 <= i <= pts@.len(),
                labels_are(out@, month_labels(pts@, i as int).0),
                last == month_labels(pts@, i as int).1,
            decreases pts@.len() - i,
        {
            let (y, m, _) = civil_of_point(pts[i].0);
            let key = y * 12 + m;
            if key != last && m % 2 == 1 {
                last = key;
                let mut text = String::new();
                push_padded(&mut text, y, 0);
                push_char(&mut text, '-');
                push_padded(&mut text, m, 2);
                let ghost prev = out@;
                assert(text@ =~= year_month_text(pts@[i as int].0 as int));
                out.push((i, text));
                proof {
                    let want = month_labels(pts@, i + 1).0;
                    assert(want == month_labels(pts@, i as int).0.push(
                        (i, year_month_text(pts@[i as int].0 as int)),
                    ));
                    assert forall|j: int| 0 <= j < out@.len() implies (#[trigger] out@[j]).0 == want[j].0
                        && out@[j].1@ == want[j].1 by {
                        if j < prev.len() {
                            assert(out@[j] == prev[j]);
                        }
                    }
                }
            }
            i = i + 1;
        }
    } else {
        let mut last: i64 = i64::MIN;
        let mut i: usize = 0;
        while i < pts.len()
            invariant
                points_chartable(pts@),
                0 <= i <= pts@.len(),
                labels_are(out@, year_labels(pts@, i as int).0),
                last == year_labels(pts@, i as int).1,
            decreases pts@.len() - i,
        {
            let (y, m, _) = civil_of_point(pts[i].0);
            if y != last && m <= 2 {
                last = y;
                let mut text = String::new();
                push_padded(&mut text, y, 0);
                out.push((i, text));
            }
            i = i + 1;
        }
    }
    out
}


// ---------------------------------------------------------------------------
// one view: its scale, then its picture
// ---------------------------------------------------------------------------

/// The plot area's width in viewBox units; the SVG scales from there.
pub const VIEW_W: i64 = 1000;

/// The plot area's height in viewBox units.
pub const VIEW_H: i64 = 320;

/// Room left of the plot.
pub const PAD_L: i64 = 8;

/// Room right of the plot, for the tick labels.
pub const PAD_R: i64 = 72;

/// Room above the plot.
pub const PAD_T: i64 = 16;

/// Room below the plot, for the date labels.
pub const PAD_B: i64 = 30;

/// Above this ratio of highest to lowest, a linear axis buries the early
/// years and the axis goes logarithmic.
pub const LOG_ABOVE: i128 = 4;

/// The ranges the chart offers, in tab order: key, label and days (`None`
/// for the whole series).
pub open spec fn spec_ranges() -> Seq<(&'static str, &'static str, Option<i64>)> {
    seq![("7d", "7D", Some(7i64)), ("1m", "1M", Some(30i64)), ("1y", "1Y", Some(365i64)), ("all", "ALL", None)]
}

/// The ranges the chart offers, in tab order.
pub fn ranges() -> (r: Vec<(&'static str, &'static str, Option<i64>)>)
    ensures
        r@ == spec_ranges(),
{
    let r = vec![("7d", "7D", Some(7i64)), ("1m", "1M", Some(30i64)), ("1y", "1Y", Some(365i64)), ("all", "ALL", None)];
    assert(r@ =~= spec_ranges());
    r
}

/// The scale of one view: the points it plots, whether its axis is
/// logarithmic, the gridlines, the value range the axis spans, and the
/// decimals its tick labels carry.
pub struct ViewScale {
    pub points: Vec<(i64, i128)>,
    pub logarithmic: bool,
    pub ticks: Vec<i128>,
    pub y_lo: i128,
    pub y_hi: i128,
    pub places: u32,
}

/// The highest of the first `n` point values (`SCALE` when there are none).
pub open spec fn points_max(pts: Seq<(i64, i128)>, n: int) -> int
    decreases n,
{
    if n <= 0 {
        SCALE as int
    } else if n == 1 {
        pts[0].1 as int
    } else if pts[n - 1].1 > points_max(pts, n - 1) {
        pts[n - 1].1 as int
    } else {
        points_max(pts, n - 1)
    }
}

/// The lowest of the first `n` point values (`SCALE` when there are none).
pub open spec fn points_min(pts: Seq<(i64, i128)>, n: int) -> int
    decreases n,
{
    if n <= 0 {
        SCALE as int
    } else if n == 1 {
        pts[0].1 as int
    } else if pts[n - 1].1 < points_min(pts, n - 1) {
        pts[n - 1].1 as int
    } else {
        points_min(pts, n - 1)
    }
}

/// The smallest gap between neighbouring gridlines among the first `n`
/// (`SCALE` when there are fewer than two).
pub open spec fn min_gap(t: Seq<i128>, n: int) -> int
    decreases n,
{
    if n <= 1 {
        SCALE as int
    } else if n == 2 {
        t[1] - t[0]
    } else if t[n - 1] - t[n - 2] < min_gap(t, n - 1) {
        t[n - 1] - t[n - 2]
    } else {
        min_gap(t, n - 1)
    }
}

/// The lowest value the axis shows: the lower of the lowest gridline and
/// the lowest point.
pub open spec fn axis_low(ticks: Seq<i128>, lo: int) -> int {
    if ticks.len() == 0 {
        lo
    } else {
        let t = ticks_min(ticks, ticks.len() as int);
        if t < lo { t } else { lo }
    }
}

/// The highest value the axis shows.
pub open spec fn axis_high(ticks: Seq<i128>, hi: int) -> int {
    if ticks.len() == 0 {
        hi
    } else {
        let t = ticks_max(ticks, ticks.len() as int);
        if t > hi { t } else { hi }
    }
}

/// The lowest of the first `n` gridlines.
pub open spec fn ticks_min(t: Seq<i128>, n: int) -> int
    decreases n,
{
    if n <= 1 {
        t[0] as int
    } else if t[n - 1] < ticks_min(t, n - 1) {
        t[n - 1] as int
    } else {
        ticks_min(t, n - 1)
    }
}

/// The highest of the first `n` gridlines.
pub open spec fn ticks_max(t: Seq<i128>, n: int) -> int
    decreases n,
{
    if n <= 1 {
        t[0] as int
    } else if t[n - 1] > ticks_max(t, n - 1) {
        t[n - 1] as int
    } else {
        ticks_max(t, n - 1)
    }
}

/// The decimals of a linear axis's tick labels: none for a step of a dollar
/// or more, one down to ten cents, two below.
pub open spec fn tick_places(gap: int) -> u32 {
    if gap >= SCALE { 0 } else if gap >= SCALE / 10 { 1 } else { 2 }
}

/// What a view of the last `days` days shows: the sampled points, an axis
/// that goes logarithmic once the highest point is four times the lowest
/// (each taken at least one unit), its 1-2-5 or round linear gridlines, the
/// range they and the points span, and the decimals of the tick labels.
pub open spec fn scale_of(level: Daily, days: Option<i64>, s: ViewScale) -> bool {
    let pts = sampled(level, days);
    let lo0 = points_min(pts, pts.len() as int);
    let lo = if lo0 > 1 { lo0 } else { 1 };
    let hi0 = points_max(pts, pts.len() as int);
    let hi = if hi0 > lo { hi0 } else { lo };
    let log = hi / lo >= LOG_ABOVE;
    let ticks = if log { log_ladder(first_decade(1, lo), lo, hi) } else { linear_ladder(lo, hi) };
    &&& s.points@ == pts
    &&& s.logarithmic == log
    &&& s.ticks@ == ticks
    &&& s.y_lo == axis_low(ticks, lo)
    &&& s.y_hi == axis_high(ticks, hi)
    &&& s.places == (if log { 0 } else { tick_places(min_gap(ticks, ticks.len() as int)) })
}

/// A scale whose points and gridlines can all be drawn and labelled.
pub open spec fn scale_drawable(s: ViewScale) -> bool {
    &&& points_chartable(s.points@)
    &&& s.points@.len() <= 1_000_000_000_000_000
    &&& forall|i: int| 0 <= i < s.points@.len() ==> -PRICE_LIMIT <= #[trigger] s.points@[i].1 <= PRICE_LIMIT
    &&& forall|i: int| 0 <= i < s.ticks@.len() ==> -CHART_LIMIT <= #[trigger] s.ticks@[i] <= CHART_LIMIT
}

/// Each sampled point is a day of the calendar with that day's fix.
proof fn lemma_sampled_in_level(level: Daily, days: Option<i64>, i: int)
    requires
        chartable(level),
        days matches Some(d) ==> -DAY_BOUND <= d <= DAY_BOUND,
        0 <= i < sampled(level, days).len(),
    ensures
        level.start <= sampled(level, days)[i].0 < level.start + level.values@.len(),
        sampled(level, days)[i].1 == level.values@[sampled(level, days)[i].0 - level.start],
{
    let end = level.start + level.values@.len() - 1;
    let start = view_start(level, days);
    let stride = view_stride(end - start + 1);
    let n: int = if start <= end { (end - start) / stride + 1 } else { 0 };
    if i < n {
        assert(0 <= i * stride <= end - start) by (nonlinear_arith)
            requires 0 <= i < n, n == (end - start) / stride + 1, start <= end, stride >= 1;
    }
}

/// The scale of the view of the last `days` days (the whole series for `None`).
pub fn view_scale(level: &Daily, days: Option<i64>) -> (r: ViewScale)
    requires
        chartable(*level),
        prices_bounded(level.values@),
        days matches Some(d) ==> -DAY_BOUND <= d <= DAY_BOUND,
    ensures
        scale_of(*level, days, r),
        scale_drawable(r),
{
    let pts = sample(level, days);
    proof {
        assert forall|i: int| 0 <= i < pts@.len() implies -DAY_BOUND <= #[trigger] pts@[i].0 <= DAY_BOUND && -PRICE_LIMIT
            <= pts@[i].1 <= PRICE_LIMIT by {
            lemma_sampled_in_level(*level, days, i);
        }
        assert(pts@.len() <= 1_000_000_000_000_000) by {
            if pts@.len() > 0 {
                lemma_sampled_in_level(*level, days, 0);
            }
            assert(pts@.len() <= level.values@.len() + 1) by {
                let end = level.start + level.values@.len() - 1;
                let start = view_start(*level, days);
                let stride = view_stride(end - start + 1);
                if start <= end {
                    assert((end - start) / stride + 1 <= level.values@.len()) by (nonlinear_arith)
                        requires start >= level.start, end == level.start + level.values@.len() - 1, stride >= 1,
                            start <= end;
                }
            }
        }
    }
    let mut lo0: i128 = SCALE;
    let mut hi0: i128 = SCALE;
    if pts.len() > 0 {
        lo0 = pts[0].1;
        hi0 = pts[0].1;
        let mut i: usize = 1;
        while i < pts.len()
            invariant
                1 <= i <= pts@.len(),
                lo0 == points_min(pts@, i as int),
                hi0 == points_max(pts@, i as int),
                forall|j: int| 0 <= j < pts@.len() ==> -PRICE_LIMIT <= #[trigger] pts@[j].1 <= PRICE_LIMIT,
                -PRICE_LIMIT <= lo0 <= PRICE_LIMIT,
                -PRICE_LIMIT <= hi0 <= PRICE_LIMIT,
            decreases pts@.len() - i,
        {
            if pts[i].1 < lo0 {
                lo0 = pts[i].1;
            }
            if pts[i].1 > hi0 {
                hi0 = pts[i].1;
            }
            i = i + 1;
        }
    }
    let lo = if lo0 > 1 { lo0 } else { 1 };
    let hi = if hi0 > lo { hi0 } else { lo };
    let logarithmic = hi / lo >= LOG_ABOVE;
    let ticks = if logarithmic { log_ticks(lo, hi) } else { linear_ticks(lo, hi) };
    proof {
        assert forall|i: int| 0 <= i < ticks@.len() implies -CHART_LIMIT <= #[trigger] ticks@[i] <= CHART_LIMIT by {
            if logarithmic {
                assert(ticks@[i] >= SCALE && ticks@[i] <= hi * 2);
            } else {
                lemma_linear_ladder_bounded(lo as int, hi as int, i);
            }
        }
    }
    let mut y_lo = lo;
    let mut y_hi = hi;
    if ticks.len() > 0 {
        let mut tmin = ticks[0];
        let mut tmax = ticks[0];
        let mut i: usize = 1;
        while i < ticks.len()
            invariant
                1 <= i <= ticks@.len(),
                tmin == ticks_min(ticks@, i as int),
                tmax == ticks_max(ticks@, i as int),
            decreases ticks@.len() - i,
        {
            if ticks[i] < tmin {
                tmin = ticks[i];
            }
            if ticks[i] > tmax {
                tmax = ticks[i];
            }
            i = i + 1;
        }
        if tmin < lo {
            y_lo = tmin;
        }
        if tmax > hi {
            y_hi = tmax;
        }
    }
    let places: u32 = if logarithmic {
        0
    } else {
        let mut gap: i128 = SCALE;
        if ticks.len() >= 2 {
            gap = ticks[1] - ticks[0];
            let mut i: usize = 2;
            while i < ticks.len()
                invariant
                    2 <= i <= ticks@.len(),
                    gap == min_gap(ticks@, i as int),
                    forall|j: int| 0 <= j < ticks@.len() ==> -CHART_LIMIT <= #[trigger] ticks@[j] <= CHART_LIMIT,
                    -2 * CHART_LIMIT <= gap <= 2 * CHART_LIMIT,
                decreases ticks@.len() - i,
            {
                let d = ticks[i] - ticks[i - 1];
                if d < gap {
                    gap = d;
                }
                i = i + 1;
            }
        }
        if gap >= SCALE {
            0
        } else if gap >= SCALE / 10 {
            1
        } else {
            2
        }
    };
    ViewScale { points: pts, logarithmic, ticks, y_lo, y_hi, places }
}

/// Every gridline of a linear axis over a range within [`PRICE_LIMIT`] lies
/// within [`CHART_LIMIT`].
proof fn lemma_linear_ladder_bounded(lo: int, hi: int, i: int)
    requires
        1 <= lo <= hi <= PRICE_LIMIT,
        0 <= i < linear_ladder(lo, hi).len(),
    ensures
        -CHART_LIMIT <= linear_ladder(lo, hi)[i] <= CHART_LIMIT,
{
    let step = linear_step(lo, hi);
    lemma_step_from(SCALE / 100, lo, hi);
    assert(1 <= step <= 10 * PRICE_LIMIT + SCALE);
    let a = lo / step;
    assert(linear_count(lo, hi) <= 6);
    assert(a * step <= (a + i) * step <= a * step + 5 * step) by (nonlinear_arith)
        requires 0 <= i <= 5, step >= 1;
    assert(a * step > lo - step && a * step <= lo) by (nonlinear_arith)
        requires a == lo / step, step >= 1;
}

/// The x position of point `i` of `len`: spread evenly over the plot width.
pub open spec fn x_at(len: int, i: int) -> int {
    let n = if len > 2 { len } else { 2 };
    PAD_L + (i * (VIEW_W - PAD_L - PAD_R)) / (n - 1)
}

/// The x position of point `i` of `len`.
fn x_of(len: usize, i: usize) -> (r: i64)
    requires
        i <= len <= 1_000_000_000_000_000,
    ensures
        r == x_at(len as int, i as int),
{
    let n: i64 = if len > 2 { len as i64 } else { 2 };
    proof {
        assert(0 <= i * 920 <= 920_000_000_000_000_000) by (nonlinear_arith)
            requires 0 <= i <= 1_000_000_000_000_000;
    }
    PAD_L + (i as i64 * (VIEW_W - PAD_L - PAD_R)) / (n - 1)
}

/// The gridline and label of tick `t` at height `y`, when `y` lies on the plot.
pub open spec fn tick_mark(t: i128, y: i64, places: u32) -> Seq<char> {
    if y < PAD_T - 2 || y > PAD_T + (VIEW_H - PAD_T - PAD_B) + 2 {
        Seq::empty()
    } else {
        "<line class=\"grid\" x1=\"8\" y1=\""@ + int_text(y as int) + "\" x2=\"928\" y2=\""@ + int_text(y as int)
            + "\"/>"@ + "<text class=\"tick\" x=\"936\" y=\""@ + int_text(y + 4) + "\">"@ + spec_format_thousands(
            t as int,
            places as int,
        ) + "</text>"@
    }
}

/// The marks of the first `k` ticks.
pub open spec fn tick_marks(ticks: Seq<i128>, ys: Seq<i64>, places: u32, k: int) -> Seq<char>
    decreases k,
{
    if k <= 0 {
        Seq::empty()
    } else {
        tick_marks(ticks, ys, places, k - 1) + tick_mark(ticks[k - 1], ys[k - 1], places)
    }
}

/// The first `k` x-axis labels of `labels`, placed under their points.
pub open spec fn label_marks(labels: Seq<(usize, Seq<char>)>, len: int, k: int) -> Seq<char>
    decreases k,
{
    if k <= 0 {
        Seq::empty()
    } else {
        label_marks(labels, len, k - 1) + "<text class=\"tick\" x=\""@ + int_text(x_at(len, labels[k - 1].0 as int))
            + "\" y=\"312\" text-anchor=\"middle\">"@ + labels[k - 1].1 + "</text>"@
    }
}

/// The first `k` steps of the line's path.
pub open spec fn path_steps(ys: Seq<i64>, len: int, k: int) -> Seq<char>
    decreases k,
{
    if k <= 0 {
        Seq::empty()
    } else {
        let j = k - 1;
        path_steps(ys, len, j) + (if j == 0 { "M"@ } else { "L"@ }) + int_text(x_at(len, j)) + " "@ + int_text(
            ys[j] as int,
        ) + (if j + 1 < len { " "@ } else { Seq::empty() })
    }
}

/// The hover layer the page moves over the line.
pub open spec fn hover_mark() -> Seq<char> {
    "<g class=\"hover\" style=\"display:none\"><line class=\"cross\" y1=\"16\" y2=\"290\"/><circle class=\"dot\" r=\"5\"/></g>"@
}

/// The picture of a view: gridlines, date labels, the line, its end marker
/// and the hover layer; `tick_ys` and `point_ys` are the heights of the
/// ticks and the points.
pub open spec fn view_picture(s: ViewScale, days: Option<i64>, tick_ys: Seq<i64>, point_ys: Seq<i64>) -> Seq<char> {
    let pts = s.points@;
    let len = pts.len() as int;
    let labels = axis_labels(pts, days);
    tick_marks(s.ticks@, tick_ys, s.places, s.ticks@.len() as int) + label_marks(labels, len, labels.len() as int)
        + "<path class=\"line\" d=\""@ + path_steps(point_ys, len, len) + "\"/>"@ + (if len > 0 {
        "<circle class=\"end\" cx=\""@ + int_text(x_at(len, (if len > 2 { len } else { 2 }) - 1)) + "\" cy=\""@
            + int_text(point_ys[len - 1] as int) + "\" r=\"5\"/>"@
    } else {
        Seq::empty()
    }) + hover_mark()
}

/// The hover data of point `j`: position, level and date, after a comma
/// unless it is the first.
pub open spec fn point_entry(pts: Seq<(i64, i128)>, ys: Seq<i64>, j: int) -> Seq<char> {
    (if j > 0 { ","@ } else { Seq::empty() }) + "["@ + int_text(x_at(pts.len() as int, j)) + ","@ + int_text(
        ys[j] as int,
    ) + ",\""@ + spec_format_fixed(pts[j].1 as int, 2) + "\",\""@ + date_text(pts[j].0 as int) + "\"]"@
}

/// The hover data of the first `k` points.
pub open spec fn point_entries(pts: Seq<(i64, i128)>, ys: Seq<i64>, k: int) -> Seq<char>
    decreases k,
{
    if k <= 0 {
        Seq::empty()
    } else {
        point_entries(pts, ys, k - 1) + point_entry(pts, ys, k - 1)
    }
}

/// The hover data of a view, as a JSON array.
pub open spec fn view_points_json(s: ViewScale, point_ys: Seq<i64>) -> Seq<char> {
    "["@ + point_entries(s.points@, point_ys, s.points@.len() as int) + "]"@
}

/// Appends the marks of every tick.
fn push_tick_marks(out: &mut String, ticks: &Vec<i128>, ys: &Vec<i64>, places: u32)
    requires
        ys@.len() == ticks@.len(),
        forall|i: int| 0 <= i < ticks@.len() ==> -CHART_LIMIT <= #[trigger] ticks@[i] <= CHART_LIMIT,
    ensures
        final(out)@ == old(out)@ + tick_marks(ticks@, ys@, places, ticks@.len() as int),
{
    let ghost start = out@;
    let mut i: usize = 0;
    while i < ticks.len()
        invariant
            0 <= i <= ticks@.len(),
            ys@.len() == ticks@.len(),
            forall|i: int| 0 <= i < ticks@.len() ==> -CHART_LIMIT <= #[trigger] ticks@[i] <= CHART_LIMIT,
            out@ == start + tick_marks(ticks@, ys@, places, i as int),
        decreases ticks@.len() - i,
    {
        let y = ys[i];
        let ghost before = out@;
        if !(y < PAD_T - 2 || y > PAD_T + (VIEW_H - PAD_T - PAD_B) + 2) {
            out.append("<line class=\"grid\" x1=\"8\" y1=\"");
            push_int(out, y as i128);
            out.append("\" x2=\"928\" y2=\"");
            push_int(out, y as i128);
            out.append("\"/>");
            out.append("<text class=\"tick\" x=\"936\" y=\"");
            push_int(out, y as i128 + 4);
            out.append("\">");
            out.append(format_thousands(ticks[i], places).as_str());
            out.append("</text>");
        }
        assert(out@ =~= before + tick_mark(ticks@[i as int], ys@[i as int], places));
        i = i + 1;
    }
}

/// Appends every x-axis label under its point.
fn push_label_marks(out: &mut String, labels: &Vec<(usize, String)>, want: Ghost<Seq<(usize, Seq<char>)>>, len: usize)
    requires
        labels_are(labels@, want@),
        len <= 1_000_000_000_000_000,
        forall|i: int| 0 <= i < want@.len() ==> (#[trigger] want@[i]).0 < len,
    ensures
        final(out)@ == old(out)@ + label_marks(want@, len as int, want@.len() as int),
{
    let ghost start = out@;
    let mut i: usize = 0;
    while i < labels.len()
        invariant
            0 <= i <= labels@.len(),
            labels_are(labels@, want@),
            len <= 1_000_000_000_000_000,
            forall|i: int| 0 <= i < want@.len() ==> (#[trigger] want@[i]).0 < len,
            out@ == start + label_marks(want@, len as int, i as int),
        decreases labels@.len() - i,
    {
        let ghost before = out@;
        assert(labels@[i as int].0 == want@[i as int].0 && labels@[i as int].1@ == want@[i as int].1);
        out.append("<text class=\"tick\" x=\"");
        push_int(out, x_of(len, labels[i].0) as i128);
        out.append("\" y=\"312\" text-anchor=\"middle\">");
        out.append(labels[i].1.as_str());
        out.append("</text>");
        assert(out@ =~= start + label_marks(want@, len as int, i + 1));
        i = i + 1;
    }
}

/// Appends the steps of the line's path.
fn push_path(out: &mut String, ys: &Vec<i64>)
    requires
        ys@.len() <= 1_000_000_000_000_000,
    ensures
        final(out)@ == old(out)@ + path_steps(ys@, ys@.len() as int, ys@.len() as int),
{
    let ghost start = out@;
    let len = ys.len();
    let mut i: usize = 0;
    while i < len
        invariant
            0 <= i <= len,
            len == ys@.len(),
            len <= 1_000_000_000_000_000,
            out@ == start + path_steps(ys@, len as int, i as int),
        decreases len - i,
    {
        let ghost before = out@;
        if i == 0 {
            out.append("M");
        } else {
            out.append("L");
        }
        push_int(out, x_of(len, i) as i128);
        out.append(" ");
        push_int(out, ys[i] as i128);
        if i + 1 < len {
            out.append(" ");
        }
        assert(out@ =~= start + path_steps(ys@, len as int, i + 1));
        i = i + 1;
    }
}

/// Appends the hover data of point `i`.
#[verifier::rlimit(40)]
fn push_point_entry(out: &mut String, pts: &Vec<(i64, i128)>, ys: &Vec<i64>, i: usize)
    requires
        ys@.len() == pts@.len(),
        i < pts@.len() <= 1_000_000_000_000_000,
        -DAY_BOUND <= pts@[i as int].0 <= DAY_BOUND,
        -PRICE_LIMIT <= pts@[i as int].1 <= PRICE_LIMIT,
    ensures
        final(out)@ == old(out)@ + point_entry(pts@, ys@, i as int),
{
    let ghost start = out@;
    let (day, v) = pts[i];
    if i > 0 {
        out.append(",");
    }
    out.append("[");
    push_int(out, x_of(pts.len(), i) as i128);
    out.append(",");
    push_int(out, ys[i] as i128);
    out.append(",\"");
    out.append(format_fixed(v, 2).as_str());
    out.append("\",\"");
    out.append(format_date(day).as_str());
    out.append("\"]");
    assert(out@ =~= start + point_entry(pts@, ys@, i as int));
}

/// Appends the hover data of every point.
fn push_point_entries(out: &mut String, pts: &Vec<(i64, i128)>, ys: &Vec<i64>)
    requires
        ys@.len() == pts@.len(),
        pts@.len() <= 1_000_000_000_000_000,
        points_chartable(pts@),
        forall|i: int| 0 <= i < pts@.len() ==> -PRICE_LIMIT <= #[trigger] pts@[i].1 <= PRICE_LIMIT,
    ensures
        final(out)@ == old(out)@ + point_entries(pts@, ys@, pts@.len() as int),
{
    let ghost start = out@;
    let mut i: usize = 0;
    while i < pts.len()
        invariant
            0 <= i <= pts@.len(),
            ys@.len() == pts@.len(),
            pts@.len() <= 1_000_000_000_000_000,
            points_chartable(pts@),
            forall|i: int| 0 <= i < pts@.len() ==> -PRICE_LIMIT <= #[trigger] pts@[i].1 <= PRICE_LIMIT,
            out@ == start + point_entries(pts@, ys@, i as int),
        decreases pts@.len() - i,
    {
        proof {
            assert(-DAY_BOUND <= pts@[i as int].0 <= DAY_BOUND);
        }
        push_point_entry(out, pts, ys, i);
        i = i + 1;
    }
}

/// The picture and hover data of a view, given the heights of its ticks and
/// points on the plot (placing a value on a logarithmic axis takes a
/// logarithm, which is left to the caller).
pub fn view_svg(s: &ViewScale, days: Option<i64>, tick_ys: &Vec<i64>, point_ys: &Vec<i64>) -> (r: (String, String))
    requires
        scale_drawable(*s),
        tick_ys@.len() == s.ticks@.len(),
        point_ys@.len() == s.points@.len(),
    ensures
        r.0@ == view_picture(*s, days, tick_ys@, point_ys@),
        r.1@ == view_points_json(*s, point_ys@),
{
    let len = s.points.len();
    let mut svg = String::new();
    push_tick_marks(&mut svg, &s.ticks, tick_ys, s.places);
    let labels = x_labels(&s.points, days);
    let ghost want = axis_labels(s.points@, days);
    proof {
        lemma_axis_labels_in_range(s.points@, days);
    }
    push_label_marks(&mut svg, &labels, Ghost(want), len);
    svg.append("<path class=\"line\" d=\"");
    push_path(&mut svg, point_ys);
    svg.append("\"/>");
    let ghost before_end = svg@;
    if len > 0 {
        let n: usize = if len > 2 { len } else { 2 };
        svg.append("<circle class=\"end\" cx=\"");
        push_int(&mut svg, x_of(len, n - 1) as i128);
        svg.append("\" cy=\"");
        push_int(&mut svg, point_ys[len - 1] as i128);
        svg.append("\" r=\"5\"/>");
    }
    svg.append("<g class=\"hover\" style=\"display:none\"><line class=\"cross\" y1=\"16\" y2=\"290\"/><circle class=\"dot\" r=\"5\"/></g>");
    assert(svg@ =~= view_picture(*s, days, tick_ys@, point_ys@));
    let mut json = String::new();
    json.append("[");
    push_point_entries(&mut json, &s.points, point_ys);
    json.append("]");
    assert(json@ =~= view_points_json(*s, point_ys@));
    (svg, json)
}

proof fn lemma_day_labels_in_range(pts: Seq<(i64, i128)>, step: int, n: int)
    requires
        n <= usize::MAX,
    ensures
        forall|i: int| 0 <= i < day_labels(pts, step, n).len() ==> (#[trigger] day_labels(pts, step, n)[i]).0 < n,
    decreases n,
{
    if n > 0 {
        lemma_day_labels_in_range(pts, step, n - 1);
        let ls = day_labels(pts, step, n - 1);
        assert forall|i: int| 0 <= i < day_labels(pts, step, n).len() implies (#[trigger] day_labels(pts, step, n)[i]).0
            < n by {
            if i < ls.len() {
                assert(day_labels(pts, step, n)[i] == ls[i]);
            }
        }
    }
}

proof fn lemma_month_labels_in_range(pts: Seq<(i64, i128)>, n: int)
    requires
        n <= usize::MAX,
    ensures
        forall|i: int| 0 <= i < month_labels(pts, n).0.len() ==> (#[trigger] month_labels(pts, n).0[i]).0 < n,
    decreases n,
{
    if n > 0 {
        lemma_month_labels_in_range(pts, n - 1);
        let ls = month_labels(pts, n - 1).0;
        assert forall|i: int| 0 <= i < month_labels(pts, n).0.len() implies (#[trigger] month_labels(pts, n).0[i]).0 < n by {
            if i < ls.len() {
                assert(month_labels(pts, n).0[i] == ls[i]);
            }
        }
    }
}

proof fn lemma_year_labels_in_range(pts: Seq<(i64, i128)>, n: int)
    requires
        n <= usize::MAX,
    ensures
        forall|i: int| 0 <= i < year_labels(pts, n).0.len() ==> (#[trigger] year_labels(pts, n).0[i]).0 < n,
    decreases n,
{
    if n > 0 {
        lemma_year_labels_in_range(pts, n - 1);
        let ls = year_labels(pts, n - 1).0;
        assert forall|i: int| 0 <= i < year_labels(pts, n).0.len() implies (#[trigger] year_labels(pts, n).0[i]).0 < n by {
            if i < ls.len() {
                assert(year_labels(pts, n).0[i] == ls[i]);
            }
        }
    }
}

/// Every x-axis label sits under one of the points.
proof fn lemma_axis_labels_in_range(pts: Seq<(i64, i128)>, days: Option<i64>)
    requires
        pts.len() <= usize::MAX,
    ensures
        forall|i: int| 0 <= i < axis_labels(pts, days).len() ==> (#[trigger] axis_labels(pts, days)[i]).0 < pts.len(),
{
    lemma_day_labels_in_range(pts, if pts.len() / 4 > 1 { (pts.len() / 4) as int } else { 1 }, pts.len() as int);
    lemma_month_labels_in_range(pts, pts.len() as int);
    lemma_year_labels_in_range(pts, pts.len() as int);
}

} // verus!
