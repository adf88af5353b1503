//! What the published pages read from a built index, and the bounds under
//! which every figure they print can be computed.

use crate::chart::chartable;
use crate::index::{
    index_readable, prices_bounded, series_readable, share_fix, spec_shares, ticker_index, covers, fix_on,
    lemma_ticker_index_exists, Index, Leg, Quantity, PRICE_LIMIT, DAY_BOUND, QUANTITY_LIMIT, find_ticker,
};
use crate::series::Daily;
use crate::text::str_eq;
use vstd::prelude::*;

verus! {

/// Shares (in basis points) up to this magnitude print as percentages
/// without overflow.
pub const SHARE_LIMIT: i128 = 100_000_000_000_000_000_000;

/// The last day of the level series.
pub open spec fn last_level_day(idx: Index) -> int {
    idx.level.start + idx.level.values@.len() - 1
}

/// Each leg's share of the level on its last day.
pub open spec fn latest_shares(idx: Index, twaps: Seq<(&str, Daily)>) -> Seq<(Leg, i128)> {
    spec_shares(idx.quantities@, twaps, last_level_day(idx))
}

/// Every base fix lies within [`PRICE_LIMIT`] of zero, and every weight
/// within [`SHARE_LIMIT`].
pub open spec fn holdings_printable(qs: Seq<Quantity>) -> bool {
    forall|k: int| 0 <= k < qs.len() ==> {
        &&& -PRICE_LIMIT <= (#[trigger] qs[k]).base_fix <= PRICE_LIMIT
        &&& -SHARE_LIMIT <= qs[k].leg.weight_bp <= SHARE_LIMIT
    }
}

/// Every average lies within [`DAY_BOUND`] days of 1970.
pub open spec fn averages_chartable(twaps: Seq<(&str, Daily)>) -> bool {
    forall|i: int| 0 <= i < twaps.len() ==> chartable(#[trigger] twaps[i].1)
}

/// Every share lies within [`SHARE_LIMIT`] of zero.
pub open spec fn shares_bounded(shares: Seq<(Leg, i128)>) -> bool {
    forall|k: int| 0 <= k < shares.len() ==> -SHARE_LIMIT <= #[trigger] shares[k].1 <= SHARE_LIMIT
}

/// An index and its averages can be published: every figure the pages print
/// is computed without leaving `i128`, and every date is a calendar date.
pub open spec fn publishable(idx: Index, twaps: Seq<(&str, Daily)>) -> bool {
    &&& index_readable(idx)
    &&& series_readable(twaps)
    &&& chartable(idx.level)
    &&& -DAY_BOUND <= idx.base_day <= DAY_BOUND
    &&& prices_bounded(idx.level.values@)
    &&& holdings_printable(idx.quantities@)
    &&& averages_chartable(twaps)
    &&& shares_bounded(latest_shares(idx, twaps))
}

/// The shares of a publishable index belong to its holdings, in order, and
/// every share and weight prints.
pub proof fn lemma_latest_shares(idx: Index, twaps: Seq<(&str, Daily)>)
    requires
        publishable(idx, twaps),
    ensures
        latest_shares(idx, twaps).len() == idx.quantities@.len(),
        forall|k: int| 0 <= k < idx.quantities@.len() ==> {
            &&& (#[trigger] latest_shares(idx, twaps)[k]).0 == idx.quantities@[k].leg
            &&& -SHARE_LIMIT <= latest_shares(idx, twaps)[k].0.weight_bp <= SHARE_LIMIT
            &&& -SHARE_LIMIT <= latest_shares(idx, twaps)[k].1 <= SHARE_LIMIT
        },
{
    assert forall|k: int| 0 <= k < idx.quantities@.len() implies {
        &&& (#[trigger] latest_shares(idx, twaps)[k]).0 == idx.quantities@[k].leg
        &&& -SHARE_LIMIT <= latest_shares(idx, twaps)[k].0.weight_bp <= SHARE_LIMIT
        &&& -SHARE_LIMIT <= latest_shares(idx, twaps)[k].1 <= SHARE_LIMIT
    } by {
        assert(-SHARE_LIMIT <= idx.quantities@[k].leg.weight_bp <= SHARE_LIMIT);
    }
}

/// Whether every fix of `v` lies within [`PRICE_LIMIT`].
fn prices_ok(v: &Vec<i128>) -> (b: bool)
    ensures
        b == prices_bounded(v@),
{
    let mut i: usize = 0;
    while i < v.len()
        invariant
            0 <= i <= v@.len(),
            forall|k: int| 0 <= k < i ==> -PRICE_LIMIT <= #[trigger] v@[k] <= PRICE_LIMIT,
        decreases v@.len() - i,
    {
        if v[i] < -PRICE_LIMIT || v[i] > PRICE_LIMIT {
            return false;
        }
        i = i + 1;
    }
    true
}

/// Whether a calendar lies within [`DAY_BOUND`] days of 1970.
fn calendar_ok(d: &Daily) -> (b: bool)
    ensures
        b == chartable(*d),
{
    if d.start < -DAY_BOUND || d.start > DAY_BOUND {
        return false;
    }
    let room = (DAY_BOUND - d.start) as u64;
    (d.values.len() as u64) <= room
}

/// Whether an index and its averages can be published.
pub fn can_publish(idx: &Index, twaps: &[(&str, Daily)]) -> (b: bool)
    ensures
        b == publishable(*idx, twaps@),
{
    if !calendar_ok(&idx.level) {
        return false;
    }
    if idx.base_day < -DAY_BOUND || idx.base_day > DAY_BOUND {
        return false;
    }
    if !prices_ok(&idx.level.values) {
        return false;
    }
    if idx.quantities.len() > 1_048_576 {
        return false;
    }
    let mut k: usize = 0;
    while k < idx.quantities.len()
        invariant
            0 <= k <= idx.quantities@.len(),
            forall|j: int| 0 <= j < k ==> {
                &&& -QUANTITY_LIMIT <= (#[trigger] idx.quantities@[j]).quantity <= QUANTITY_LIMIT
                &&& -PRICE_LIMIT <= idx.quantities@[j].base_fix <= PRICE_LIMIT
                &&& -SHARE_LIMIT <= idx.quantities@[j].leg.weight_bp <= SHARE_LIMIT
            },
        decreases idx.quantities@.len() - k,
    {
        let q = idx.quantities[k];
        if q.quantity < -QUANTITY_LIMIT || q.quantity > QUANTITY_LIMIT {
            return false;
        }
        if q.base_fix < -PRICE_LIMIT || q.base_fix > PRICE_LIMIT {
            return false;
        }
        if q.leg.weight_bp < -SHARE_LIMIT || q.leg.weight_bp > SHARE_LIMIT {
            return false;
        }
        k = k + 1;
    }
    let mut i: usize = 0;
    while i < twaps.len()
        invariant
            0 <= i <= twaps@.len(),
            forall|j: int| 0 <= j < i ==> {
                &&& prices_bounded((#[trigger] twaps@[j]).1.values@)
                &&& chartable(twaps@[j].1)
            },
        decreases twaps@.len() - i,
    {
        if !calendar_ok(&twaps[i].1) {
            return false;
        }
        if !prices_ok(&twaps[i].1.values) {
            return false;
        }
        i = i + 1;
    }
    assert(index_readable(*idx));
    assert(series_readable(twaps@));
    let shares = idx.current_shares(twaps);
    assert(shares@ == latest_shares(*idx, twaps@));
    let mut k: usize = 0;
    while k < shares.len()
        invariant
            0 <= k <= shares@.len(),
            shares@ == latest_shares(*idx, twaps@),
            forall|j: int| 0 <= j < k ==> -SHARE_LIMIT <= (#[trigger] shares@[j]).1 <= SHARE_LIMIT,
        decreases shares@.len() - k,
    {
        if shares[k].1 < -SHARE_LIMIT || shares[k].1 > SHARE_LIMIT {
            assert(!shares_bounded(shares@));
            return false;
        }
        k = k + 1;
    }
    true
}

/// The fix the pages print for `leg` on `day`: its average's value, from the
/// first entry keyed by its ticker, or zero when there is none.
pub fn fix_for(twaps: &[(&str, Daily)], leg: Leg, day: i64) -> (r: i128)
    requires
        series_readable(twaps@),
        averages_chartable(twaps@),
        -DAY_BOUND <= day <= DAY_BOUND,
    ensures
        r == share_fix(twaps@, leg, day as int),
        -PRICE_LIMIT <= r <= PRICE_LIMIT,
{
    let i = find_ticker(twaps, leg.ticker);
    if i == twaps.len() {
        return 0;
    }
    proof {
        assert(chartable(twaps@[i as int].1));
        assert(prices_bounded(twaps@[i as int].1.values@));
    }
    match twaps[i].1.value_on(day) {
        Some(v) => v,
        None => 0,
    }
}

/// `i` is the first coverage entry for `ticker` (`cov.len()` when none is).
pub open spec fn is_first_coverage(cov: Seq<(&str, String, usize)>, ticker: Seq<char>, i: int) -> bool {
    &&& 0 <= i <= cov.len()
    &&& i < cov.len() ==> cov[i].0@ == ticker
    &&& forall|j: int| 0 <= j < i ==> (#[trigger] cov[j]).0@ != ticker
}

/// The first coverage entry for `ticker`, or `cov.len()`.
pub open spec fn coverage_index(cov: Seq<(&str, String, usize)>, ticker: Seq<char>) -> int {
    choose|i: int| is_first_coverage(cov, ticker, i)
}

pub proof fn lemma_coverage_index(cov: Seq<(&str, String, usize)>, ticker: Seq<char>, i: int)
    requires
        is_first_coverage(cov, ticker, i),
    ensures
        coverage_index(cov, ticker) == i,
{
    let k = coverage_index(cov, ticker);
    assert(is_first_coverage(cov, ticker, k));
    if k < i {
        assert(cov[k].0@ != ticker);
    }
    if i < k {
        assert(cov[i].0@ != ticker);
    }
}

/// The first coverage entry for `ticker`, or `cov.len()`.
pub fn find_coverage(cov: &[(&str, String, usize)], ticker: &str) -> (r: usize)
    ensures
        r == coverage_index(cov@, ticker@),
        r <= cov@.len(),
{
    let mut i: usize = 0;
    while i < cov.len()
        invariant
            0 <= i <= cov@.len(),
            forall|j: int| 0 <= j < i ==> (#[trigger] cov@[j]).0@ != ticker@,
        decreases cov@.len() - i,
    {
        if str_eq(cov[i].0, ticker) {
            proof {
                lemma_coverage_index(cov@, ticker@, i as int);
            }
            return i;
        }
        i = i + 1;
    }
    proof {
        lemma_coverage_index(cov@, ticker@, i as int);
    }
    i
}

} // verus!
