//! Daily price series: sparse observations in, a dense carried-forward
//! calendar out, then the trailing average the index consumes.

use crate::num::{date_text, format_date, SCALE, trunc_div};
use crate::text::push_char;
use vstd::prelude::*;

verus! {

/// The days of `p` strictly increase.
pub open spec fn days_increasing(p: Seq<(i64, i128)>) -> bool {
    forall|i: int, j: int| 0 <= i < j < p.len() ==> #[trigger] p[i].0 < #[trigger] p[j].0
}

/// Some observation of `p` falls on day `d`.
pub open spec fn has_day(p: Seq<(i64, i128)>, d: i64) -> bool {
    exists|i: int| 0 <= i < p.len() && #[trigger] p[i].0 == d
}

/// `k` is the last observation of `p` on day `d`.
pub open spec fn is_last_on(p: Seq<(i64, i128)>, d: i64, k: int) -> bool {
    &&& 0 <= k < p.len()
    &&& p[k].0 == d
    &&& forall|j: int| k < j < p.len() ==> #[trigger] p[j].0 != d
}

/// The value of the last observation of `p` on day `d`.
pub open spec fn last_value_on(p: Seq<(i64, i128)>, d: i64) -> i128 {
    p[choose|k: int| is_last_on(p, d, k)].1
}

pub proof fn lemma_last_value_on(p: Seq<(i64, i128)>, d: i64, k: int)
    requires
        is_last_on(p, d, k),
    ensures
        last_value_on(p, d) == p[k].1,
{
    let c = choose|c: int| is_last_on(p, d, c);
    assert(is_last_on(p, d, c));
    if c < k {
        assert(p[k].0 == d);
    }
    if k < c {
        assert(p[c].0 == d);
    }
}

/// A day that occurs in `p` has a last occurrence.
pub proof fn lemma_has_last(p: Seq<(i64, i128)>, d: i64)
    requires
        has_day(p, d),
    ensures
        exists|k: int| is_last_on(p, d, k),
    decreases p.len(),
{
    if p.last().0 == d {
        assert(is_last_on(p, d, p.len() - 1));
    } else {
        let w = choose|w: int| 0 <= w < p.len() && #[trigger] p[w].0 == d;
        let q = p.drop_last();
        assert(q[w].0 == d);
        lemma_has_last(q, d);
        let k = choose|k: int| is_last_on(q, d, k);
        assert forall|j: int| k < j < p.len() implies #[trigger] p[j].0 != d by {
            if j < q.len() {
                assert(q[j] == p[j]);
            }
        }
        assert(is_last_on(p, d, k));
    }
}

/// `r` is `p` sorted by day with one observation per day, each day keeping
/// the value of its last observation in `p`.
pub open spec fn normal_form_of(r: Seq<(i64, i128)>, p: Seq<(i64, i128)>) -> bool {
    &&& days_increasing(r)
    &&& forall|d: i64| has_day(r, d) <==> has_day(p, d)
    &&& forall|i: int| 0 <= i < r.len() ==> #[trigger] r[i].1 == last_value_on(p, r[i].0)
}

/// A sparse series of observations, one value per date (days since epoch).
#[derive(Debug, Default, Clone)]
pub struct Series {
    points: Vec<(i64, i128)>,
}

impl View for Series {
    type V = Seq<(i64, i128)>;

    closed spec fn view(&self) -> Seq<(i64, i128)> {
        self.points@
    }
}

impl Series {
    pub fn new() -> (r: Self)
        ensures
            r@ == Seq::<(i64, i128)>::empty(),
    {
        Self { points: Vec::new() }
    }

    pub fn push(&mut self, day: i64, value: i128)
        ensures
            final(self)@ == old(self)@.push((day, value)),
    {
        self.points.push((day, value));
    }

    pub fn len(&self) -> (r: usize)
        ensures
            r == self@.len(),
    {
        self.points.len()
    }

    pub fn is_empty(&self) -> (r: bool)
        ensures
            r == (self@.len() == 0),
    {
        self.points.is_empty()
    }

    /// Sort by date and keep one observation per date, the last one given:
    /// feeds occasionally restate a day, and the later value is the revision.
    pub fn normalise(&mut self)
        ensures
            normal_form_of(final(self)@, old(self)@),
    {
        let ghost p = self.points@;
        let mut out: Vec<(i64, i128)> = Vec::new();
        let mut i: usize = 0;
        while i < self.points.len()
            invariant
                p == self.points@,
                0 <= i <= p.len(),
                normal_form_of(out@, p.take(i as int)),
            decreases p.len() - i,
        {
            let (day, value) = self.points[i];
            let ghost q = p.take(i as int);
            let ghost q1 = p.take(i + 1);
            assert(q1 =~= q.push((day, value)));
            let ghost o = out@;
            let mut pos = out.len();
            while pos > 0 && out[pos - 1].0 > day
                invariant
                    o == out@,
                    0 <= pos <= o.len(),
                    forall|j: int| pos <= j < o.len() ==> #[trigger] o[j].0 > day,
                decreases pos,
            {
                pos = pos - 1;
            }
            if pos > 0 && out[pos - 1].0 == day {
                out.set(pos - 1, (day, value));
                proof {
                    let n = out@;
                    assert(days_increasing(n));
                    assert forall|d: i64| has_day(n, d) <==> has_day(q1, d) by {
                        if has_day(n, d) {
                            let w = choose|w: int| 0 <= w < n.len() && #[trigger] n[w].0 == d;
                            if d != day {
                                assert(o[w].0 == d);
                                assert(has_day(o, d));
                                assert(has_day(q, d));
                                let v = choose|v: int| 0 <= v < q.len() && #[trigger] q[v].0 == d;
                                assert(q1[v].0 == d);
                            } else {
                                assert(q1[q.len() as int].0 == d);
                            }
                        }
                        if has_day(q1, d) {
                            let v = choose|v: int| 0 <= v < q1.len() && #[trigger] q1[v].0 == d;
                            if d != day {
                                assert(q[v].0 == d);
                                assert(has_day(q, d));
                                assert(has_day(o, d));
                                let w = choose|w: int| 0 <= w < o.len() && #[trigger] o[w].0 == d;
                                assert(n[w].0 == d);
                            } else {
                                assert(n[pos - 1].0 == d);
                            }
                        }
                    }
                    assert forall|k: int| 0 <= k < n.len() implies #[trigger] n[k].1
                        == last_value_on(q1, n[k].0) by {
                        if k == pos - 1 {
                            lemma_last_value_on(q1, n[k].0, q.len() as int);
                        } else {
                            assert(n[k] == o[k]);
                            assert(has_day(o, o[k].0));
                            assert(has_day(q, o[k].0));
                            let w = choose|w: int| is_last_on(q, o[k].0, w);
                            lemma_has_last(q, o[k].0);
                            lemma_last_value_on(q, o[k].0, w);
                            assert(o[k].0 != day);
                            assert(is_last_on(q1, n[k].0, w));
                            lemma_last_value_on(q1, n[k].0, w);
                        }
                    }
                    assert(days_increasing(n));
                    assert(normal_form_of(n, q1));
                }
            } else {
                out.insert(pos, (day, value));
                proof {
                    let n = out@;
                    assert forall|a: int, b: int| 0 <= a < b < n.len() implies #[trigger] n[a].0
                        < #[trigger] n[b].0 by {
                        if b < pos {
                        } else if a < pos && b == pos {
                            if pos > 0 {
                                assert(o[pos - 1].0 < day);
                                if a < pos - 1 {
                                    assert(o[a].0 < o[pos - 1].0);
                                }
                            }
                        } else if a < pos {
                            assert(n[b] == o[b - 1]);
                            assert(o[a].0 < o[b - 1].0);
                        } else if a == pos {
                            assert(n[b] == o[b - 1]);
                        } else {
                            assert(n[a] == o[a - 1] && n[b] == o[b - 1]);
                        }
                    }
                    assert forall|d: i64| has_day(n, d) <==> has_day(q1, d) by {
                        if has_day(n, d) {
                            let w = choose|w: int| 0 <= w < n.len() && #[trigger] n[w].0 == d;
                            if w == pos {
                                assert(q1[q.len() as int].0 == d);
                            } else {
                                let w0 = if w < pos { w } else { w - 1 };
                                assert(o[w0].0 == d);
                                assert(has_day(o, d));
                                assert(has_day(q, d));
                                let v = choose|v: int| 0 <= v < q.len() && #[trigger] q[v].0 == d;
                                assert(q1[v].0 == d);
                            }
                        }
                        if has_day(q1, d) {
                            let v = choose|v: int| 0 <= v < q1.len() && #[trigger] q1[v].0 == d;
                            if v == q.len() {
                                assert(n[pos as int].0 == d);
                            } else {
                                assert(q[v].0 == d);
                                assert(has_day(q, d));
                                assert(has_day(o, d));
                                let w = choose|w: int| 0 <= w < o.len() && #[trigger] o[w].0 == d;
                                if w < pos {
                                    assert(n[w].0 == d);
                                } else {
                                    assert(n[w + 1].0 == d);
                                }
                            }
                        }
                    }
                    assert(!has_day(q, day)) by {
                        if has_day(q, day) {
                            assert(has_day(o, day));
                            let w = choose|w: int| 0 <= w < o.len() && #[trigger] o[w].0 == day;
                            if w < pos - 1 {
                                assert(o[w].0 < o[pos - 1].0);
                            }
                            assert(false);
                        }
                    }
                    assert forall|k: int| 0 <= k < n.len() implies #[trigger] n[k].1
                        == last_value_on(q1, n[k].0) by {
                        if k == pos {
                            lemma_last_value_on(q1, n[k].0, q.len() as int);
                        } else {
                            let k0 = if k < pos { k } else { k - 1 };
                            assert(n[k] == o[k0]);
                            assert(has_day(o, o[k0].0));
                            assert(has_day(q, o[k0].0));
                            lemma_has_last(q, o[k0].0);
                            let w = choose|w: int| is_last_on(q, o[k0].0, w);
                            lemma_last_value_on(q, o[k0].0, w);
                            assert(o[k0].0 != day) by {
                                if o[k0].0 == day {
                                    assert(q[w].0 == day);
                                }
                            }
                            assert(is_last_on(q1, n[k].0, w));
                            lemma_last_value_on(q1, n[k].0, w);
                        }
                    }
                    assert(normal_form_of(n, q1));
                }
            }
            i = i + 1;
        }
        assert(p.take(p.len() as int) =~= p);
        self.points = out;
    }
}

/// `i` is the first observation of `p`, in the order given, whose day lies after `d`
/// (`p.len()` when none does): a forward walk through `p` has passed exactly
/// the observations before it by day `d`.
pub open spec fn is_walked_to(p: Seq<(i64, i128)>, d: int, i: int) -> bool {
    &&& 0 <= i <= p.len()
    &&& i < p.len() ==> p[i].0 > d
    &&& forall|j: int| 0 <= j < i ==> #[trigger] p[j].0 <= d
}

/// How many observations a forward walk through `p` has passed by day `d`.
pub open spec fn walked_to(p: Seq<(i64, i128)>, d: int) -> int {
    choose|i: int| is_walked_to(p, d, i)
}

pub proof fn lemma_walked_to(p: Seq<(i64, i128)>, d: int, i: int)
    requires
        is_walked_to(p, d, i),
    ensures
        walked_to(p, d) == i,
{
    let k = walked_to(p, d);
    assert(is_walked_to(p, d, k));
    if k < i {
        assert(p[k].0 <= d);
    }
    if i < k {
        assert(p[i].0 <= d);
    }
}

/// The dense calendar over `[from, to]`: each day carries the last
/// observation a forward walk has reached by then, or nothing at all when
/// the walk has reached no observation by `from`.
pub open spec fn carried(p: Seq<(i64, i128)>, from: int, to: int) -> Option<Seq<i128>> {
    if to < from || p.len() == 0 || walked_to(p, from) == 0 {
        None
    } else {
        Some(Seq::new((to - from + 1) as nat, |k: int| p[walked_to(p, from + k) - 1].1))
    }
}

/// The span a day range may cover, bounded by what one allocation can hold.
pub const MAX_SPAN_DAYS: i64 = 0x0800_0000_0000_0000;

impl Series {
    pub fn first_day(&self) -> (r: Option<i64>)
        ensures
            r == (if self@.len() > 0 { Some(self@[0].0) } else { None::<i64> }),
    {
        if self.points.len() > 0 {
            Some(self.points[0].0)
        } else {
            None
        }
    }

    pub fn last(&self) -> (r: Option<(i64, i128)>)
        ensures
            r == (if self@.len() > 0 { Some(self@.last()) } else { None::<(i64, i128)> }),
    {
        if self.points.len() > 0 {
            Some(self.points[self.points.len() - 1])
        } else {
            None
        }
    }

    pub fn point(&self, i: usize) -> (r: Option<(i64, i128)>)
        ensures
            r == (if i < self@.len() { Some(self@[i as int]) } else { None::<(i64, i128)> }),
    {
        if i < self.points.len() {
            Some(self.points[i])
        } else {
            None
        }
    }

    /// The observed range, for the provenance manifest: "first … last", or "—".
    pub fn span_text(&self) -> (r: String)
        requires
            self@.len() > 0 ==> self@[0].0 <= i64::MAX - 719_468 && self@.last().0 <= i64::MAX - 719_468,
        ensures
            r@ == (if self@.len() > 0 {
                date_text(self@[0].0 as int) + seq![' ', '\u{2026}', ' '] + date_text(self@.last().0 as int)
            } else {
                seq!['\u{2014}']
            }),
    {
        if self.points.len() > 0 {
            let mut out = format_date(self.points[0].0);
            push_char(&mut out, ' ');
            push_char(&mut out, '\u{2026}');
            push_char(&mut out, ' ');
            let last = format_date(self.points[self.points.len() - 1].0);
            out.append(last.as_str());
            proof {
                assert(out@ =~= date_text(self@[0].0 as int) + seq![' ', '\u{2026}', ' '] + date_text(self@.last().0 as int));
            }
            out
        } else {
            let mut out = String::new();
            push_char(&mut out, '\u{2014}');
            assert(out@ =~= seq!['\u{2014}']);
            out
        }
    }

    /// One value per calendar day over `[from, to]`, carrying the last
    /// observation forward across weekends, holidays and the rest of a
    /// month; `None` when no observation lies at or before `from`, since
    /// carrying a later price backwards would invent history.
    pub fn carry_forward(&self, from: i64, to: i64) -> (r: Option<Vec<i128>>)
        requires
            to < from || to - from < MAX_SPAN_DAYS,
        ensures
            match r {
                Some(v) => carried(self@, from as int, to as int) == Some(v@),
                None => carried(self@, from as int, to as int) is None,
            },
    {
        let ghost p = self.points@;
        if to < from || self.points.len() == 0 {
            return None;
        }
        let n = self.points.len();
        let mut idx: usize = 0;
        while idx < n && self.points[idx].0 <= from
            invariant
                p == self.points@,
                n == p.len(),
                0 <= idx <= n,
                forall|j: int| 0 <= j < idx ==> #[trigger] p[j].0 <= from,
            decreases n - idx,
        {
            idx = idx + 1;
        }
        proof {
            lemma_walked_to(p, from as int, idx as int);
        }
        if idx == 0 {
            return None;
        }
        let span = to - from;
        let mut out: Vec<i128> = Vec::new();
        let mut k: i64 = 0;
        while k <= span
            invariant
                p == self.points@,
                n == p.len(),
                0 <= k <= span + 1,
                span == to - from,
                span < MAX_SPAN_DAYS,
                1 <= idx <= n,
                forall|j: int| 0 <= j < idx ==> #[trigger] p[j].0 <= from + k,
                out@.len() == k,
                forall|t: int| 0 <= t < k ==> #[trigger] out@[t] == p[walked_to(p, from + t) - 1].1,
            decreases span + 1 - k,
        {
            let day = from + k;
            while idx < n && self.points[idx].0 <= day
                invariant
                    p == self.points@,
                    n == p.len(),
                    1 <= idx <= n,
                    day == from + k,
                    forall|j: int| 0 <= j < idx ==> #[trigger] p[j].0 <= day,
                decreases n - idx,
            {
                idx = idx + 1;
            }
            proof {
                lemma_walked_to(p, day as int, idx as int);
            }
            out.push(self.points[idx - 1].1);
            k = k + 1;
        }
        proof {
            assert(out@ =~= Seq::new((to - from + 1) as nat, |t: int| p[walked_to(p, from + t) - 1].1));
        }
        Some(out)
    }
}

// ---------------------------------------------------------------------------
// what normalising and carrying forward promise
// ---------------------------------------------------------------------------

/// Two day-increasing series holding the same days hold them in the same places.
proof fn lemma_same_days_same_order(a: Seq<(i64, i128)>, b: Seq<(i64, i128)>)
    requires
        days_increasing(a),
        days_increasing(b),
        forall|d: i64| has_day(a, d) <==> has_day(b, d),
    ensures
        a.len() == b.len(),
        forall|i: int| 0 <= i < a.len() ==> a[i].0 == b[i].0,
    decreases a.len() + b.len(),
{
    if a.len() == 0 {
        if b.len() > 0 {
            assert(has_day(b, b[0].0));
        }
    } else if b.len() == 0 {
        assert(has_day(a, a[0].0));
    } else {
        assert(has_day(a, a[0].0));
        assert(has_day(b, b[0].0));
        let ja = choose|j: int| 0 <= j < b.len() && #[trigger] b[j].0 == a[0].0;
        let jb = choose|j: int| 0 <= j < a.len() && #[trigger] a[j].0 == b[0].0;
        if ja > 0 {
            assert(b[0].0 < b[ja].0);
        }
        if jb > 0 {
            assert(a[0].0 < a[jb].0);
        }
        assert(a[0].0 == b[0].0);
        let a1 = a.skip(1);
        let b1 = b.skip(1);
        assert forall|d: i64| has_day(a1, d) implies has_day(b1, d) by {
            let i = choose|i: int| 0 <= i < a1.len() && #[trigger] a1[i].0 == d;
            assert(a[i + 1].0 == d);
            assert(has_day(a, d));
            let j = choose|j: int| 0 <= j < b.len() && #[trigger] b[j].0 == d;
            assert(a[0].0 < a[i + 1].0);
            assert(j != 0);
            assert(b1[j - 1].0 == d);
        }
        assert forall|d: i64| has_day(b1, d) implies has_day(a1, d) by {
            let j = choose|j: int| 0 <= j < b1.len() && #[trigger] b1[j].0 == d;
            assert(b[j + 1].0 == d);
            assert(has_day(b, d));
            let i = choose|i: int| 0 <= i < a.len() && #[trigger] a[i].0 == d;
            assert(b[0].0 < b[j + 1].0);
            assert(i != 0);
            assert(a1[i - 1].0 == d);
        }
        lemma_same_days_same_order(a1, b1);
        assert forall|i: int| 0 <= i < a.len() implies a[i].0 == b[i].0 by {
            if i > 0 {
                assert(a1[i - 1] == a[i]);
                assert(b1[i - 1] == b[i]);
            }
        }
    }
}

/// The normal form is unique: two series that are both the normal form of
/// the same observations are equal.
pub proof fn lemma_normal_form_unique(a: Seq<(i64, i128)>, b: Seq<(i64, i128)>, p: Seq<(i64, i128)>)
    requires
        normal_form_of(a, p),
        normal_form_of(b, p),
    ensures
        a == b,
{
    lemma_same_days_same_order(a, b);
    assert forall|i: int| 0 <= i < a.len() implies a[i] == b[i] by {
        assert(a[i].1 == last_value_on(p, a[i].0));
        assert(b[i].1 == last_value_on(p, b[i].0));
    }
    assert(a =~= b);
}

/// Normalising is idempotent: a series in normal form is its own normal
/// form, so normalising it again changes nothing.
pub proof fn lemma_normalise_idempotent(r: Seq<(i64, i128)>, p: Seq<(i64, i128)>, r2: Seq<(i64, i128)>)
    requires
        normal_form_of(r, p),
        normal_form_of(r2, r),
    ensures
        normal_form_of(r, r),
        r2 == r,
{
    assert forall|i: int| 0 <= i < r.len() implies #[trigger] r[i].1 == last_value_on(r, r[i].0) by {
        assert forall|j: int| i < j < r.len() implies #[trigger] r[j].0 != r[i].0 by {
            assert(r[i].0 < r[j].0);
        }
        assert(is_last_on(r, r[i].0, i));
        lemma_last_value_on(r, r[i].0, i);
    }
    lemma_normal_form_unique(r2, r, r);
}

/// Some prefix of `p` has days at or before `d` and is followed by a later day.
pub proof fn lemma_walk_exists(p: Seq<(i64, i128)>, d: int) -> (i: int)
    ensures
        is_walked_to(p, d, i),
    decreases p.len(),
{
    if p.len() == 0 {
        0
    } else {
        let q = p.drop_last();
        let k = lemma_walk_exists(q, d);
        if k < q.len() {
            assert(p[k] == q[k]);
            assert forall|j: int| 0 <= j < k implies #[trigger] p[j].0 <= d by {
                assert(p[j] == q[j]);
            }
            k
        } else if p.last().0 <= d {
            assert forall|j: int| 0 <= j < p.len() implies #[trigger] p[j].0 <= d by {
                if j < q.len() {
                    assert(p[j] == q[j]);
                }
            }
            p.len() as int
        } else {
            assert forall|j: int| 0 <= j < q.len() implies #[trigger] p[j].0 <= d by {
                assert(p[j] == q[j]);
            }
            q.len() as int
        }
    }
}

/// Carrying forward a day-increasing series refuses to invent history: it
/// yields nothing exactly when the range is empty or no observation lies at
/// or before its first day, and otherwise one fix for every day of the range.
pub proof fn lemma_carry_forward_refuses(p: Seq<(i64, i128)>, from: int, to: int)
    requires
        days_increasing(p),
    ensures
        (carried(p, from, to) is None) <==> (to < from || p.len() == 0 || p[0].0 > from),
        carried(p, from, to) is Some ==> carried(p, from, to)->0.len() == to - from + 1,
{
    if p.len() > 0 && from <= to {
        let w = lemma_walk_exists(p, from);
        lemma_walked_to(p, from, w);
        if p[0].0 > from {
            assert(w == 0);
        } else {
            assert(w != 0);
        }
    }
}

/// Carrying forward holds the last fix: on each day of the range, the dense
/// calendar of a day-increasing series carries the value of the latest
/// observation on or before that day.
pub proof fn lemma_carry_forward_holds_last(p: Seq<(i64, i128)>, from: int, to: int, k: int, i: int)
    requires
        days_increasing(p),
        carried(p, from, to) is Some,
        0 <= k <= to - from,
        0 <= i < p.len(),
        p[i].0 <= from + k,
        i + 1 == p.len() || p[i + 1].0 > from + k,
    ensures
        carried(p, from, to)->0[k] == p[i].1,
{
    assert forall|j: int| 0 <= j < i + 1 implies #[trigger] p[j].0 <= from + k by {
        if j < i {
            assert(p[j].0 < p[i].0);
        }
    }
    assert(is_walked_to(p, from + k, i + 1));
    lemma_walked_to(p, from + k, i + 1);
}

/// A dense daily calendar of fixes with its start date.
#[derive(Debug, Clone)]
pub struct Daily {
    pub start: i64,
    pub values: Vec<i128>,
}

/// Fixes up to this magnitude (about 7.9e19 dollars) can be summed over any
/// averaging window without overflow.
pub const FIX_LIMIT: i128 = 79_228_162_514_264_337_593_543_950_336;

/// The longest averaging window, in days.
pub const WINDOW_LIMIT: usize = 1_073_741_824;

/// The last day of the calendar is representable.
pub open spec fn daily_fits(start: i64, len: nat) -> bool {
    len <= i64::MAX && start + len <= i64::MAX && start + len - 1 >= i64::MIN
}

/// Every fix lies within [`FIX_LIMIT`] of zero.
pub open spec fn fixes_bounded(v: Seq<i128>) -> bool {
    forall|k: int| 0 <= k < v.len() ==> -FIX_LIMIT <= #[trigger] v[k] <= FIX_LIMIT
}

/// The sum of `v[a..b]`.
pub open spec fn range_sum(v: Seq<i128>, a: int, b: int) -> int
    decreases b - a,
{
    if b <= a { 0 } else { range_sum(v, a, b - 1) + v[b - 1] }
}

/// Days covered by a window of `window` days ending on day `i` of the calendar.
pub open spec fn covered(i: int, window: int) -> int {
    if i + 1 < window { i + 1 } else { window }
}

/// The mean of the covered days ending on day `i`, truncated toward zero.
pub open spec fn trailing_mean_at(v: Seq<i128>, i: int, window: int) -> int {
    trunc_div(range_sum(v, i + 1 - covered(i, window), i + 1), covered(i, window))
}

/// Whether a trailing mean with these parameters yields nothing.
pub open spec fn no_trailing_mean(len: int, window: int, min_days: int) -> bool {
    window == 0 || min_days == 0 || len < min_days || window < min_days
}

/// The trailing means from the first day that has `min_days` of history.
pub open spec fn trailing_means(v: Seq<i128>, window: int, min_days: int) -> Seq<i128> {
    Seq::new((v.len() - min_days + 1) as nat, |k: int| trailing_mean_at(v, k + min_days - 1, window) as i128)
}

/// A window longer than the series covers the whole series.
pub open spec fn capped_window(window: int, len: int) -> int {
    if window > len { len } else { window }
}

/// Every sum of at most `w` consecutive fixes of `v` fits in an `i128`.
pub open spec fn window_sums_fit(v: Seq<i128>, w: int) -> bool {
    forall|a: int, b: int| 0 <= a <= b <= v.len() && b - a <= w ==> i128::MIN <= #[trigger] range_sum(v, a, b) <= i128::MAX
}

/// Fixes within [`FIX_LIMIT`] can be summed over any window up to
/// [`WINDOW_LIMIT`] days.
pub proof fn lemma_bounded_sums_fit(v: Seq<i128>, w: int)
    requires
        fixes_bounded(v),
        0 <= w <= WINDOW_LIMIT,
    ensures
        window_sums_fit(v, w),
{
    assert forall|a: int, b: int| 0 <= a <= b <= v.len() && b - a <= w implies i128::MIN <= #[trigger] range_sum(
        v,
        a,
        b,
    ) <= i128::MAX by {
        lemma_range_sum_bound(v, a, b);
        assert((b - a) * FIX_LIMIT <= WINDOW_LIMIT * FIX_LIMIT) by (nonlinear_arith)
            requires 0 <= b - a <= WINDOW_LIMIT;
    }
}

pub proof fn lemma_range_sum_bound(v: Seq<i128>, a: int, b: int)
    requires
        fixes_bounded(v),
        0 <= a <= b <= v.len(),
    ensures
        -(b - a) * FIX_LIMIT <= range_sum(v, a, b) <= (b - a) * FIX_LIMIT,
    decreases b - a,
{
    if a < b {
        lemma_range_sum_bound(v, a, b - 1);
        assert(-FIX_LIMIT <= v[b - 1] <= FIX_LIMIT);
    }
}

pub proof fn lemma_range_sum_drop_first(v: Seq<i128>, a: int, b: int)
    requires
        0 <= a < b <= v.len(),
    ensures
        range_sum(v, a, b) == v[a] + range_sum(v, a + 1, b),
    decreases b - a,
{
    if a + 1 < b {
        lemma_range_sum_drop_first(v, a, b - 1);
        assert(range_sum(v, a + 1, b) == range_sum(v, a + 1, b - 1) + v[b - 1]);
    } else {
        assert(range_sum(v, a, b) == range_sum(v, a, a) + v[a]);
        assert(range_sum(v, a + 1, b) == 0);
    }
}

impl Daily {
    /// The fix on `day`, if the calendar covers it.
    pub fn value_on(&self, day: i64) -> (r: Option<i128>)
        requires
            day >= self.start ==> day - self.start <= i64::MAX,
        ensures
            r == (if day < self.start || day - self.start >= self.values@.len() {
                None::<i128>
            } else {
                Some(self.values@[day - self.start])
            }),
    {
        if day < self.start {
            return None;
        }
        let off = day - self.start;
        if off as u64 >= self.values.len() as u64 {
            return None;
        }
        Some(self.values[off as usize])
    }

    /// The last day of the calendar (the day before `start` when it is empty).
    pub fn end(&self) -> (r: i64)
        requires
            daily_fits(self.start, self.values@.len()),
        ensures
            r == self.start + self.values@.len() - 1,
    {
        self.start + self.values.len() as i64 - 1
    }

    /// Trailing arithmetic mean over `window` calendar days ending on each
    /// day. A series younger than the window averages over what it has, once
    /// at least `min_days` of fixes exist; the output starts at the first day
    /// carrying `min_days` of history.
    pub fn trailing_mean_min(&self, window: usize, min_days: usize) -> (r: Option<Daily>)
        requires
            daily_fits(self.start, self.values@.len()),
            window_sums_fit(self.values@, capped_window(window as int, self.values@.len() as int)),
        ensures
            match r {
                None => no_trailing_mean(self.values@.len() as int, window as int, min_days as int),
                Some(d) => !no_trailing_mean(self.values@.len() as int, window as int, min_days as int)
                    && d.start == self.start + min_days - 1
                    && d.start + d.values@.len() == self.start + self.values@.len()
                    && d.values@ == trailing_means(self.values@, window as int, min_days as int),
            },
    {
        let ghost v = self.values@;
        let n = self.values.len();
        if window == 0 || min_days == 0 || n < min_days {
            return None;
        }
        // a window longer than the series covers the whole series
        let w = if window > n { n } else { window };
        let mut out: Vec<i128> = Vec::new();
        let mut sum: i128 = 0;
        let mut i: usize = 0;
        while i < n
            invariant
                v == self.values@,
                n == v.len(),
                0 <= i <= n,
                1 <= window,
                w == capped_window(window as int, n as int),
                1 <= w <= n,
                1 <= min_days <= n,
                window_sums_fit(v, w as int),
                i > 0 ==> sum == range_sum(v, i - covered(i - 1, w as int), i as int),
                i == 0 ==> sum == 0,
                out@.len() == (if i >= min_days { i - min_days + 1 } else { 0 }) || window < min_days,
                window >= min_days ==> forall|k: int|
                    0 <= k < out@.len() ==> #[trigger] out@[k] == trailing_mean_at(v, k + min_days - 1, window as int),
                window < min_days ==> out@.len() == 0,
            decreases n - i,
        {
            if i >= w {
                proof {
                    assert(covered(i - 1, w as int) == w);
                    lemma_range_sum_drop_first(v, i - w, i as int);
                    assert(i128::MIN <= range_sum(v, i - w + 1, i as int) <= i128::MAX);
                }
                sum = sum - self.values[i - w];
            }
            proof {
                let lo = i + 1 - covered(i as int, w as int);
                assert(range_sum(v, lo, i + 1) == range_sum(v, lo, i as int) + v[i as int]);
                assert(i128::MIN <= range_sum(v, lo, i + 1) <= i128::MAX);
                if i < w {
                    assert(lo == 0);
                }
            }
            sum = sum + self.values[i];
            let covered_days = if i + 1 < w { i + 1 } else { w };
            assert(sum == range_sum(v, i + 1 - covered(i as int, w as int), i + 1));
            assert(covered(i as int, w as int) == covered(i as int, window as int));
            if covered_days >= min_days {
                out.push(sum / covered_days as i128);
            }
            i = i + 1;
        }
        if out.len() == 0 {
            return None;
        }
        proof {
            assert(out@ =~= trailing_means(v, window as int, min_days as int));
        }
        Some(Daily { start: self.start + min_days as i64 - 1, values: out })
    }
}

/// Sanity gate: every fix is a positive price.
pub fn all_positive(daily: &Daily) -> (r: bool)
    ensures
        r == forall|k: int| 0 <= k < daily.values@.len() ==> #[trigger] daily.values@[k] > 0,
{
    let mut i: usize = 0;
    while i < daily.values.len()
        invariant
            0 <= i <= daily.values@.len(),
            forall|k: int| 0 <= k < i ==> #[trigger] daily.values@[k] > 0,
        decreases daily.values@.len() - i,
    {
        if daily.values[i] <= 0 {
            return false;
        }
        i = i + 1;
    }
    true
}

/// The move from `a` to `b` as a fixed-point ratio of at least one; pairs
/// holding a non-positive fix count as no move.
pub open spec fn pair_ratio(a: int, b: int) -> int {
    if a <= 0 || b <= 0 {
        SCALE as int
    } else if b > a {
        trunc_div(b * SCALE, a)
    } else {
        trunc_div(a * SCALE, b)
    }
}

/// The largest single-day move in `v`, as a fixed-point ratio (one for no move).
pub open spec fn worst_ratio(v: Seq<i128>) -> int
    decreases v.len(),
{
    if v.len() < 2 {
        SCALE as int
    } else {
        let w = worst_ratio(v.drop_last());
        let p = pair_ratio(v[v.len() - 2] as int, v[v.len() - 1] as int);
        if p > w { p } else { w }
    }
}

/// The pair of fixes on days `k` and `k + 1` is not a positive pair, or its
/// larger fix scaled to fixed point fits in an `i128`.
pub open spec fn pair_fits(v: Seq<i128>, k: int) -> bool {
    v[k] > 0 && v[k + 1] > 0 ==> (if v[k] > v[k + 1] { v[k] } else { v[k + 1] }) * SCALE <= i128::MAX
}

/// `worst_ratio` is the largest pair ratio over adjacent days, or one when
/// there is no positive pair above it.
pub proof fn lemma_worst_is_max(v: Seq<i128>)
    ensures
        worst_ratio(v) >= SCALE,
        forall|k: int| 0 <= k < v.len() - 1 ==> worst_ratio(v) >= #[trigger] pair_ratio(v[k] as int, v[k + 1] as int),
        worst_ratio(v) == SCALE || exists|k: int|
            0 <= k < v.len() - 1 && worst_ratio(v) == #[trigger] pair_ratio(v[k] as int, v[k + 1] as int),
    decreases v.len(),
{
    if v.len() >= 2 {
        let u = v.drop_last();
        lemma_worst_is_max(u);
        let j = v.len() - 2;
        assert(pair_ratio(v[j] as int, v[j + 1] as int) >= SCALE) by {
            let (a, b) = (v[j] as int, v[j + 1] as int);
            if a > 0 && b > 0 {
                if b > a {
                    assert(b * SCALE >= a * SCALE) by (nonlinear_arith) requires b > a, a > 0;
                    assert(trunc_div(b * SCALE, a) >= SCALE) by (nonlinear_arith)
                        requires b * SCALE >= a * SCALE, a > 0, trunc_div(b * SCALE, a) == (b * SCALE) / a;
                } else {
                    assert(a * SCALE >= b * SCALE) by (nonlinear_arith) requires a >= b, b > 0;
                    assert(trunc_div(a * SCALE, b) >= SCALE) by (nonlinear_arith)
                        requires a * SCALE >= b * SCALE, b > 0, trunc_div(a * SCALE, b) == (a * SCALE) / b;
                }
            }
        }
        assert forall|k: int| 0 <= k < v.len() - 1 implies worst_ratio(v) >= #[trigger] pair_ratio(
            v[k] as int,
            v[k + 1] as int,
        ) by {
            if k < j {
                assert(u[k] == v[k] && u[k + 1] == v[k + 1]);
                assert(worst_ratio(u) >= pair_ratio(u[k] as int, u[k + 1] as int));
            }
        }
        if worst_ratio(v) != SCALE {
            if worst_ratio(v) == pair_ratio(v[j] as int, v[j + 1] as int) {
                assert(0 <= j < v.len() - 1);
            } else {
                let k = choose|k: int| 0 <= k < u.len() - 1 && worst_ratio(u) == #[trigger] pair_ratio(u[k] as int, u[k + 1] as int);
                assert(u[k] == v[k] && u[k + 1] == v[k + 1]);
                assert(worst_ratio(v) == pair_ratio(v[k] as int, v[k + 1] as int));
            }
        }
    }
}

/// The largest daily move does not depend on the direction of time: the
/// series read backwards has the same worst move.
pub proof fn lemma_worst_ratio_reversal(v: Seq<i128>)
    ensures
        worst_ratio(v.reverse()) == worst_ratio(v),
{
    let r = v.reverse();
    let n = v.len() as int;
    lemma_worst_is_max(v);
    lemma_worst_is_max(r);
    assert forall|k: int| 0 <= k < n - 1 implies worst_ratio(r) >= #[trigger] pair_ratio(v[k] as int, v[k + 1] as int) by {
        let j = n - 2 - k;
        assert(r[j] == v[k + 1] && r[j + 1] == v[k]);
        assert(worst_ratio(r) >= pair_ratio(r[j] as int, r[j + 1] as int));
    }
    assert forall|k: int| 0 <= k < n - 1 implies worst_ratio(v) >= #[trigger] pair_ratio(r[k] as int, r[k + 1] as int) by {
        let j = n - 2 - k;
        assert(r[k] == v[j + 1] && r[k + 1] == v[j]);
        assert(worst_ratio(v) >= pair_ratio(v[j] as int, v[j + 1] as int));
    }
    if worst_ratio(v) != SCALE {
        let k = choose|k: int| 0 <= k < n - 1 && worst_ratio(v) == #[trigger] pair_ratio(v[k] as int, v[k + 1] as int);
        assert(worst_ratio(r) >= worst_ratio(v));
    }
    if worst_ratio(r) != SCALE {
        let k = choose|k: int| 0 <= k < n - 1 && worst_ratio(r) == #[trigger] pair_ratio(r[k] as int, r[k + 1] as int);
        assert(worst_ratio(v) >= worst_ratio(r));
    }
}

/// The largest single-day jump in a series, as a fixed-point ratio: feeds
/// glitch, and a tenfold overnight move is a data error, not a market.
pub fn max_daily_ratio(daily: &Daily) -> (r: i128)
    requires
        forall|k: int| 0 <= k < daily.values@.len() - 1 ==> #[trigger] pair_fits(daily.values@, k),
    ensures
        r == worst_ratio(daily.values@),
        r >= SCALE,
{
    let ghost v = daily.values@;
    let mut worst = SCALE;
    let n = daily.values.len();
    if n < 2 {
        return worst;
    }
    let mut i: usize = 1;
    while i < n
        invariant
            v == daily.values@,
            n == v.len(),
            1 <= i <= n,
            forall|k: int| 0 <= k < n - 1 ==> #[trigger] pair_fits(v, k),
            worst == worst_ratio(v.take(i as int)),
            worst >= SCALE,
        decreases n - i,
    {
        let a = daily.values[i - 1];
        let b = daily.values[i];
        proof {
            let t = v.take(i + 1);
            assert(t.drop_last() =~= v.take(i as int));
            assert(t[t.len() - 2] == a && t[t.len() - 1] == b);
        }
        assert(pair_fits(v, i - 1));
        if a > 0 && b > 0 {
            let ratio = if b > a { b * SCALE / a } else { a * SCALE / b };
            if ratio > worst {
                worst = ratio;
            }
        }
        i = i + 1;
    }
    assert(v.take(n as int) =~= v);
    proof {
        lemma_worst_is_max(v);
    }
    worst
}

} // verus!
