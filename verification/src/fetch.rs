//! The four feed shapes, read into series of observations.
//!
//! Each reader is stated as a walk over the characters of the response body;
//! what it keeps is sorted by day with one observation per day.

use crate::num::{
    date_slice_splits, date_slice_splits_char, fdiv, parse_date_range, parse_fixed_range, spec_parse_date,
    spec_parse_fixed, trunc_div, SCALE,
};
use crate::series::{normal_form_of, Series};
use crate::text::{
    chars_of, find_char, find_either, is_first, lemma_first_of, find_pattern, first_match, first_of, first_of_either,
    number_end, number_prefix_len, parse_i64_range, spec_parse_i64, trim, trim_range,
};
use vstd::prelude::*;

verus! {

/// Why a feed could not be read.
#[derive(Debug)]
pub enum FetchError {
    Curl(String),
    Empty(String),
    Cache(String),
    Parse(String),
}

/// What a fetch error says.
pub open spec fn fetch_error_text(e: FetchError) -> Seq<char> {
    match e {
        FetchError::Curl(m) => "curl: "@ + m@,
        FetchError::Empty(m) => "empty response: "@ + m@,
        FetchError::Cache(m) => "cache: "@ + m@,
        FetchError::Parse(m) => "parse: "@ + m@,
    }
}

impl FetchError {
    /// The error in words.
    pub fn message(&self) -> (r: String)
        ensures
            r@ == fetch_error_text(*self),
    {
        let (head, m) = match self {
            FetchError::Curl(m) => ("curl: ", m),
            FetchError::Empty(m) => ("empty response: ", m),
            FetchError::Cache(m) => ("cache: ", m),
            FetchError::Parse(m) => ("parse: ", m),
        };
        let mut out = String::from_str(head);
        out.append(m.as_str());
        out
    }
}

/// The error a reader returns when a body holds nothing usable.
pub open spec fn is_parse_error(e: FetchError, message: Seq<char>) -> bool {
    e matches FetchError::Parse(m) && m@ == message
}

/// One observation as a sequence of zero or one element.
pub open spec fn opt_seq(o: Option<(i64, i128)>) -> Seq<(i64, i128)> {
    match o {
        Some(p) => seq![p],
        None => Seq::empty(),
    }
}

/// `line` without a trailing carriage return.
pub open spec fn strip_cr(line: Seq<char>) -> Seq<char> {
    if line.len() > 0 && line.last() == '\r' { line.drop_last() } else { line }
}

// ---------------------------------------------------------------------------
// FRED: `observation_date,SERIES` csv; a missing observation is a bare dot
// ---------------------------------------------------------------------------

/// The date field of a FRED row, when the row has a second field.
pub open spec fn fred_date_field(line: Seq<char>) -> Seq<char> {
    trim(line.take(first_of(line, ',')))
}

/// The value field of a FRED row: the text between the first and second comma.
pub open spec fn fred_value_field(line: Seq<char>) -> Seq<char> {
    let rest = line.skip(first_of(line, ',') + 1);
    trim(rest.take(first_of(rest, ',')))
}

/// A FRED row reaches the date reader: it has two fields and a value that is neither empty nor `.`.
pub open spec fn fred_row_reads_date(line: Seq<char>) -> bool {
    let c = first_of(line, ',');
    let value = fred_value_field(line);
    0 <= c < line.len() && value != seq!['.'] && value.len() != 0
}

/// The observation a FRED row holds: a date, and a positive value.
pub open spec fn fred_row(line: Seq<char>) -> Option<(i64, i128)> {
    if !fred_row_reads_date(line) {
        None
    } else {
        match spec_parse_date(fred_date_field(line)) {
            None => None,
            Some(day) => match spec_parse_fixed(fred_value_field(line)) {
                Some(v) => if v > 0 { Some((day, v)) } else { None },
                None => None,
            },
        }
    }
}

/// The line of `s` that starts at its beginning, and where the next one starts.
pub open spec fn next_line(s: Seq<char>) -> (Seq<char>, int) {
    let e = first_of(s, '\n');
    if 0 <= e < s.len() { (strip_cr(s.take(e)), e + 1) } else { (s, s.len() as int) }
}

/// The observations of the FRED rows in `s`, line by line.
pub open spec fn fred_rows(s: Seq<char>) -> Seq<(i64, i128)>
    decreases s.len(),
{
    if s.len() == 0 {
        Seq::empty()
    } else {
        let (line, next) = next_line(s);
        if 0 < next <= s.len() {
            opt_seq(fred_row(line)) + fred_rows(s.skip(next))
        } else {
            Seq::empty()
        }
    }
}

/// No FRED row of `s` makes the date reader slice inside a character.
pub open spec fn fred_rows_sliceable(s: Seq<char>) -> bool
    decreases s.len(),
{
    if s.len() == 0 {
        true
    } else {
        let (line, next) = next_line(s);
        if 0 < next <= s.len() {
            (fred_row_reads_date(line) ==> !date_slice_splits_char(fred_date_field(line)))
                && fred_rows_sliceable(s.skip(next))
        } else {
            true
        }
    }
}

/// The text after the header line.
pub open spec fn after_header(body: Seq<char>) -> Seq<char> {
    let e = first_of(body, '\n');
    if 0 <= e < body.len() { body.skip(e + 1) } else { Seq::empty() }
}

/// The observations of a FRED csv body.
pub open spec fn fred_observations(body: Seq<char>) -> Seq<(i64, i128)> {
    fred_rows(after_header(body))
}

/// Reads the FRED row `v[lo..hi]`.
fn fred_row_range(v: &Vec<char>, lo: usize, hi: usize) -> (r: Option<(i64, i128)>)
    requires
        lo <= hi <= v.len(),
        fred_row_reads_date(v@.subrange(lo as int, hi as int)) ==> !date_slice_splits_char(
            fred_date_field(v@.subrange(lo as int, hi as int)),
        ),
    ensures
        r == fred_row(v@.subrange(lo as int, hi as int)),
{
    let ghost line = v@.subrange(lo as int, hi as int);
    let c1 = find_char(v, lo, hi, ',');
    if c1 == hi {
        return None;
    }
    let ghost rest = line.skip(c1 - lo + 1);
    assert(rest =~= v@.subrange(c1 + 1, hi as int));
    let c2 = find_char(v, c1 + 1, hi, ',');
    assert(rest.take(c2 - c1 - 1) =~= v@.subrange(c1 + 1, c2 as int));
    let (va, vb) = trim_range(v, c1 + 1, c2);
    if (vb - va == 1 && v[va] == '.') || va == vb {
        proof {
            if vb - va == 1 {
                assert(v@.subrange(va as int, vb as int) =~= seq!['.']);
            }
        }
        return None;
    }
    proof {
        if v@.subrange(va as int, vb as int) == seq!['.'] {
            assert(v@.subrange(va as int, vb as int)[0] == '.');
        }
    }
    assert(line.take(c1 - lo) =~= v@.subrange(lo as int, c1 as int));
    let (da, db) = trim_range(v, lo, c1);
    let day = match parse_date_range(v, da, db) {
        Some(d) => d,
        None => {
            return None;
        },
    };
    let value = match parse_fixed_range(v, va, vb) {
        Some(x) => x,
        None => {
            return None;
        },
    };
    if value > 0 {
        Some((day, value))
    } else {
        None
    }
}

/// Reads a FRED csv body: every dated row with a positive value, after the
/// header line. A body with no such row is refused.
pub fn parse_fred_csv(body: &str) -> (r: Result<Series, FetchError>)
    requires
        fred_rows_sliceable(after_header(body@)),
    ensures
        match r {
            Ok(series) => fred_observations(body@).len() > 0 && normal_form_of(series@, fred_observations(body@)),
            Err(e) => fred_observations(body@).len() == 0 && is_parse_error(e, "FRED csv held no observations"@),
        },
{
    let v = chars_of(body);
    let n = v.len();
    let h = find_char(&v, 0, n, '\n');
    assert(v@.subrange(0, n as int) =~= body@);
    let mut series = Series::new();
    let mut pos = if h < n { h + 1 } else { n };
    assert(v@.subrange(pos as int, n as int) =~= after_header(body@));
    let ghost all = fred_observations(body@);
    while pos < n
        invariant
            v@ == body@,
            n == v.len(),
            0 <= pos <= n,
            series@ + fred_rows(v@.subrange(pos as int, n as int)) == all,
            fred_rows_sliceable(v@.subrange(pos as int, n as int)),
        decreases n - pos,
    {
        let ghost s = v@.subrange(pos as int, n as int);
        let e = find_char(&v, pos, n, '\n');
        let line_end = if e < n && e > pos && v[e - 1] == '\r' { e - 1 } else { e };
        proof {
            if e < n {
                assert(strip_cr(s.take(e - pos)) =~= v@.subrange(pos as int, line_end as int));
                assert(s.skip(e - pos + 1) =~= v@.subrange(e + 1, n as int));
            } else {
                assert(s =~= v@.subrange(pos as int, line_end as int));
            }
        }
        let ghost line = v@.subrange(pos as int, line_end as int);
        let ghost next_pos: int = if e < n { e + 1 } else { n as int };
        proof {
            assert(next_line(s) == (line, next_pos - pos));
            assert(s.skip(next_pos - pos) =~= v@.subrange(next_pos, n as int));
            assert(fred_rows(s) == opt_seq(fred_row(line)) + fred_rows(v@.subrange(next_pos, n as int)));
        }
        let ghost old_series = series@;
        let row = fred_row_range(&v, pos, line_end);
        match row {
            Some((day, value)) => {
                series.push(day, value);
            },
            None => {},
        }
        proof {
            assert(series@ == old_series + opt_seq(fred_row(line)));
            assert(series@ + fred_rows(v@.subrange(next_pos, n as int)) =~= all);
        }
        pos = if e < n { e + 1 } else { n };
    }
    assert(fred_rows(v@.subrange(n as int, n as int)) =~= Seq::<(i64, i128)>::empty());
    assert(series@ =~= all);
    if series.is_empty() {
        return Err(FetchError::Parse(String::from_str("FRED csv held no observations")));
    }
    let ghost before = series@;
    series.normalise();
    Ok(series)
}

/// Whether the FRED row `v[lo..hi]` can be read without slicing a date
/// inside a character.
fn fred_row_date_ok(v: &Vec<char>, lo: usize, hi: usize) -> (b: bool)
    requires
        lo <= hi <= v.len(),
    ensures
        b == (fred_row_reads_date(v@.subrange(lo as int, hi as int)) ==> !date_slice_splits_char(
            fred_date_field(v@.subrange(lo as int, hi as int)),
        )),
{
    let ghost line = v@.subrange(lo as int, hi as int);
    let c1 = find_char(v, lo, hi, ',');
    if c1 == hi {
        return true;
    }
    let ghost rest = line.skip(c1 - lo + 1);
    assert(rest =~= v@.subrange(c1 + 1, hi as int));
    let c2 = find_char(v, c1 + 1, hi, ',');
    assert(rest.take(c2 - c1 - 1) =~= v@.subrange(c1 + 1, c2 as int));
    let (va, vb) = trim_range(v, c1 + 1, c2);
    if (vb - va == 1 && v[va] == '.') || va == vb {
        proof {
            if vb - va == 1 {
                assert(v@.subrange(va as int, vb as int) =~= seq!['.']);
            }
        }
        return true;
    }
    proof {
        if v@.subrange(va as int, vb as int) == seq!['.'] {
            assert(v@.subrange(va as int, vb as int)[0] == '.');
        }
    }
    assert(line.take(c1 - lo) =~= v@.subrange(lo as int, c1 as int));
    let (da, db) = trim_range(v, lo, c1);
    proof {
        assert(first_of(line, ',') == c1 - lo);
        assert(line.skip(c1 - lo + 1) == rest);
        assert(first_of(rest, ',') == c2 - c1 - 1) by {
            assert(rest =~= v@.subrange(c1 + 1, hi as int));
        }
        assert(fred_value_field(line) == v@.subrange(va as int, vb as int));
        assert(v@.subrange(va as int, vb as int).len() != 0);
        assert(fred_row_reads_date(line));
        assert(fred_date_field(line) == v@.subrange(da as int, db as int));
    }
    !date_slice_splits(v, da, db)
}

/// Whether every row of a FRED csv body can be read without slicing a date
/// inside a character: the condition [`parse_fred_csv`] needs.
pub fn fred_body_readable(body: &str) -> (b: bool)
    ensures
        b == fred_rows_sliceable(after_header(body@)),
{
    let v = chars_of(body);
    let n = v.len();
    let h = find_char(&v, 0, n, '\n');
    assert(v@.subrange(0, n as int) =~= body@);
    let mut pos = if h < n { h + 1 } else { n };
    assert(v@.subrange(pos as int, n as int) =~= after_header(body@));
    while pos < n
        invariant
            v@ == body@,
            n == v.len(),
            0 <= pos <= n,
            fred_rows_sliceable(after_header(body@)) == fred_rows_sliceable(v@.subrange(pos as int, n as int)),
        decreases n - pos,
    {
        let ghost s = v@.subrange(pos as int, n as int);
        let e = find_char(&v, pos, n, '\n');
        let line_end = if e < n && e > pos && v[e - 1] == '\r' { e - 1 } else { e };
        proof {
            if e < n {
                assert(strip_cr(s.take(e - pos)) =~= v@.subrange(pos as int, line_end as int));
                assert(s.skip(e - pos + 1) =~= v@.subrange(e + 1, n as int));
            } else {
                assert(s =~= v@.subrange(pos as int, line_end as int));
            }
        }
        let ghost line = v@.subrange(pos as int, line_end as int);
        let ghost next_pos: int = if e < n { e + 1 } else { n as int };
        proof {
            assert(next_line(s) == (line, next_pos - pos));
            assert(s.skip(next_pos - pos) =~= v@.subrange(next_pos, n as int));
        }
        if !fred_row_date_ok(&v, pos, line_end) {
            return false;
        }
        pos = if e < n { e + 1 } else { n };
    }
    proof {
        assert(v@.subrange(n as int, n as int).len() == 0);
    }
    true
}

// ---------------------------------------------------------------------------
// LBMA: [{"d":"1968-04-01","v":[37.7,15.68,null]}, ...] -- v[0] is the USD fix
// ---------------------------------------------------------------------------

/// What opens a date in the LBMA feed: `"d":"`.
pub open spec fn lbma_date_key() -> Seq<char> {
    seq!['"', 'd', '"', ':', '"']
}

/// What opens the fixes in the LBMA feed: `"v":[`.
pub open spec fn lbma_values_key() -> Seq<char> {
    seq!['"', 'v', '"', ':', '[']
}

/// The date text of an LBMA entry, when it is closed by a quote.
pub open spec fn lbma_date_field(chunk: Seq<char>) -> Seq<char> {
    chunk.take(first_of(chunk, '"'))
}

/// An LBMA entry reaches the date reader: its date is closed by a quote.
pub open spec fn lbma_reads_date(chunk: Seq<char>) -> bool {
    let q = first_of(chunk, '"');
    0 <= q < chunk.len()
}

/// The observation an LBMA entry holds: its date and its first fix, when positive.
pub open spec fn lbma_row(chunk: Seq<char>) -> Option<(i64, i128)> {
    if !lbma_reads_date(chunk) {
        None
    } else {
        let q = first_of(chunk, '"');
        let rest = chunk.skip(q + 1);
        match spec_parse_date(chunk.take(q)) {
            None => None,
            Some(day) => {
                let k = first_match(rest, lbma_values_key());
                if !(0 <= k && k + 5 <= rest.len()) {
                    None
                } else {
                    let values = rest.skip(k + 5);
                    let f = first_of_either(values, ',', ']');
                    if !(0 <= f < values.len()) {
                        None
                    } else {
                        match spec_parse_fixed(values.take(f)) {
                            Some(v) => if v > 0 { Some((day, v)) } else { None },
                            None => None,
                        }
                    }
                }
            },
        }
    }
}

/// The entry of `s` up to the next date key, and where the text after that key starts.
pub open spec fn next_chunk(s: Seq<char>) -> (Seq<char>, int) {
    let m = first_match(s, lbma_date_key());
    if 0 <= m && m + 5 <= s.len() { (s.take(m), m + 5) } else { (s, s.len() + 1int) }
}

/// The observations of the LBMA entries in `s`, which starts just after a date key.
pub open spec fn lbma_chunks(s: Seq<char>) -> Seq<(i64, i128)>
    decreases s.len(),
{
    let (chunk, next) = next_chunk(s);
    let row = opt_seq(lbma_row(chunk));
    if 0 < next <= s.len() { row + lbma_chunks(s.skip(next)) } else { row }
}

/// No LBMA entry of `s` makes the date reader slice inside a character.
pub open spec fn lbma_chunks_sliceable(s: Seq<char>) -> bool
    decreases s.len(),
{
    let (chunk, next) = next_chunk(s);
    let ok = lbma_reads_date(chunk) ==> !date_slice_splits_char(lbma_date_field(chunk));
    if 0 < next <= s.len() { ok && lbma_chunks_sliceable(s.skip(next)) } else { ok }
}

/// The text after the first date key, when there is one.
pub open spec fn after_first_date_key(body: Seq<char>) -> Option<Seq<char>> {
    let m = first_match(body, lbma_date_key());
    if 0 <= m && m + 5 <= body.len() { Some(body.skip(m + 5)) } else { None }
}

/// The observations of an LBMA body.
pub open spec fn lbma_observations(body: Seq<char>) -> Seq<(i64, i128)> {
    match after_first_date_key(body) {
        Some(s) => lbma_chunks(s),
        None => Seq::empty(),
    }
}

/// Reads the LBMA entry `v[lo..hi]`.
fn lbma_row_range(v: &Vec<char>, lo: usize, hi: usize, values_key: &Vec<char>) -> (r: Option<(i64, i128)>)
    requires
        lo <= hi <= v.len(),
        values_key@ == lbma_values_key(),
        lbma_reads_date(v@.subrange(lo as int, hi as int)) ==> !date_slice_splits_char(
            lbma_date_field(v@.subrange(lo as int, hi as int)),
        ),
    ensures
        r == lbma_row(v@.subrange(lo as int, hi as int)),
{
    let ghost chunk = v@.subrange(lo as int, hi as int);
    let q = find_char(v, lo, hi, '"');
    if q == hi {
        return None;
    }
    assert(chunk.take(q - lo) =~= v@.subrange(lo as int, q as int));
    let day = match parse_date_range(v, lo, q) {
        Some(d) => d,
        None => {
            return None;
        },
    };
    let ghost rest = chunk.skip(q - lo + 1);
    assert(rest =~= v@.subrange(q + 1, hi as int));
    let k = find_pattern(v, q + 1, hi, values_key);
    if k == hi || hi - k < 5 {
        return None;
    }
    let ghost values = rest.skip(k - q - 1 + 5);
    assert(values =~= v@.subrange(k + 5, hi as int));
    let f = find_either(v, k + 5, hi, ',', ']');
    if f == hi {
        return None;
    }
    assert(values.take(f - k - 5) =~= v@.subrange(k + 5, f as int));
    let x = match parse_fixed_range(v, k + 5, f) {
        Some(x) => x,
        None => {
            return None;
        },
    };
    if x > 0 {
        Some((day, x))
    } else {
        None
    }
}

/// Reads an LBMA gold fix body: the first (USD) fix of every dated entry,
/// when positive. A body with no such entry is refused.
pub fn parse_lbma(body: &str) -> (r: Result<Series, FetchError>)
    requires
        after_first_date_key(body@) matches Some(s) ==> lbma_chunks_sliceable(s),
    ensures
        match r {
            Ok(series) => lbma_observations(body@).len() > 0 && normal_form_of(series@, lbma_observations(body@)),
            Err(e) => lbma_observations(body@).len() == 0 && is_parse_error(e, "LBMA json held no fixes"@),
        },
{
    let v = chars_of(body);
    let n = v.len();
    let date_key = vec!['"', 'd', '"', ':', '"'];
    let values_key = vec!['"', 'v', '"', ':', '['];
    assert(date_key@ =~= lbma_date_key());
    assert(values_key@ =~= lbma_values_key());
    assert(v@.subrange(0, n as int) =~= body@);
    let mut series = Series::new();
    let m0 = find_pattern(&v, 0, n, &date_key);
    if m0 < n && n - m0 >= 5 {
        let ghost all = lbma_observations(body@);
        let mut pos = m0 + 5;
        assert(v@.subrange(pos as int, n as int) =~= body@.skip(m0 + 5));
        loop
            invariant_except_break
                series@ + lbma_chunks(v@.subrange(pos as int, n as int)) == all,
            invariant
                v@ == body@,
                n == v.len(),
                date_key@ == lbma_date_key(),
                values_key@ == lbma_values_key(),
                0 <= pos <= n,
                lbma_chunks_sliceable(v@.subrange(pos as int, n as int)),
            ensures
                series@ == all,
            decreases n - pos,
        {
            let ghost s = v@.subrange(pos as int, n as int);
            let m = find_pattern(&v, pos, n, &date_key);
            let found = m < n && n - m >= 5;
            let chunk_end = if found { m } else { n };
            let ghost next: int = if found { m + 5 - pos } else { s.len() + 1int };
            proof {
                if found {
                    assert(s.take(m - pos) =~= v@.subrange(pos as int, chunk_end as int));
                    assert(s.skip(next) =~= v@.subrange(m + 5, n as int));
                } else {
                    assert(s =~= v@.subrange(pos as int, chunk_end as int));
                }
                assert(next_chunk(s) == (v@.subrange(pos as int, chunk_end as int), next));
            }
            let ghost old_series = series@;
            match lbma_row_range(&v, pos, chunk_end, &values_key) {
                Some((day, x)) => {
                    series.push(day, x);
                },
                None => {},
            }
            if !found {
                proof {
                    assert(series@ =~= all);
                }
                break;
            }
            proof {
                assert(series@ + lbma_chunks(v@.subrange(m + 5, n as int)) =~= all);
            }
            pos = m + 5;
        }
    }
    if series.is_empty() {
        return Err(FetchError::Parse(String::from_str("LBMA json held no fixes")));
    }
    series.normalise();
    Ok(series)
}

/// Whether the LBMA entry `v[lo..hi]` can be read without slicing a date
/// inside a character.
fn lbma_row_date_ok(v: &Vec<char>, lo: usize, hi: usize) -> (b: bool)
    requires
        lo <= hi <= v.len(),
    ensures
        b == (lbma_reads_date(v@.subrange(lo as int, hi as int)) ==> !date_slice_splits_char(
            lbma_date_field(v@.subrange(lo as int, hi as int)),
        )),
{
    let ghost chunk = v@.subrange(lo as int, hi as int);
    let q = find_char(v, lo, hi, '"');
    if q == hi {
        return true;
    }
    assert(chunk.take(q - lo) =~= v@.subrange(lo as int, q as int));
    !date_slice_splits(v, lo, q)
}

/// Whether every entry of an LBMA body can be read without slicing a date
/// inside a character: the condition [`parse_lbma`] needs.
pub fn lbma_body_readable(body: &str) -> (b: bool)
    ensures
        b == (after_first_date_key(body@) matches Some(s) ==> lbma_chunks_sliceable(s)),
{
    let v = chars_of(body);
    let n = v.len();
    let date_key = vec!['"', 'd', '"', ':', '"'];
    assert(date_key@ =~= lbma_date_key());
    assert(v@.subrange(0, n as int) =~= body@);
    let m0 = find_pattern(&v, 0, n, &date_key);
    if !(m0 < n && n - m0 >= 5) {
        return true;
    }
    let mut pos = m0 + 5;
    assert(v@.subrange(pos as int, n as int) =~= body@.skip(m0 + 5));
    loop
        invariant
            v@ == body@,
            n == v.len(),
            date_key@ == lbma_date_key(),
            0 <= pos <= n,
            after_first_date_key(body@) == Some(body@.skip(m0 + 5)),
            lbma_chunks_sliceable(body@.skip(m0 + 5)) == lbma_chunks_sliceable(v@.subrange(pos as int, n as int)),
        decreases n - pos,
    {
        let ghost s = v@.subrange(pos as int, n as int);
        let m = find_pattern(&v, pos, n, &date_key);
        let found = m < n && n - m >= 5;
        let chunk_end = if found { m } else { n };
        let ghost next: int = if found { m + 5 - pos } else { s.len() + 1int };
        proof {
            if found {
                assert(s.take(m - pos) =~= v@.subrange(pos as int, chunk_end as int));
                assert(s.skip(next) =~= v@.subrange(m + 5, n as int));
            } else {
                assert(s =~= v@.subrange(pos as int, chunk_end as int));
            }
            assert(next_chunk(s) == (v@.subrange(pos as int, chunk_end as int), next));
        }
        let ok = lbma_row_date_ok(&v, pos, chunk_end);
        if !ok {
            return false;
        }
        if !found {
            return true;
        }
        pos = m + 5;
    }
}

// ---------------------------------------------------------------------------
// Frankfurter (ECB): {"rates":{"2016-01-04":{"CNY":6.534}, ...}} -- CNY per
// USD; the leg holds yuan, so it is the reciprocal, the USD price of a yuan
// ---------------------------------------------------------------------------

/// What opens the rates in the Frankfurter feed: `"rates":{`.
pub open spec fn rates_key() -> Seq<char> {
    seq!['"', 'r', 'a', 't', 'e', 's', '"', ':', '{']
}

/// What precedes the yuan rate in an entry: `CNY":`.
pub open spec fn cny_key() -> Seq<char> {
    seq!['C', 'N', 'Y', '"', ':']
}

/// The next quoted token of `s`: the token, and where the text after its closing quote starts.
pub open spec fn next_token(s: Seq<char>) -> Option<(Seq<char>, int)> {
    let open = first_of(s, '"');
    if !(0 <= open < s.len()) {
        None
    } else {
        let after = s.skip(open + 1);
        let close = first_of(after, '"');
        if !(0 <= close < after.len()) {
            None
        } else {
            Some((after.take(close), open + close + 2))
        }
    }
}

/// The USD price of a yuan an entry holds, read from the text after its date token.
pub open spec fn frankfurter_rate(tail: Seq<char>) -> Option<i128> {
    let entry = tail.take(first_of(tail, '}'));
    let k = first_match(entry, cny_key());
    if !(0 <= k && k + 5 <= entry.len()) {
        None
    } else {
        let after_key = entry.skip(k + 5);
        match spec_parse_fixed(after_key.take(number_prefix_len(after_key))) {
            None => None,
            Some(rate) => if rate == 0 {
                None
            } else {
                let usd = trunc_div(SCALE * SCALE, rate as int);
                if usd > 0 { Some(usd as i128) } else { None }
            },
        }
    }
}

/// The observations of the Frankfurter entries in `s`, token by token.
pub open spec fn frankfurter_walk(s: Seq<char>) -> Seq<(i64, i128)>
    decreases s.len(),
{
    match next_token(s) {
        None => Seq::empty(),
        Some((token, next)) => {
            let tail = s.skip(next);
            let row = match spec_parse_date(token) {
                None => Seq::empty(),
                Some(day) => match frankfurter_rate(tail) {
                    Some(usd) => seq![(day, usd)],
                    None => Seq::empty(),
                },
            };
            if 0 < next <= s.len() { row + frankfurter_walk(tail) } else { row }
        },
    }
}

/// No token of `s` makes the date reader slice inside a character.
pub open spec fn frankfurter_sliceable(s: Seq<char>) -> bool
    decreases s.len(),
{
    match next_token(s) {
        None => true,
        Some((token, next)) => !date_slice_splits_char(token) && (0 < next <= s.len() ==> frankfurter_sliceable(s.skip(next))),
    }
}

/// The text after the rates key, when there is one.
pub open spec fn frankfurter_rates(body: Seq<char>) -> Option<Seq<char>> {
    let m = first_match(body, rates_key());
    if 0 <= m && m + 9 <= body.len() { Some(body.skip(m + 9)) } else { None }
}

/// Reads the yuan rate of the entry whose text after the date token is `v[lo..hi]`.
fn frankfurter_rate_range(v: &Vec<char>, lo: usize, hi: usize, key: &Vec<char>) -> (r: Option<i128>)
    requires
        lo <= hi <= v.len(),
        key@ == cny_key(),
    ensures
        r == frankfurter_rate(v@.subrange(lo as int, hi as int)),
{
    let ghost tail = v@.subrange(lo as int, hi as int);
    let close = find_char(v, lo, hi, '}');
    let ghost entry = tail.take(close - lo);
    assert(entry =~= v@.subrange(lo as int, close as int));
    let k = find_pattern(v, lo, close, key);
    if k == close || close - k < 5 {
        return None;
    }
    let ghost after_key = entry.skip(k - lo + 5);
    assert(after_key =~= v@.subrange(k + 5, close as int));
    let e = number_end(v, k + 5, close);
    assert(after_key.take(e - k - 5) =~= v@.subrange(k + 5, e as int));
    let rate = match parse_fixed_range(v, k + 5, e) {
        Some(x) => x,
        None => {
            return None;
        },
    };
    let usd = match fdiv(SCALE, rate) {
        Some(u) => u,
        None => {
            return None;
        },
    };
    if usd > 0 {
        Some(usd)
    } else {
        None
    }
}

/// Reads a Frankfurter body: the USD price of one yuan on every dated entry
/// that quotes a rate, when positive. A body without a rates object, or with
/// no usable rate, is refused.
pub fn parse_frankfurter_cny(body: &str) -> (r: Result<Series, FetchError>)
    requires
        frankfurter_rates(body@) matches Some(s) ==> frankfurter_sliceable(s),
    ensures
        match frankfurter_rates(body@) {
            None => r matches Err(e) && is_parse_error(e, "frankfurter json had no rates"@),
            Some(s) => match r {
                Ok(series) => frankfurter_walk(s).len() > 0 && normal_form_of(series@, frankfurter_walk(s)),
                Err(e) => frankfurter_walk(s).len() == 0 && is_parse_error(e, "frankfurter json held no CNY rates"@),
            },
        },
{
    let v = chars_of(body);
    let n = v.len();
    let rates = vec!['"', 'r', 'a', 't', 'e', 's', '"', ':', '{'];
    let cny = vec!['C', 'N', 'Y', '"', ':'];
    assert(rates@ =~= rates_key());
    assert(cny@ =~= cny_key());
    assert(v@.subrange(0, n as int) =~= body@);
    let m0 = find_pattern(&v, 0, n, &rates);
    if m0 == n || n - m0 < 9 {
        return Err(FetchError::Parse(String::from_str("frankfurter json had no rates")));
    }
    let ghost all = frankfurter_walk(body@.skip(m0 + 9));
    let mut series = Series::new();
    let mut pos = m0 + 9;
    assert(v@.subrange(pos as int, n as int) =~= body@.skip(m0 + 9));
    loop
        invariant_except_break
            series@ + frankfurter_walk(v@.subrange(pos as int, n as int)) == all,
        invariant
            v@ == body@,
            n == v.len(),
            cny@ == cny_key(),
            0 <= pos <= n,
            frankfurter_sliceable(v@.subrange(pos as int, n as int)),
        ensures
            series@ == all,
        decreases n - pos,
    {
        let ghost s = v@.subrange(pos as int, n as int);
        let open = find_char(&v, pos, n, '"');
        if open == n {
            proof {
                assert(next_token(s) is None);
                assert(series@ =~= all);
            }
            break;
        }
        let ghost after = s.skip(open - pos + 1);
        assert(after =~= v@.subrange(open + 1, n as int));
        let close = find_char(&v, open + 1, n, '"');
        if close == n {
            proof {
                assert(next_token(s) is None);
                assert(series@ =~= all);
            }
            break;
        }
        let ghost token = v@.subrange(open + 1, close as int);
        let ghost tail = v@.subrange(close + 1, n as int);
        proof {
            assert(after.take(close - open - 1) =~= token);
            assert(next_token(s) == Some((token, close + 1 - pos)));
            assert(s.skip(close + 1 - pos) =~= tail);
        }
        let ghost old_series = series@;
        match parse_date_range(&v, open + 1, close) {
            Some(day) => {
                match frankfurter_rate_range(&v, close + 1, n, &cny) {
                    Some(usd) => {
                        series.push(day, usd);
                    },
                    None => {},
                }
            },
            None => {},
        }
        proof {
            assert(series@ + frankfurter_walk(tail) =~= all);
        }
        pos = close + 1;
    }
    if series.is_empty() {
        return Err(FetchError::Parse(String::from_str("frankfurter json held no CNY rates")));
    }
    series.normalise();
    Ok(series)
}

/// Whether every date token of a Frankfurter body can be read without
/// slicing it inside a character: the condition [`parse_frankfurter_cny`] needs.
pub fn frankfurter_body_readable(body: &str) -> (b: bool)
    ensures
        b == (frankfurter_rates(body@) matches Some(s) ==> frankfurter_sliceable(s)),
{
    let v = chars_of(body);
    let n = v.len();
    let rates = vec!['"', 'r', 'a', 't', 'e', 's', '"', ':', '{'];
    assert(rates@ =~= rates_key());
    assert(v@.subrange(0, n as int) =~= body@);
    let m0 = find_pattern(&v, 0, n, &rates);
    if m0 == n || n - m0 < 9 {
        return true;
    }
    let mut pos = m0 + 9;
    assert(v@.subrange(pos as int, n as int) =~= body@.skip(m0 + 9));
    loop
        invariant
            v@ == body@,
            n == v.len(),
            0 <= pos <= n,
            frankfurter_rates(body@) == Some(body@.skip(m0 + 9)),
            frankfurter_sliceable(body@.skip(m0 + 9)) == frankfurter_sliceable(v@.subrange(pos as int, n as int)),
        decreases n - pos,
    {
        let ghost s = v@.subrange(pos as int, n as int);
        let open = find_char(&v, pos, n, '"');
        if open == n {
            proof {
                assert(next_token(s) is None);
            }
            return true;
        }
        let ghost after = s.skip(open - pos + 1);
        assert(after =~= v@.subrange(open + 1, n as int));
        let close = find_char(&v, open + 1, n, '"');
        if close == n {
            proof {
                assert(next_token(s) is None);
            }
            return true;
        }
        let ghost token = v@.subrange(open + 1, close as int);
        let ghost tail = v@.subrange(close + 1, n as int);
        proof {
            assert(after.take(close - open - 1) =~= token);
            assert(next_token(s) == Some((token, close + 1 - pos)));
            assert(s.skip(close + 1 - pos) =~= tail);
        }
        if date_slice_splits(&v, open + 1, close) {
            return false;
        }
        pos = close + 1;
    }
}

// ---------------------------------------------------------------------------
// Coinbase Exchange: [[time, low, high, open, close, volume], ...]
// ---------------------------------------------------------------------------

/// The `k`-th comma-separated field of `s`, when `s` has that many.
pub open spec fn nth_field(s: Seq<char>, k: nat) -> Option<Seq<char>>
    decreases k,
{
    let c = first_of(s, ',');
    if k == 0 {
        Some(s.take(c))
    } else if 0 <= c < s.len() {
        nth_field(s.skip(c + 1), (k - 1) as nat)
    } else {
        None
    }
}

/// The observation a candle holds: the day its timestamp falls on, and its close, when positive.
pub open spec fn candle_row(candle: Seq<char>) -> Option<(i64, i128)> {
    let e = first_of(candle, ']');
    if !(0 <= e < candle.len()) {
        None
    } else {
        let fields = candle.take(e);
        match (nth_field(fields, 0), nth_field(fields, 4)) {
            (Some(f0), Some(f4)) => match (spec_parse_i64(trim(f0)), spec_parse_fixed(trim(f4))) {
                (Some(ts), Some(close)) => if close > 0 {
                    Some(((ts as int / 86_400) as i64, close))
                } else {
                    None
                },
                _ => None,
            },
            _ => None,
        }
    }
}

/// A field of a candle as it stands between commas: no comma and no closing bracket.
pub open spec fn plain_field(f: Seq<char>) -> bool {
    forall|i: int| 0 <= i < f.len() ==> #[trigger] f[i] != ',' && f[i] != ']'
}

/// A candle written from its six fields, `[time, low, high, open, close, volume]`
/// without the opening bracket, closed by `]`.
pub open spec fn candle_text(
    time: Seq<char>,
    low: Seq<char>,
    high: Seq<char>,
    open: Seq<char>,
    close: Seq<char>,
    volume: Seq<char>,
) -> Seq<char> {
    time + seq![','] + low + seq![','] + high + seq![','] + open + seq![','] + close + seq![','] + volume + seq![']']
}

proof fn lemma_field_then(a: Seq<char>, b: Seq<char>, k: nat)
    requires
        plain_field(a),
    ensures
        nth_field(a + seq![','] + b, 0) == Some(a),
        k > 0 ==> nth_field(a + seq![','] + b, k) == nth_field(b, (k - 1) as nat),
{
    let s = a + seq![','] + b;
    assert forall|j: int| 0 <= j < a.len() implies s[j] != ',' by {
        assert(s[j] == a[j]);
    }
    assert(is_first(s, ',', a.len() as int));
    lemma_first_of(s, ',', a.len() as int);
    assert(s.take(a.len() as int) =~= a);
    assert(s.skip((a.len() + 1) as int) =~= b);
}

proof fn lemma_last_field(a: Seq<char>)
    requires
        plain_field(a),
    ensures
        nth_field(a, 0) == Some(a),
{
    assert(is_first(a, ',', a.len() as int));
    lemma_first_of(a, ',', a.len() as int);
    assert(a.take(a.len() as int) =~= a);
}

/// A candle reads as its close: whatever its low, high, open and volume, a
/// candle gives the day its timestamp falls on and the fifth field, the
/// close, when both read and the close is positive, and nothing otherwise.
pub proof fn lemma_candle_reads_close(
    time: Seq<char>,
    low: Seq<char>,
    high: Seq<char>,
    open: Seq<char>,
    close: Seq<char>,
    volume: Seq<char>,
    rest: Seq<char>,
)
    requires
        plain_field(time),
        plain_field(low),
        plain_field(high),
        plain_field(open),
        plain_field(close),
        plain_field(volume),
    ensures
        candle_row(candle_text(time, low, high, open, close, volume) + rest) == (match (
            spec_parse_i64(trim(time)),
            spec_parse_fixed(trim(close)),
        ) {
            (Some(ts), Some(c)) => if c > 0 { Some(((ts as int / 86_400) as i64, c)) } else { None },
            _ => None,
        }),
{
    let f5 = volume;
    let f4 = close + seq![','] + f5;
    let f3 = open + seq![','] + f4;
    let f2 = high + seq![','] + f3;
    let f1 = low + seq![','] + f2;
    let fields = time + seq![','] + f1;
    let c = candle_text(time, low, high, open, close, volume) + rest;
    assert(c =~= fields + seq![']'] + rest);
    assert forall|j: int| 0 <= j < fields.len() implies c[j] != ']' by {
        assert(c[j] == fields[j]);
        let (l0, l1, l2, l3, l4) = (time.len() as int, low.len() as int, high.len() as int, open.len() as int, close.len() as int);
        if j < l0 {
            assert(fields[j] == time[j]);
        } else if j == l0 {
        } else if j < l0 + 1 + l1 {
            assert(fields[j] == low[j - l0 - 1]);
        } else if j == l0 + 1 + l1 {
        } else if j < l0 + 2 + l1 + l2 {
            assert(fields[j] == high[j - l0 - 2 - l1]);
        } else if j == l0 + 2 + l1 + l2 {
        } else if j < l0 + 3 + l1 + l2 + l3 {
            assert(fields[j] == open[j - l0 - 3 - l1 - l2]);
        } else if j == l0 + 3 + l1 + l2 + l3 {
        } else if j < l0 + 4 + l1 + l2 + l3 + l4 {
            assert(fields[j] == close[j - l0 - 4 - l1 - l2 - l3]);
        } else if j == l0 + 4 + l1 + l2 + l3 + l4 {
        } else {
            assert(fields[j] == volume[j - l0 - 5 - l1 - l2 - l3 - l4]);
        }
    }
    assert(is_first(c, ']', fields.len() as int));
    lemma_first_of(c, ']', fields.len() as int);
    assert(c.take(fields.len() as int) =~= fields);
    lemma_field_then(time, f1, 0);
    lemma_field_then(time, f1, 4);
    lemma_field_then(low, f2, 3);
    lemma_field_then(high, f3, 2);
    lemma_field_then(open, f4, 1);
    lemma_field_then(close, f5, 0);
}

/// The observations of the candles in `s`, which starts just after an opening bracket.
pub open spec fn candle_walk(s: Seq<char>) -> Seq<(i64, i128)>
    decreases s.len(),
{
    let p = first_of(s, '[');
    if 0 <= p < s.len() {
        opt_seq(candle_row(s.take(p))) + candle_walk(s.skip(p + 1))
    } else {
        opt_seq(candle_row(s))
    }
}

/// The array body: the trimmed text without its outer brackets, when it has both.
pub open spec fn candle_array(body: Seq<char>) -> Seq<char> {
    let t = trim(body);
    if t.len() >= 2 && t[0] == '[' && t.last() == ']' { t.subrange(1, t.len() - 1) } else { t }
}

/// The observations of a Coinbase candles body.
pub open spec fn candle_observations(body: Seq<char>) -> Seq<(i64, i128)> {
    let inner = candle_array(body);
    let p = first_of(inner, '[');
    if 0 <= p < inner.len() { candle_walk(inner.skip(p + 1)) } else { Seq::empty() }
}

/// Reads field `k` of `v[lo..hi]`, as bounds into `v`.
fn field_range(v: &Vec<char>, lo: usize, hi: usize, k: usize) -> (r: Option<(usize, usize)>)
    requires
        lo <= hi <= v.len(),
    ensures
        match r {
            Some((a, b)) => lo <= a <= b <= hi && nth_field(v@.subrange(lo as int, hi as int), k as nat)
                == Some(v@.subrange(a as int, b as int)),
            None => nth_field(v@.subrange(lo as int, hi as int), k as nat) is None,
        },
    decreases k,
{
    let ghost s = v@.subrange(lo as int, hi as int);
    let c = find_char(v, lo, hi, ',');
    if k == 0 {
        assert(s.take(c - lo) =~= v@.subrange(lo as int, c as int));
        return Some((lo, c));
    }
    if c == hi {
        return None;
    }
    assert(s.skip(c - lo + 1) =~= v@.subrange(c + 1, hi as int));
    field_range(v, c + 1, hi, k - 1)
}

/// Reads the candle `v[lo..hi]`.
fn candle_row_range(v: &Vec<char>, lo: usize, hi: usize) -> (r: Option<(i64, i128)>)
    requires
        lo <= hi <= v.len(),
    ensures
        r == candle_row(v@.subrange(lo as int, hi as int)),
{
    let ghost candle = v@.subrange(lo as int, hi as int);
    let e = find_char(v, lo, hi, ']');
    if e == hi {
        return None;
    }
    assert(candle.take(e - lo) =~= v@.subrange(lo as int, e as int));
    let (a0, b0) = match field_range(v, lo, e, 0) {
        Some(f) => f,
        None => {
            return None;
        },
    };
    let (a4, b4) = match field_range(v, lo, e, 4) {
        Some(f) => f,
        None => {
            return None;
        },
    };
    let (t0, t1) = trim_range(v, a0, b0);
    let ts = match parse_i64_range(v, t0, t1) {
        Some(t) => t,
        None => {
            return None;
        },
    };
    let (c0, c1) = trim_range(v, a4, b4);
    let close = match parse_fixed_range(v, c0, c1) {
        Some(c) => c,
        None => {
            return None;
        },
    };
    if close > 0 {
        let day = if ts >= 0 { ts / 86_400 } else { -((-(ts as i128) + 86_399) / 86_400) as i64 };
        proof {
            if ts < 0 {
                crate::calendar::lemma_div_is(ts as int, 86_400, ts as int / 86_400);
                crate::calendar::lemma_div_is(-(ts as int) + 86_399, 86_400, (-(ts as int) + 86_399) / 86_400);
            }
        }
        assert(day == ts as int / 86_400);
        Some((day, close))
    } else {
        None
    }
}

/// Reads a Coinbase candles body: the close of every candle, on the day its
/// timestamp falls in, when positive. A body with no such candle is refused.
pub fn parse_coinbase_candles(body: &str) -> (r: Result<Series, FetchError>)
    ensures
        match r {
            Ok(series) => candle_observations(body@).len() > 0 && normal_form_of(series@, candle_observations(body@)),
            Err(e) => candle_observations(body@).len() == 0 && is_parse_error(e, "coinbase returned no candles"@),
        },
{
    let v = chars_of(body);
    let n = v.len();
    assert(v@.subrange(0, n as int) =~= body@);
    let (ta, tb) = trim_range(&v, 0, n);
    let (lo, hi) = if tb - ta >= 2 && v[ta] == '[' && v[tb - 1] == ']' { (ta + 1, tb - 1) } else { (ta, tb) };
    proof {
        let t = v@.subrange(ta as int, tb as int);
        if tb - ta >= 2 && v@[ta as int] == '[' && v@[tb - 1] == ']' {
            assert(t.subrange(1, t.len() - 1) =~= v@.subrange(lo as int, hi as int));
        }
        assert(candle_array(body@) == v@.subrange(lo as int, hi as int));
    }
    let ghost inner = v@.subrange(lo as int, hi as int);
    let mut series = Series::new();
    let p0 = find_char(&v, lo, hi, '[');
    if p0 < hi {
        let ghost all = candle_walk(inner.skip(p0 - lo + 1));
        let mut pos = p0 + 1;
        assert(v@.subrange(pos as int, hi as int) =~= inner.skip(p0 - lo + 1));
        loop
            invariant_except_break
                series@ + candle_walk(v@.subrange(pos as int, hi as int)) == all,
            invariant
                lo <= pos <= hi <= v.len(),
            ensures
                series@ == all,
            decreases hi - pos,
        {
            let ghost s = v@.subrange(pos as int, hi as int);
            let p = find_char(&v, pos, hi, '[');
            let ghost old_series = series@;
            if p < hi {
                proof {
                    assert(s.take(p - pos) =~= v@.subrange(pos as int, p as int));
                    assert(s.skip(p - pos + 1) =~= v@.subrange(p + 1, hi as int));
                }
                match candle_row_range(&v, pos, p) {
                    Some((day, close)) => {
                        series.push(day, close);
                    },
                    None => {},
                }
                proof {
                    assert(series@ + candle_walk(v@.subrange(p + 1, hi as int)) =~= all);
                }
                pos = p + 1;
            } else {
                match candle_row_range(&v, pos, hi) {
                    Some((day, close)) => {
                        series.push(day, close);
                    },
                    None => {},
                }
                proof {
                    assert(series@ =~= all);
                }
                break;
            }
        }
    }
    if series.is_empty() {
        return Err(FetchError::Parse(String::from_str("coinbase returned no candles")));
    }
    series.normalise();
    Ok(series)
}

// ---------------------------------------------------------------------------
// where each feed lives
// ---------------------------------------------------------------------------

/// The LBMA gold PM fix, every day since 1968.
pub const LBMA_GOLD_URL: &'static str = "https://prices.lbma.org.uk/json/gold_pm.json";

/// The FRED csv download for one series.
pub fn fred_url(series_id: &str) -> (r: String)
    ensures
        r@ == "https://fred.stlouisfed.org/graph/fredgraph.csv?id="@ + series_id@,
{
    let mut out = String::from_str("https://fred.stlouisfed.org/graph/fredgraph.csv?id=");
    out.append(series_id);
    out
}

/// The Frankfurter query for yuan per dollar over `from..to`.
pub fn frankfurter_url(from: &str, to: &str) -> (r: String)
    ensures
        r@ == "https://api.frankfurter.dev/v1/"@ + from@ + ".."@ + to@ + "?base=USD&symbols=CNY"@,
{
    let mut out = String::from_str("https://api.frankfurter.dev/v1/");
    out.append(from);
    out.append("..");
    out.append(to);
    out.append("?base=USD&symbols=CNY");
    out
}

/// The Coinbase Exchange query for daily candles of `product` over `start..end`.
pub fn coinbase_url(product: &str, start: &str, end: &str) -> (r: String)
    ensures
        r@ == "https://api.exchange.coinbase.com/products/"@ + product@
            + "/candles?granularity=86400&start="@ + start@ + "T00:00:00Z&end="@ + end@
            + "T00:00:00Z"@,
{
    let mut out = String::from_str("https://api.exchange.coinbase.com/products/");
    out.append(product);
    out.append("/candles?granularity=86400&start=");
    out.append(start);
    out.append("T00:00:00Z&end=");
    out.append(end);
    out.append("T00:00:00Z");
    out
}

} // verus!
