//! Text as sequences of characters: the scanning, trimming and number-reading
//! primitives the parsers are built from, each stated over `Seq<char>`.

use vstd::prelude::*;

verus! {

broadcast use vstd::string::group_string_axioms;

// ---------------------------------------------------------------------------
// characters
// ---------------------------------------------------------------------------

/// Rust's `char::is_whitespace`: the characters with the Unicode White_Space property.
pub open spec fn is_whitespace(c: char) -> bool {
    let u = c as u32;
    (0x09 <= u <= 0x0d) || u == 0x20 || u == 0x85 || u == 0xa0 || u == 0x1680
        || (0x2000 <= u <= 0x200a) || u == 0x2028 || u == 0x2029 || u == 0x202f
        || u == 0x205f || u == 0x3000
}

/// An ASCII decimal digit.
pub open spec fn is_digit(c: char) -> bool {
    '0' as u32 <= c as u32 <= '9' as u32
}

/// The value of an ASCII decimal digit.
pub open spec fn digit_value(c: char) -> int {
    c as u32 - '0' as u32
}

/// The ASCII digit for `d` in `0..10`.
pub open spec fn digit_char(d: int) -> char {
    (d + '0' as u32) as char
}

/// Every character of `s` is an ASCII digit.
pub open spec fn all_digits(s: Seq<char>) -> bool {
    forall|i: int| 0 <= i < s.len() ==> is_digit(#[trigger] s[i])
}

/// Every character of `s` is ASCII.
pub open spec fn all_ascii(s: Seq<char>) -> bool {
    forall|i: int| 0 <= i < s.len() ==> (#[trigger] s[i] as u32) < 128
}

/// The number written by the decimal digits `s` (0 for no digits).
pub open spec fn decimal_value(s: Seq<char>) -> int
    decreases s.len(),
{
    if s.len() == 0 {
        0
    } else {
        decimal_value(s.drop_last()) * 10 + digit_value(s.last())
    }
}

/// `s` with leading whitespace removed.
pub open spec fn trim_start(s: Seq<char>) -> Seq<char>
    decreases s.len(),
{
    if s.len() > 0 && is_whitespace(s[0]) {
        trim_start(s.drop_first())
    } else {
        s
    }
}

/// `s` with trailing whitespace removed.
pub open spec fn trim_end(s: Seq<char>) -> Seq<char>
    decreases s.len(),
{
    if s.len() > 0 && is_whitespace(s.last()) {
        trim_end(s.drop_last())
    } else {
        s
    }
}

/// Rust's `str::trim`: leading and trailing whitespace removed.
pub open spec fn trim(s: Seq<char>) -> Seq<char> {
    trim_end(trim_start(s))
}

// ---------------------------------------------------------------------------
// first occurrences; an index of `s.len()` means "none"
// ---------------------------------------------------------------------------

/// `i` is the first position of `c` in `s`, or `s.len()` when `c` does not occur.
pub open spec fn is_first(s: Seq<char>, c: char, i: int) -> bool {
    &&& 0 <= i <= s.len()
    &&& i < s.len() ==> s[i] == c
    &&& forall|j: int| 0 <= j < i ==> s[j] != c
}

/// The first position of `c` in `s`, or `s.len()` when there is none.
pub open spec fn first_of(s: Seq<char>, c: char) -> int {
    choose|i: int| is_first(s, c, i)
}

/// `i` is the first position of either `a` or `b` in `s`, or `s.len()`.
pub open spec fn is_first_either(s: Seq<char>, a: char, b: char, i: int) -> bool {
    &&& 0 <= i <= s.len()
    &&& i < s.len() ==> (s[i] == a || s[i] == b)
    &&& forall|j: int| 0 <= j < i ==> s[j] != a && s[j] != b
}

/// The first position of either `a` or `b` in `s`, or `s.len()`.
pub open spec fn first_of_either(s: Seq<char>, a: char, b: char) -> int {
    choose|i: int| is_first_either(s, a, b, i)
}

/// `pat` occurs in `s` starting at `i`.
pub open spec fn matches_at(s: Seq<char>, pat: Seq<char>, i: int) -> bool {
    0 <= i && i + pat.len() <= s.len() && s.subrange(i, i + pat.len()) == pat
}

/// `i` is the first position where `pat` occurs in `s`, or `s.len()` when it does not.
pub open spec fn is_first_match(s: Seq<char>, pat: Seq<char>, i: int) -> bool {
    &&& 0 <= i <= s.len()
    &&& i < s.len() ==> matches_at(s, pat, i)
    &&& forall|j: int| 0 <= j < i ==> !matches_at(s, pat, j)
}

/// The first position where the non-empty `pat` occurs in `s`, or `s.len()`.
pub open spec fn first_match(s: Seq<char>, pat: Seq<char>) -> int {
    choose|i: int| is_first_match(s, pat, i)
}

pub proof fn lemma_first_of(s: Seq<char>, c: char, i: int)
    requires
        is_first(s, c, i),
    ensures
        first_of(s, c) == i,
{
    let k = first_of(s, c);
    assert(is_first(s, c, k));
    if k < i {
        assert(s[k] != c);
    }
    if i < k {
        assert(s[i] != c);
    }
}

pub proof fn lemma_first_of_either(s: Seq<char>, a: char, b: char, i: int)
    requires
        is_first_either(s, a, b, i),
    ensures
        first_of_either(s, a, b) == i,
{
    let k = first_of_either(s, a, b);
    assert(is_first_either(s, a, b, k));
    if k < i {
        assert(s[k] != a && s[k] != b);
    }
    if i < k {
        assert(s[i] != a && s[i] != b);
    }
}

pub proof fn lemma_first_match(s: Seq<char>, pat: Seq<char>, i: int)
    requires
        is_first_match(s, pat, i),
        pat.len() > 0,
    ensures
        first_match(s, pat) == i,
{
    let k = first_match(s, pat);
    assert(is_first_match(s, pat, k));
    if k < i {
        assert(!matches_at(s, pat, k));
    }
    if i < k {
        assert(!matches_at(s, pat, i));
    }
}

// ---------------------------------------------------------------------------
// scanning
// ---------------------------------------------------------------------------

/// The characters of `s`, in order.
pub fn chars_of(s: &str) -> (v: Vec<char>)
    ensures
        v@ == s@,
{
    let mut v: Vec<char> = Vec::new();
    for c in it: s.chars()
        invariant
            v@ == it.seq().take(it.index() as int),
    {
        v.push(c);
    }
    assert(v@ =~= s@);
    v
}

/// Whether `c` is whitespace, as `char::is_whitespace`.
pub fn char_is_whitespace(c: char) -> (b: bool)
    ensures
        b == is_whitespace(c),
{
    let u = c as u32;
    (0x09 <= u && u <= 0x0d) || u == 0x20 || u == 0x85 || u == 0xa0 || u == 0x1680
        || (0x2000 <= u && u <= 0x200a) || u == 0x2028 || u == 0x2029 || u == 0x202f
        || u == 0x205f || u == 0x3000
}

/// Whether `c` is an ASCII decimal digit.
pub fn char_is_digit(c: char) -> (b: bool)
    ensures
        b == is_digit(c),
{
    let u = c as u32;
    '0' as u32 <= u && u <= '9' as u32
}

/// The first position in `v[lo..hi]` holding `c`, as an index into `v`; `hi` when there is none.
pub fn find_char(v: &Vec<char>, lo: usize, hi: usize, c: char) -> (r: usize)
    requires
        lo <= hi <= v.len(),
    ensures
        lo <= r <= hi,
        r - lo == first_of(v@.subrange(lo as int, hi as int), c),
{
    let ghost s = v@.subrange(lo as int, hi as int);
    let mut i = lo;
    while i < hi
        invariant
            lo <= i <= hi <= v.len(),
            s == v@.subrange(lo as int, hi as int),
            forall|j: int| 0 <= j < i - lo ==> s[j] != c,
        decreases hi - i,
    {
        if v[i] == c {
            proof {
                lemma_first_of(s, c, i - lo);
            }
            return i;
        }
        i = i + 1;
    }
    proof {
        lemma_first_of(s, c, i - lo);
    }
    i
}

/// The first position in `v[lo..hi]` holding `a` or `b`, as an index into `v`; `hi` when there is none.
pub fn find_either(v: &Vec<char>, lo: usize, hi: usize, a: char, b: char) -> (r: usize)
    requires
        lo <= hi <= v.len(),
    ensures
        lo <= r <= hi,
        r - lo == first_of_either(v@.subrange(lo as int, hi as int), a, b),
{
    let ghost s = v@.subrange(lo as int, hi as int);
    let mut i = lo;
    while i < hi
        invariant
            lo <= i <= hi <= v.len(),
            s == v@.subrange(lo as int, hi as int),
            forall|j: int| 0 <= j < i - lo ==> s[j] != a && s[j] != b,
        decreases hi - i,
    {
        if v[i] == a || v[i] == b {
            proof {
                lemma_first_of_either(s, a, b, i - lo);
            }
            return i;
        }
        i = i + 1;
    }
    proof {
        lemma_first_of_either(s, a, b, i - lo);
    }
    i
}

/// Whether `pat` occurs in `v` at position `i` and fits before `hi`.
fn matches_here(v: &Vec<char>, i: usize, hi: usize, pat: &Vec<char>) -> (b: bool)
    requires
        i <= hi <= v.len(),
    ensures
        b == matches_at(v@.subrange(0, hi as int), pat@, i as int),
{
    if pat.len() > hi - i {
        return false;
    }
    let mut k: usize = 0;
    while k < pat.len()
        invariant
            i + pat.len() <= hi <= v.len(),
            0 <= k <= pat.len(),
            forall|j: int| 0 <= j < k ==> v@[i + j] == pat@[j],
        decreases pat.len() - k,
    {
        if v[i + k] != pat[k] {
            proof {
                assert(v@.subrange(0, hi as int).subrange(i as int, i + pat.len())[k as int] != pat@[k as int]);
            }
            return false;
        }
        k = k + 1;
    }
    proof {
        assert(v@.subrange(0, hi as int).subrange(i as int, i + pat.len()) =~= pat@);
    }
    true
}

/// The first position in `v[lo..hi]` where the non-empty `pat` occurs, as an
/// index into `v`; `hi` when there is none.
pub fn find_pattern(v: &Vec<char>, lo: usize, hi: usize, pat: &Vec<char>) -> (r: usize)
    requires
        lo <= hi <= v.len(),
        pat.len() > 0,
    ensures
        lo <= r <= hi,
        r - lo == first_match(v@.subrange(lo as int, hi as int), pat@),
{
    let ghost s = v@.subrange(lo as int, hi as int);
    let mut i = lo;
    while i < hi
        invariant
            lo <= i <= hi <= v.len(),
            pat.len() > 0,
            s == v@.subrange(lo as int, hi as int),
            forall|j: int| 0 <= j < i - lo ==> !matches_at(s, pat@, j),
        decreases hi - i,
    {
        let here = matches_here(v, i, hi, pat);
        proof {
            let t = v@.subrange(0, hi as int);
            if matches_at(t, pat@, i as int) {
                assert(t.subrange(i as int, i + pat.len()) =~= s.subrange(i - lo, i - lo + pat.len()));
            }
            if matches_at(s, pat@, i - lo) {
                assert(t.subrange(i as int, i + pat.len()) =~= s.subrange(i - lo, i - lo + pat.len()));
            }
        }
        if here {
            proof {
                lemma_first_match(s, pat@, i - lo);
            }
            return i;
        }
        i = i + 1;
    }
    proof {
        lemma_first_match(s, pat@, i - lo);
    }
    i
}

/// The bounds of `v[lo..hi]` with surrounding whitespace removed, as `str::trim` does.
pub fn trim_range(v: &Vec<char>, lo: usize, hi: usize) -> (r: (usize, usize))
    requires
        lo <= hi <= v.len(),
    ensures
        lo <= r.0 <= r.1 <= hi,
        v@.subrange(r.0 as int, r.1 as int) == trim(v@.subrange(lo as int, hi as int)),
{
    let mut a = lo;
    while a < hi && char_is_whitespace(v[a])
        invariant
            lo <= a <= hi <= v.len(),
            trim_start(v@.subrange(lo as int, hi as int)) == trim_start(v@.subrange(a as int, hi as int)),
        decreases hi - a,
    {
        assert(v@.subrange(a as int, hi as int).drop_first() =~= v@.subrange(a + 1, hi as int));
        a = a + 1;
    }
    let mut b = hi;
    while b > a && char_is_whitespace(v[b - 1])
        invariant
            lo <= a <= b <= hi <= v.len(),
            trim_start(v@.subrange(lo as int, hi as int)) == v@.subrange(a as int, hi as int),
            trim_end(v@.subrange(a as int, hi as int)) == trim_end(v@.subrange(a as int, b as int)),
        decreases b - a,
    {
        assert(v@.subrange(a as int, b as int).drop_last() =~= v@.subrange(a as int, b - 1));
        b = b - 1;
    }
    (a, b)
}

// ---------------------------------------------------------------------------
// reading numbers
// ---------------------------------------------------------------------------

pub proof fn lemma_decimal_nonneg(s: Seq<char>)
    requires
        all_digits(s),
    ensures
        decimal_value(s) >= 0,
    decreases s.len(),
{
    if s.len() > 0 {
        assert(is_digit(s[s.len() - 1]));
        lemma_decimal_nonneg(s.drop_last());
    }
}

/// A prefix of a digit string never writes a larger number.
pub proof fn lemma_decimal_prefix(s: Seq<char>, k: int)
    requires
        all_digits(s),
        0 <= k <= s.len(),
    ensures
        decimal_value(s.take(k)) <= decimal_value(s),
    decreases s.len(),
{
    if k < s.len() {
        assert(is_digit(s[s.len() - 1]));
        lemma_decimal_nonneg(s.drop_last());
        lemma_decimal_prefix(s.drop_last(), k);
        assert(s.drop_last().take(k) =~= s.take(k));
    } else {
        assert(s.take(k) =~= s);
    }
}

/// Rust's `i64::from_str`: an optional `+` or `-`, then one or more ASCII
/// digits, whose value must fit in an `i64`.
pub open spec fn spec_parse_i64(s: Seq<char>) -> Option<i64> {
    if s.len() == 0 {
        None
    } else {
        let neg = s[0] == '-';
        let ds = if s[0] == '-' || s[0] == '+' { s.drop_first() } else { s };
        let v = if neg { -decimal_value(ds) } else { decimal_value(ds) };
        if ds.len() == 0 || !all_digits(ds) || v < i64::MIN || v > i64::MAX {
            None
        } else {
            Some(v as i64)
        }
    }
}

/// The magnitude limit past which no `i64` can be written.
const I64_MAGNITUDE: i128 = 9_223_372_036_854_775_808;

/// The value of `v[lo..hi]` read as Rust reads an `i64`.
pub fn parse_i64_range(v: &Vec<char>, lo: usize, hi: usize) -> (r: Option<i64>)
    requires
        lo <= hi <= v.len(),
    ensures
        r == spec_parse_i64(v@.subrange(lo as int, hi as int)),
{
    let ghost s = v@.subrange(lo as int, hi as int);
    if lo == hi {
        return None;
    }
    let neg = v[lo] == '-';
    let start = if v[lo] == '-' || v[lo] == '+' { lo + 1 } else { lo };
    let ghost ds = v@.subrange(start as int, hi as int);
    assert(ds =~= (if s[0] == '-' || s[0] == '+' { s.drop_first() } else { s }));
    if start == hi {
        return None;
    }
    let mut acc: i128 = 0;
    let mut over = false;
    let mut i = start;
    while i < hi
        invariant
            lo <= start <= i <= hi <= v.len(),
            s == v@.subrange(lo as int, hi as int),
            s.len() > 0,
            neg == (s[0] == '-'),
            ds == v@.subrange(start as int, hi as int),
            ds == (if s[0] == '-' || s[0] == '+' { s.drop_first() } else { s }),
            all_digits(v@.subrange(start as int, i as int)),
            !over ==> acc == decimal_value(v@.subrange(start as int, i as int)),
            !over ==> 0 <= acc <= I64_MAGNITUDE,
            over ==> decimal_value(v@.subrange(start as int, i as int)) > I64_MAGNITUDE,
        decreases hi - i,
    {
        let c = v[i];
        if !char_is_digit(c) {
            proof {
                assert(ds[i - start] == c);
            }
            return None;
        }
        proof {
            let p = v@.subrange(start as int, i + 1);
            assert(p.drop_last() =~= v@.subrange(start as int, i as int));
            assert(all_digits(p));
            lemma_decimal_nonneg(p.drop_last());
        }
        if !over {
            let d = (c as u32 - '0' as u32) as i128;
            acc = acc * 10 + d;
            if acc > I64_MAGNITUDE {
                over = true;
            }
        }
        i = i + 1;
    }
    assert(v@.subrange(start as int, i as int) =~= ds);
    if over {
        return None;
    }
    if neg {
        let r = (0 - acc) as i64;
        Some(r)
    } else {
        if acc > i64::MAX as i128 {
            return None;
        }
        Some(acc as i64)
    }
}

// ---------------------------------------------------------------------------
// writing
// ---------------------------------------------------------------------------

/// Appends one character, as `String::push` does.
#[verifier::external_body]
pub(crate) fn push_char(s: &mut String, c: char)
    ensures
        final(s)@ == old(s)@.push(c),
{
    s.push(c);
}

/// The characters `v[lo..hi]` as a `String`.
pub fn string_of(v: &Vec<char>, lo: usize, hi: usize) -> (r: String)
    requires
        lo <= hi <= v.len(),
    ensures
        r@ == v@.subrange(lo as int, hi as int),
{
    let mut out = String::new();
    let mut i = lo;
    while i < hi
        invariant
            lo <= i <= hi <= v.len(),
            out@ == v@.subrange(lo as int, i as int),
        decreases hi - i,
    {
        push_char(&mut out, v[i]);
        assert(out@ =~= v@.subrange(lo as int, i + 1));
        i = i + 1;
    }
    out
}

/// Appends the characters of `t` to `s`.
pub fn push_all(s: &mut String, t: &Vec<char>)
    ensures
        final(s)@ == old(s)@ + t@,
{
    let mut i: usize = 0;
    while i < t.len()
        invariant
            0 <= i <= t.len(),
            s@ == old(s)@ + t@.take(i as int),
        decreases t.len() - i,
    {
        push_char(s, t[i]);
        assert(t@.take(i + 1) =~= t@.take(i as int).push(t@[i as int]));
        i = i + 1;
    }
    assert(t@.take(t.len() as int) =~= t@);
}

/// Appends the characters of `t` to `s`, as `String::push_str` does.
pub fn push_str(s: &mut String, t: &str)
    ensures
        final(s)@ == old(s)@ + t@,
{
    let v = chars_of(t);
    push_all(s, &v);
}

/// `s` with every non-overlapping occurrence of the non-empty `pat`, taken from
/// the left, replaced by `rep`: what `str::replace` returns.
pub open spec fn replace_all(s: Seq<char>, pat: Seq<char>, rep: Seq<char>) -> Seq<char>
    decreases s.len(),
{
    if pat.len() == 0 || s.len() < pat.len() {
        s
    } else if s.subrange(0, pat.len() as int) == pat {
        rep + replace_all(s.skip(pat.len() as int), pat, rep)
    } else {
        seq![s[0]] + replace_all(s.skip(1), pat, rep)
    }
}

/// `s` with every occurrence of the non-empty `pat` replaced by `rep`.
pub fn replace(s: &str, pat: &str, rep: &str) -> (r: String)
    requires
        pat@.len() > 0,
    ensures
        r@ == replace_all(s@, pat@, rep@),
{
    let v = chars_of(s);
    let p = chars_of(pat);
    let mut out = String::new();
    let mut i: usize = 0;
    proof {
        assert(v@.skip(0) =~= v@);
        assert(out@ + replace_all(v@.skip(0), p@, rep@) =~= replace_all(v@, p@, rep@));
    }
    while i < v.len()
        invariant
            0 <= i <= v.len(),
            v@ == s@,
            p@ == pat@,
            p@.len() > 0,
            out@ + replace_all(v@.skip(i as int), p@, rep@) == replace_all(v@, p@, rep@),
        decreases v.len() - i,
    {
        let ghost rest = v@.skip(i as int);
        if matches_here(&v, i, v.len(), &p) {
            proof {
                assert(v@.subrange(0, v.len() as int) =~= v@);
                assert(rest.subrange(0, p@.len() as int) =~= v@.subrange(i as int, i + p@.len()));
                assert(rest.skip(p@.len() as int) =~= v@.skip(i + p@.len()));
            }
            push_str(&mut out, rep);
            proof {
                assert(out@ + replace_all(v@.skip(i + p@.len()), p@, rep@) =~= replace_all(v@, p@, rep@));
            }
            i = i + p.len();
        } else {
            proof {
                assert(v@.subrange(0, v.len() as int) =~= v@);
                if rest.len() >= p@.len() {
                    assert(rest.subrange(0, p@.len() as int) =~= v@.subrange(i as int, i + p@.len()));
                }
                assert(rest.skip(1) =~= v@.skip(i + 1));
            }
            push_char(&mut out, v[i]);
            proof {
                assert(out@ + replace_all(v@.skip(i + 1), p@, rep@) =~= replace_all(v@, p@, rep@));
            }
            i = i + 1;
        }
    }
    proof {
        assert(v@.skip(i as int) =~= Seq::<char>::empty());
        assert(out@ + Seq::<char>::empty() =~= out@);
    }
    out
}

/// The decimal digits of `n`, most significant first, without leading zeros ("0" for zero).
pub open spec fn decimal_digits(n: nat) -> Seq<char>
    decreases n,
{
    if n < 10 {
        seq![digit_char(n as int)]
    } else {
        decimal_digits(n / 10).push(digit_char((n % 10) as int))
    }
}

/// `n` zero characters.
pub open spec fn zeros(n: int) -> Seq<char> {
    Seq::new(if n > 0 { n as nat } else { 0 }, |i: int| '0')
}

/// Rust's `{:0w}` for an integer: sign, then zeros up to width `w`, then the digits.
pub open spec fn padded(v: int, w: int) -> Seq<char> {
    let ds = decimal_digits(if v < 0 { (-v) as nat } else { v as nat });
    if v < 0 {
        seq!['-'] + zeros(w - 1 - ds.len()) + ds
    } else {
        zeros(w - ds.len()) + ds
    }
}

/// A digit written and read back is the same digit.
pub proof fn lemma_digit_char(d: int)
    requires
        0 <= d < 10,
    ensures
        is_digit(digit_char(d)),
        digit_value(digit_char(d)) == d,
{
}

/// The decimal digits of `n` are digits, and read back as `n`.
pub proof fn lemma_digits_value(n: nat)
    ensures
        all_digits(decimal_digits(n)),
        decimal_value(decimal_digits(n)) == n,
    decreases n,
{
    if n < 10 {
        lemma_digit_char(n as int);
        assert(decimal_digits(n).drop_last() =~= Seq::<char>::empty());
        assert(decimal_value(Seq::<char>::empty()) == 0);
        assert(decimal_digits(n).last() == digit_char(n as int));
    } else {
        lemma_digits_value(n / 10);
        lemma_digit_char((n % 10) as int);
        let ds = decimal_digits(n);
        assert(ds.drop_last() =~= decimal_digits(n / 10));
        assert(ds.last() == digit_char((n % 10) as int));
        assert(n == (n / 10) * 10 + n % 10);
        assert forall|i: int| 0 <= i < ds.len() implies is_digit(#[trigger] ds[i]) by {
            if i < ds.len() - 1 {
                assert(ds[i] == decimal_digits(n / 10)[i]);
            }
        }
    }
}

/// Leading zeros do not change the number a digit string writes.
pub proof fn lemma_zeros_value(k: int, s: Seq<char>)
    requires
        all_digits(s),
    ensures
        all_digits(zeros(k) + s),
        decimal_value(zeros(k) + s) == decimal_value(s),
    decreases s.len() + if k > 0 { k } else { 0 },
{
    let t = zeros(k) + s;
    assert forall|i: int| 0 <= i < t.len() implies is_digit(#[trigger] t[i]) by {
        if i >= zeros(k).len() {
            assert(t[i] == s[i - zeros(k).len()]);
        }
    }
    if s.len() > 0 {
        assert(t.drop_last() =~= zeros(k) + s.drop_last());
        lemma_zeros_value(k, s.drop_last());
    } else if k > 0 {
        assert(t =~= zeros(k));
        assert(t.drop_last() =~= zeros(k - 1) + Seq::<char>::empty());
        lemma_zeros_value(k - 1, Seq::<char>::empty());
        assert(t.last() == '0');
    } else {
        assert(t =~= Seq::<char>::empty());
    }
}

/// A non-negative number below `10^w`, padded to `w` digits, is `w` digits
/// long and reads back as itself.
pub proof fn lemma_padded(v: int, w: nat)
    requires
        w >= 1,
        0 <= v < pow10(w),
    ensures
        padded(v, w as int).len() == w,
        all_digits(padded(v, w as int)),
        decimal_value(padded(v, w as int)) == v,
{
    lemma_digits_len(v as nat, w);
    lemma_digits_value(v as nat);
    lemma_zeros_value(w - decimal_digits(v as nat).len(), decimal_digits(v as nat));
}

/// Appends the decimal digits of `n`.
pub fn push_decimal(s: &mut String, n: u128)
    ensures
        final(s)@ == old(s)@ + decimal_digits(n as nat),
    decreases n,
{
    if n >= 10 {
        push_decimal(s, n / 10);
    }
    let d = (n % 10) as u32;
    let c = char_from_digit(d);
    push_char(s, c);
}

/// The ASCII digit for `d`.
pub fn char_from_digit(d: u32) -> (c: char)
    requires
        d < 10,
    ensures
        c == digit_char(d as int),
{
    if d == 0 { '0' }
    else if d == 1 { '1' }
    else if d == 2 { '2' }
    else if d == 3 { '3' }
    else if d == 4 { '4' }
    else if d == 5 { '5' }
    else if d == 6 { '6' }
    else if d == 7 { '7' }
    else if d == 8 { '8' }
    else { '9' }
}

/// `10` to the power `k`.
pub open spec fn pow10(k: nat) -> int
    decreases k,
{
    if k == 0 { 1 } else { 10 * pow10((k - 1) as nat) }
}

/// A number below `10^k` has at most `k` digits.
pub proof fn lemma_digits_len(n: nat, k: nat)
    requires
        k >= 1,
        n < pow10(k),
    ensures
        1 <= decimal_digits(n).len() <= k,
    decreases n,
{
    if n >= 10 {
        reveal_with_fuel(pow10, 2);
        assert(k >= 2);
        assert(n / 10 < pow10((k - 1) as nat));
        lemma_digits_len(n / 10, (k - 1) as nat);
    }
}

/// Appends `n` zeros.
pub fn push_zeros(s: &mut String, n: usize)
    ensures
        final(s)@ == old(s)@ + zeros(n as int),
{
    let mut i: usize = 0;
    while i < n
        invariant
            0 <= i <= n,
            s@ == old(s)@ + zeros(i as int),
        decreases n - i,
    {
        push_char(s, '0');
        assert(zeros(i + 1) =~= zeros(i as int).push('0'));
        i = i + 1;
    }
}

/// Number of decimal digits of `n`.
pub fn decimal_len(n: u128) -> (r: usize)
    ensures
        r == decimal_digits(n as nat).len(),
        r <= 39,
    decreases n,
{
    proof {
        reveal_with_fuel(pow10, 40);
        assert(pow10(39) > u128::MAX);
        lemma_digits_len(n as nat, 39);
    }
    if n >= 10 {
        let k = decimal_len(n / 10);
        k + 1
    } else {
        1
    }
}

/// An integer as Rust's `{}` writes it: a `-` for a negative one, then its digits.
pub open spec fn int_text(v: int) -> Seq<char> {
    (if v < 0 { seq!['-'] } else { Seq::empty() }) + decimal_digits(if v < 0 { (-v) as nat } else { v as nat })
}

/// Appends `v` as Rust's `{}` writes it.
pub fn push_int(s: &mut String, v: i128)
    ensures
        final(s)@ == old(s)@ + int_text(v as int),
{
    let ghost start = s@;
    if v < 0 {
        push_char(s, '-');
        let mag: u128 = (-(v + 1)) as u128 + 1;
        push_decimal(s, mag);
    } else {
        push_decimal(s, v as u128);
    }
    assert(s@ =~= start + int_text(v as int));
}

/// Appends `v` formatted as Rust's `{:0w}` does.
pub fn push_padded(s: &mut String, v: i64, w: usize)
    ensures
        final(s)@ == old(s)@ + padded(v as int, w as int),
{
    let mag: u128 = if v < 0 { (0 - (v as i128)) as u128 } else { v as u128 };
    let n = decimal_len(mag);
    if v < 0 {
        push_char(s, '-');
        let pad = if w > n + 1 { w - n - 1 } else { 0 };
        push_zeros(s, pad);
        push_decimal(s, mag);
        assert(zeros(pad as int) =~= zeros(w - 1 - n));
    } else {
        let pad = if w > n { w - n } else { 0 };
        push_zeros(s, pad);
        push_decimal(s, mag);
        assert(zeros(pad as int) =~= zeros(w - n));
    }
}

/// Whether two strings hold the same characters, as `==` on `str` decides.
pub(crate) fn str_eq(a: &str, b: &str) -> (r: bool)
    ensures
        r == (a@ == b@),
{
    let x = chars_of(a);
    let y = chars_of(b);
    if x.len() != y.len() {
        return false;
    }
    let mut i: usize = 0;
    while i < x.len()
        invariant
            x@ == a@,
            y@ == b@,
            x@.len() == y@.len(),
            0 <= i <= x@.len(),
            forall|k: int| 0 <= k < i ==> x@[k] == y@[k],
        decreases x@.len() - i,
    {
        if x[i] != y[i] {
            return false;
        }
        i = i + 1;
    }
    assert(x@ =~= y@);
    true
}

/// A character a number may be written with: an ASCII digit, `.` or `-`.
pub open spec fn is_number_char(c: char) -> bool {
    is_digit(c) || c == '.' || c == '-'
}

/// `i` is the first position of `s` not holding a number character, or `s.len()`.
pub open spec fn is_number_end(s: Seq<char>, i: int) -> bool {
    &&& 0 <= i <= s.len()
    &&& i < s.len() ==> !is_number_char(s[i])
    &&& forall|j: int| 0 <= j < i ==> is_number_char(#[trigger] s[j])
}

/// The length of the longest prefix of `s` made of number characters.
pub open spec fn number_prefix_len(s: Seq<char>) -> int {
    choose|i: int| is_number_end(s, i)
}

pub proof fn lemma_number_prefix_len(s: Seq<char>, i: int)
    requires
        is_number_end(s, i),
    ensures
        number_prefix_len(s) == i,
{
    let k = number_prefix_len(s);
    assert(is_number_end(s, k));
    if k < i {
        assert(is_number_char(s[k]));
    }
    if i < k {
        assert(is_number_char(s[i]));
    }
}

/// The end of the run of number characters starting at `lo`, stopping at `hi`.
pub fn number_end(v: &Vec<char>, lo: usize, hi: usize) -> (r: usize)
    requires
        lo <= hi <= v.len(),
    ensures
        lo <= r <= hi,
        r - lo == number_prefix_len(v@.subrange(lo as int, hi as int)),
{
    let ghost s = v@.subrange(lo as int, hi as int);
    let mut i = lo;
    while i < hi && (char_is_digit(v[i]) || v[i] == '.' || v[i] == '-')
        invariant
            lo <= i <= hi <= v.len(),
            s == v@.subrange(lo as int, hi as int),
            forall|j: int| 0 <= j < i - lo ==> is_number_char(#[trigger] s[j]),
        decreases hi - i,
    {
        assert(s[i - lo] == v@[i as int]);
        i = i + 1;
    }
    proof {
        if i < hi {
            assert(s[i - lo] == v@[i as int]);
        }
        lemma_number_prefix_len(s, i - lo);
    }
    i
}

} // verus!
