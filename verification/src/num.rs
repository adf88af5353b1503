//! Fixed-point decimal arithmetic and civil-date arithmetic, integers only.
//!
//! Every price, weight and index level is an `i128` scaled by `SCALE`
//! (1e-9); no floating point enters the index path.

use crate::calendar::{
    civil_of, epoch_day, lemma_days_before_year_era, lemma_div_is, lemma_epoch_day_injective,
    lemma_epoch_offset, lemma_era_day, lemma_leap_periodic, lemma_month_table,
    lemma_offset_has_month, march_month, march_year, valid_date,
};
use crate::text::{
    all_ascii, all_digits, chars_of, char_is_digit, decimal_digits, decimal_value, digit_value, first_of,
    is_digit, is_first, lemma_decimal_nonneg, lemma_decimal_prefix, lemma_first_of, parse_i64_range, pow10,
    push_char, push_decimal, push_padded, padded, spec_parse_i64, trim, trim_range, zeros,
    push_zeros, decimal_len, lemma_padded, lemma_digits_value, lemma_digits_len, lemma_zeros_value,
    is_whitespace, trim_start,
};
use vstd::prelude::*;
use vstd::utf8::{encode_scalar, encode_utf8, is_char_boundary, is_continuation_byte};

verus! {

/// Nine decimal places.
pub const SCALE: i128 = 1_000_000_000;

/// Years within this distance of year 0 convert to day counts without overflow.
pub const YEAR_LIMIT: i64 = 1_000_000_000_000;

/// Day-of-month arguments within this distance of zero convert without overflow.
pub const DAY_OF_MONTH_LIMIT: i64 = 1_000_000_000_000;

/// Division rounding toward zero, as Rust's `/` on signed integers.
pub open spec fn trunc_div(a: int, b: int) -> int
    recommends
        b != 0,
{
    if a >= 0 {
        if b > 0 { a / b } else { -(a / (-b)) }
    } else {
        if b > 0 { -((-a) / b) } else { (-a) / (-b) }
    }
}

/// Days since 1970-01-01 for the proleptic-Gregorian date `y-m-d`.
///
/// A day-of-month past the end of the month counts on into the next month,
/// as the day count is linear in `d`.
pub fn days_from_civil(y: i64, m: i64, d: i64) -> (r: i64)
    requires
        1 <= m <= 12,
        -YEAR_LIMIT <= y <= YEAR_LIMIT,
        -DAY_OF_MONTH_LIMIT <= d <= DAY_OF_MONTH_LIMIT,
    ensures
        r == epoch_day(y as int, m as int, d as int),
{
    let y = if m <= 2 { y - 1 } else { y };
    let era = (if y >= 0 { y } else { y - 399 }) / 400;
    proof {
        if y >= 0 {
            lemma_div_is(y as int, 400, y as int / 400);
        } else {
            lemma_div_is(y as int, 400, y as int / 400);
            lemma_div_is(399 - y as int, 400, (399 - y as int) / 400);
            assert(era == y as int / 400);
        }
    }
    let yoe = y - era * 400;
    let mp = (m + 9) % 12;
    proof {
        lemma_div_is(m as int + 9, 12, if m >= 3 { 1int } else { 0int });
        lemma_month_table(mp as int);
        lemma_days_before_year_era(era as int, yoe as int);
        lemma_epoch_offset();
        assert(y as int == 400 * era + yoe);
    }
    let doy = (153 * mp + 2) / 5 + d - 1;
    let doe = yoe * 365 + yoe / 4 - yoe / 100 + doy;
    era * 146_097 + doe - 719_468
}

/// The calendar date `(y, m, d)` that lies `z` days after 1970-01-01; the
/// inverse of [`days_from_civil`] on valid dates.
pub fn civil_from_days(z: i64) -> (r: (i64, i64, i64))
    requires
        z <= i64::MAX - 719_468,
    ensures
        valid_date(r.0 as int, r.1 as int, r.2 as int),
        epoch_day(r.0 as int, r.1 as int, r.2 as int) == z,
        forall|y: int, m: int, d: int|
            valid_date(y, m, d) && epoch_day(y, m, d) == z ==> y == r.0 && m == r.1 && d == r.2,
        (r.0 as int, r.1 as int, r.2 as int) == civil_of(z as int),
{
    let z = z + 719_468;
    let era = (if z >= 0 { z } else { z - 146_096 }) / 146_097;
    proof {
        if z >= 0 {
            lemma_div_is(z as int, 146097, z as int / 146097);
        } else {
            lemma_div_is(z as int, 146097, z as int / 146097);
            lemma_div_is(146096 - z as int, 146097, (146096 - z as int) / 146097);
            assert(era == z as int / 146097);
        }
    }
    let doe = z - era * 146_097;
    proof {
        lemma_era_day(doe as int);
    }
    let yoe = (doe - doe / 1460 + doe / 36_524 - doe / 146_096) / 365;
    let y = yoe + era * 400;
    let doy = doe - (365 * yoe + yoe / 4 - yoe / 100);
    let mp = (5 * doy + 2) / 153;
    proof {
        lemma_offset_has_month(doy as int);
        lemma_month_table(mp as int);
    }
    let d = doy - (153 * mp + 2) / 5 + 1;
    let m = if mp < 10 { mp + 3 } else { mp - 9 };
    let year = if m <= 2 { y + 1 } else { y };
    proof {
        lemma_days_before_year_era(era as int, yoe as int);
        lemma_epoch_offset();
        assert(march_year(year as int, m as int) == y);
        assert(march_month(m as int) == mp);
        if m == 2 {
            lemma_leap_periodic(yoe + 1, era as int);
            assert(year == yoe + 1 + 400 * era);
        }
        assert forall|yy: int, mm: int, dd: int|
            valid_date(yy, mm, dd) && epoch_day(yy, mm, dd) == z - 719_468 implies yy == year
                && mm == m && dd == d by {
            lemma_epoch_day_injective(yy, mm, dd, year as int, m as int, d as int);
        }
        let w = (year as int, m as int, d as int);
        assert(valid_date(w.0, w.1, w.2) && epoch_day(w.0, w.1, w.2) == z - 719_468);
        assert(exists|t: (int, int, int)|
            valid_date(t.0, t.1, t.2) && epoch_day(t.0, t.1, t.2) == z - 719_468);
        let t = civil_of(z - 719_468);
        assert(valid_date(t.0, t.1, t.2) && epoch_day(t.0, t.1, t.2) == z - 719_468);
    }
    (year, m, d)
}

/// Multiply two fixed-point values, truncating toward zero.
pub fn fmul(a: i128, b: i128) -> (r: i128)
    requires
        i128::MIN <= a * b <= i128::MAX,
    ensures
        r == trunc_div(a * b, SCALE as int),
{
    a * b / SCALE
}

/// Divide two fixed-point values, truncating toward zero; `None` when the divisor is zero.
pub fn fdiv(a: i128, b: i128) -> (r: Option<i128>)
    requires
        b != 0 ==> i128::MIN <= a * SCALE <= i128::MAX,
    ensures
        r == (if b == 0 { None } else { Some(trunc_div(a * SCALE, b as int) as i128) }),
{
    if b == 0 {
        return None;
    }
    let x = a * SCALE;
    assert(x != i128::MIN);
    match x.checked_div(b) {
        Some(q) => Some(q),
        None => None,
    }
}

/// The body of a decimal number: ASCII digits with at most one `.`, and at least one digit.
pub open spec fn is_decimal_body(b: Seq<char>) -> bool {
    &&& forall|i: int| 0 <= i < b.len() ==> is_digit(#[trigger] b[i]) || b[i] == '.'
    &&& forall|i: int, j: int| 0 <= i < j < b.len() && #[trigger] b[i] == '.' ==> #[trigger] b[j] != '.'
    &&& exists|i: int| 0 <= i < b.len() && is_digit(#[trigger] b[i])
}

/// The integer digits of a decimal body: everything before the `.`.
pub open spec fn int_digits(b: Seq<char>) -> Seq<char> {
    b.take(first_of(b, '.'))
}

/// The fraction digits of a decimal body: everything after the `.`, if there is one.
pub open spec fn frac_digits(b: Seq<char>) -> Seq<char> {
    if first_of(b, '.') < b.len() { b.skip(first_of(b, '.') + 1) } else { Seq::empty() }
}

/// The fixed-point magnitude a decimal body writes: the fraction truncated to nine places.
pub open spec fn fixed_magnitude(b: Seq<char>) -> int {
    let f = frac_digits(b);
    let n: nat = if f.len() < 9 { f.len() } else { 9 };
    decimal_value(int_digits(b)) * SCALE + decimal_value(f.take(n as int)) * pow10((9 - n) as nat)
}

/// A decimal string ("13542.820869565219", "-0.5", "8"), surrounding
/// whitespace allowed, as a fixed-point value with digits past the ninth
/// truncated; `None` when it is not such a string or does not fit an `i128`.
pub open spec fn spec_parse_fixed(s: Seq<char>) -> Option<i128> {
    let t = trim(s);
    if t.len() == 0 {
        None
    } else {
        let body = if t[0] == '-' || t[0] == '+' { t.drop_first() } else { t };
        let m = fixed_magnitude(body);
        if !is_decimal_body(body) || m > i128::MAX {
            None
        } else {
            Some((if t[0] == '-' { -m } else { m }) as i128)
        }
    }
}

pub proof fn lemma_pow10_pos(k: nat)
    ensures
        pow10(k) >= 1,
    decreases k,
{
    if k > 0 {
        lemma_pow10_pos((k - 1) as nat);
    }
}

/// The integer and fraction digits of a decimal body are digits, and the
/// fraction never lowers the magnitude below the integer part.
pub proof fn lemma_magnitude_parts(body: Seq<char>, d: int)
    requires
        is_decimal_body(body),
        is_first(body, '.', d),
    ensures
        all_digits(int_digits(body)),
        all_digits(frac_digits(body)),
        decimal_value(int_digits(body)) >= 0,
        fixed_magnitude(body) >= decimal_value(int_digits(body)) * SCALE,
{
    lemma_first_of(body, '.', d);
    let ip = int_digits(body);
    let f = frac_digits(body);
    assert forall|i: int| 0 <= i < ip.len() implies is_digit(#[trigger] ip[i]) by {
        assert(ip[i] == body[i]);
    }
    assert forall|i: int| 0 <= i < f.len() implies is_digit(#[trigger] f[i]) by {
        assert(f[i] == body[d + 1 + i]);
    }
    lemma_decimal_nonneg(ip);
    let n: nat = if f.len() < 9 { f.len() } else { 9 };
    assert(all_digits(f.take(n as int)));
    lemma_decimal_nonneg(f.take(n as int));
    lemma_pow10_pos((9 - n) as nat);
    assert(decimal_value(f.take(n as int)) * pow10((9 - n) as nat) >= 0) by (nonlinear_arith)
        requires
            decimal_value(f.take(n as int)) >= 0,
            pow10((9 - n) as nat) >= 1,
    ;
}

/// Checks that `v[start..end]` is a decimal body, returning the position of
/// its `.` (or `end` when it has none).
fn read_decimal_shape(v: &Vec<char>, start: usize, end: usize) -> (r: Option<usize>)
    requires
        start <= end <= v.len(),
    ensures
        match r {
            Some(d) => start <= d <= end && is_decimal_body(v@.subrange(start as int, end as int))
                && is_first(v@.subrange(start as int, end as int), '.', d - start),
            None => !is_decimal_body(v@.subrange(start as int, end as int)),
        },
{
    let ghost body = v@.subrange(start as int, end as int);
    let mut dot = end;
    let mut seen_digit = false;
    let mut i = start;
    while i < end
        invariant
            start <= i <= end <= v.len(),
            body == v@.subrange(start as int, end as int),
            forall|k: int| 0 <= k < i - start ==> is_digit(#[trigger] body[k]) || body[k] == '.',
            dot == end || (start <= dot < i && body[dot - start] == '.'),
            forall|k: int| 0 <= k < i - start && k != dot - start ==> #[trigger] body[k] != '.',
            dot < end ==> forall|k: int| 0 <= k < dot - start ==> #[trigger] body[k] != '.',
            seen_digit == exists|k: int| 0 <= k < i - start && is_digit(#[trigger] body[k]),
        decreases end - i,
    {
        let c = v[i];
        assert(body[i - start] == c);
        if char_is_digit(c) {
            seen_digit = true;
        } else if c == '.' && dot == end {
            dot = i;
        } else {
            proof {
                if c == '.' {
                    assert(body[dot - start] == '.' && body[i - start] == '.');
                }
            }
            return None;
        }
        i = i + 1;
    }
    if !seen_digit {
        return None;
    }
    Some(dot)
}

/// The number written by the digits `v[lo..hi]`, or `None` when it exceeds `i128::MAX`.
fn read_digits(v: &Vec<char>, lo: usize, hi: usize) -> (r: Option<i128>)
    requires
        lo <= hi <= v.len(),
        all_digits(v@.subrange(lo as int, hi as int)),
    ensures
        match r {
            Some(x) => x == decimal_value(v@.subrange(lo as int, hi as int)),
            None => decimal_value(v@.subrange(lo as int, hi as int)) > i128::MAX,
        },
{
    let ghost ds = v@.subrange(lo as int, hi as int);
    let mut acc: i128 = 0;
    let mut j = lo;
    while j < hi
        invariant
            lo <= j <= hi <= v.len(),
            ds == v@.subrange(lo as int, hi as int),
            all_digits(ds),
            acc == decimal_value(v@.subrange(lo as int, j as int)),
            0 <= acc,
        decreases hi - j,
    {
        proof {
            assert(is_digit(ds[j - lo]));
        }
        let d = (v[j] as u32 - '0' as u32) as i128;
        proof {
            let p = v@.subrange(lo as int, j + 1);
            assert(p.drop_last() =~= v@.subrange(lo as int, j as int));
            assert(p =~= ds.take(j + 1 - lo));
            lemma_decimal_prefix(ds, j + 1 - lo);
        }
        if acc > (i128::MAX - d) / 10 {
            return None;
        }
        acc = acc * 10 + d;
        j = j + 1;
    }
    assert(v@.subrange(lo as int, j as int) =~= ds);
    Some(acc)
}

/// The at most nine fraction digits `v[lo..hi]`, scaled to nine places.
fn read_fraction(v: &Vec<char>, lo: usize, hi: usize) -> (r: i128)
    requires
        lo <= hi <= v.len(),
        hi - lo <= 9,
        all_digits(v@.subrange(lo as int, hi as int)),
    ensures
        r == decimal_value(v@.subrange(lo as int, hi as int)) * pow10((9 - (hi - lo)) as nat),
        0 <= r < SCALE,
{
    let ghost ds = v@.subrange(lo as int, hi as int);
    let mut frac: i128 = 0;
    let mut k = lo;
    while k < hi
        invariant
            lo <= k <= hi <= v.len(),
            hi - lo <= 9,
            ds == v@.subrange(lo as int, hi as int),
            all_digits(ds),
            frac == decimal_value(v@.subrange(lo as int, k as int)),
            0 <= frac < pow10((k - lo) as nat),
        decreases hi - k,
    {
        proof {
            assert(is_digit(ds[k - lo]));
        }
        let d = (v[k] as u32 - '0' as u32) as i128;
        proof {
            let p = v@.subrange(lo as int, k + 1);
            assert(p.drop_last() =~= v@.subrange(lo as int, k as int));
            reveal_with_fuel(pow10, 11);
        }
        frac = frac * 10 + d;
        k = k + 1;
    }
    assert(v@.subrange(lo as int, k as int) =~= ds);
    let n = hi - lo;
    let ghost fv = decimal_value(ds);
    assert(pow10(0) == 1);
    assert(frac == fv * pow10(0));
    let mut pad = n;
    while pad < 9
        invariant
            n <= pad <= 9,
            frac == fv * pow10((pad - n) as nat),
            0 <= frac < pow10(pad as nat),
        decreases 9 - pad,
    {
        proof {
            reveal_with_fuel(pow10, 11);
            assert(pow10((pad + 1 - n) as nat) == 10 * pow10((pad - n) as nat));
            assert(fv * pow10((pad + 1 - n) as nat) == (fv * pow10((pad - n) as nat)) * 10)
                by (nonlinear_arith)
                requires
                    pow10((pad + 1 - n) as nat) == 10 * pow10((pad - n) as nat),
            ;
        }
        frac = frac * 10;
        pad = pad + 1;
    }
    assert(frac < SCALE) by {
        reveal_with_fuel(pow10, 11);
    }
    frac
}

/// Reads `v[lo..hi]` as [`parse_fixed`] reads a string.
pub fn parse_fixed_range(v: &Vec<char>, lo: usize, hi: usize) -> (r: Option<i128>)
    requires
        lo <= hi <= v.len(),
    ensures
        r == spec_parse_fixed(v@.subrange(lo as int, hi as int)),
{
    let (a, b) = trim_range(v, lo, hi);
    let ghost t = v@.subrange(a as int, b as int);
    if a == b {
        return None;
    }
    let neg = v[a] == '-';
    let start = if v[a] == '-' || v[a] == '+' { a + 1 } else { a };
    let ghost body = v@.subrange(start as int, b as int);
    assert(body =~= (if t[0] == '-' || t[0] == '+' { t.drop_first() } else { t }));
    let dot = match read_decimal_shape(v, start, b) {
        Some(d) => d,
        None => {
            return None;
        },
    };
    proof {
        lemma_magnitude_parts(body, dot - start);
        lemma_first_of(body, '.', dot - start);
        assert(v@.subrange(start as int, dot as int) =~= int_digits(body));
    }
    let int_part = match read_digits(v, start, dot) {
        Some(x) => x,
        None => {
            proof {
                lemma_decimal_nonneg(int_digits(body));
                assert(decimal_value(int_digits(body)) * SCALE >= decimal_value(int_digits(body)))
                    by (nonlinear_arith)
                    requires
                        decimal_value(int_digits(body)) >= 0,
                ;
            }
            return None;
        },
    };
    let fstart = if dot < b { dot + 1 } else { b };
    let fend = if b - fstart > 9 { fstart + 9 } else { b };
    let ghost f = frac_digits(body);
    proof {
        assert(f =~= v@.subrange(fstart as int, b as int));
        assert(v@.subrange(fstart as int, fend as int) =~= f.take(fend - fstart));
    }
    let frac_part = read_fraction(v, fstart, fend);
    assert(fixed_magnitude(body) == int_part * SCALE + frac_part);
    if int_part > (i128::MAX - frac_part) / SCALE {
        return None;
    }
    let m = int_part * SCALE + frac_part;
    Some(if neg { -m } else { m })
}

/// A decimal string ("13542.820869565219", "-0.5", "8") as fixed point.
/// Digits past the ninth are truncated, never rounded.
pub fn parse_fixed(s: &str) -> (r: Option<i128>)
    ensures
        r == spec_parse_fixed(s@),
{
    let v = chars_of(s);
    assert(v@.subrange(0, v@.len() as int) =~= s@);
    parse_fixed_range(&v, 0, v.len())
}

/// `-` for a negative value, nothing otherwise.
pub open spec fn sign_text(v: int) -> Seq<char> {
    if v < 0 { seq!['-'] } else { Seq::empty() }
}

/// The magnitude of `v`.
pub open spec fn magnitude(v: int) -> nat {
    if v < 0 { (-v) as nat } else { v as nat }
}

/// The fraction of a fixed-point value shown to `places` decimals (nine at
/// most), truncated: a `.` and exactly that many digits, or nothing when `places` is zero.
pub open spec fn frac_text(v: int, places: int) -> Seq<char> {
    if places > 0 {
        let p: nat = if places < 9 { places as nat } else { 9 };
        let ds = decimal_digits(((magnitude(v) % (SCALE as nat)) as int / pow10((9 - p) as nat)) as nat);
        seq!['.'] + zeros(p - ds.len()) + ds
    } else {
        Seq::empty()
    }
}

/// A fixed-point value written with `places` decimals, truncating as parsed.
pub open spec fn spec_format_fixed(v: int, places: int) -> Seq<char> {
    sign_text(v) + decimal_digits(magnitude(v) / (SCALE as nat)) + frac_text(v, places)
}

/// Digits with a `,` between each group of three, counted from the right.
pub open spec fn grouped(ds: Seq<char>) -> Seq<char>
    decreases ds.len(),
{
    if ds.len() <= 3 {
        ds
    } else {
        grouped(ds.take(ds.len() - 3)) + seq![','] + ds.skip(ds.len() - 3)
    }
}

/// A fixed-point value with a thousands-separated integer part.
pub open spec fn spec_format_thousands(v: int, places: int) -> Seq<char> {
    sign_text(v) + grouped(decimal_digits(magnitude(v) / (SCALE as nat))) + frac_text(v, places)
}

/// Appends the fraction of `mag` shown to `places` decimals.
fn push_frac(out: &mut String, mag: u128, places: u32, v: Ghost<int>)
    requires
        mag == magnitude(v@),
    ensures
        final(out)@ == old(out)@ + frac_text(v@, places as int),
{
    if places > 0 {
        let p: u32 = if places < 9 { places } else { 9 };
        let mut frac = mag % (SCALE as u128);
        let mut k: u32 = 0;
        while k < 9 - p
            invariant
                0 <= k <= 9 - p,
                p <= 9,
                frac == (mag % (SCALE as u128)) as int / pow10(k as nat),
            decreases 9 - p - k,
        {
            proof {
                crate::num::lemma_pow10_pos(k as nat);
                vstd::arithmetic::div_mod::lemma_div_denominator(
                    (mag % (SCALE as u128)) as int, pow10(k as nat), 10);
                assert(pow10((k + 1) as nat) == pow10(k as nat) * 10);
            }
            frac = frac / 10;
            k = k + 1;
        }
        push_char(out, '.');
        let n = decimal_len(frac);
        let width = p as usize;
        let pad = if width > n { width - n } else { 0 };
        push_zeros(out, pad);
        push_decimal(out, frac);
        proof {
            assert(zeros(pad as int) =~= zeros(p - n));
            assert(old(out)@.push('.') + zeros(pad as int) + decimal_digits(frac as nat)
                =~= old(out)@ + frac_text(v@, places as int));
        }
    }
}

/// A fixed-point value written with `places` decimals (nine at most),
/// truncating as parsed.
pub fn format_fixed(v: i128, places: u32) -> (r: String)
    requires
        v != i128::MIN,
    ensures
        r@ == spec_format_fixed(v as int, places as int),
{
    let mag: u128 = if v < 0 { (-v) as u128 } else { v as u128 };
    let mut out = String::new();
    if v < 0 {
        push_char(&mut out, '-');
    }
    push_decimal(&mut out, mag / (SCALE as u128));
    push_frac(&mut out, mag, places, Ghost(v as int));
    proof {
        assert(out@ =~= spec_format_fixed(v as int, places as int));
    }
    out
}

/// The decimal digits of `n` as characters.
fn decimal_chars(n: u128) -> (r: Vec<char>)
    ensures
        r@ == decimal_digits(n as nat),
    decreases n,
{
    let mut r = if n >= 10 { decimal_chars(n / 10) } else { Vec::new() };
    let c = crate::text::char_from_digit((n % 10) as u32);
    r.push(c);
    r
}

/// A fixed-point value with its integer part grouped by thousands, for display.
pub fn format_thousands(v: i128, places: u32) -> (r: String)
    requires
        v != i128::MIN,
    ensures
        r@ == spec_format_thousands(v as int, places as int),
{
    let mag: u128 = if v < 0 { (-v) as u128 } else { v as u128 };
    let ds = decimal_chars(mag / (SCALE as u128));
    let mut out = String::new();
    if v < 0 {
        push_char(&mut out, '-');
    }
    let ghost before = out@;
    let len = ds.len();
    // the leading group holds one to three digits, every later group three
    let lead = if len % 3 == 0 { 3 } else { len % 3 };
    let mut i: usize = 0;
    while i < lead
        invariant
            0 <= i <= lead <= len == ds.len(),
            lead <= 3,
            out@ == before + ds@.take(i as int),
        decreases lead - i,
    {
        push_char(&mut out, ds[i]);
        assert(ds@.take(i + 1) =~= ds@.take(i as int).push(ds@[i as int]));
        i = i + 1;
    }
    proof {
        assert(grouped(ds@.take(lead as int)) == ds@.take(lead as int));
    }
    let mut k = lead;
    while k < len
        invariant
            lead <= k <= len == ds.len(),
            1 <= lead,
            (k - lead) % 3 == 0,
            (len - lead) % 3 == 0,
            out@ == before + grouped(ds@.take(k as int)),
        decreases len - k,
    {
        push_char(&mut out, ',');
        push_char(&mut out, ds[k]);
        push_char(&mut out, ds[k + 1]);
        push_char(&mut out, ds[k + 2]);
        proof {
            let t = ds@.take(k + 3);
            assert(t.take(t.len() - 3) =~= ds@.take(k as int));
            assert(t.skip(t.len() - 3) =~= seq![ds@[k as int], ds@[k + 1], ds@[k + 2]]);
            assert(out@ =~= before + grouped(t));
        }
        k = k + 3;
    }
    assert(ds@.take(len as int) =~= ds@);
    push_frac(&mut out, mag, places, Ghost(v as int));
    proof {
        assert(out@ =~= spec_format_thousands(v as int, places as int));
    }
    out
}

/// Whether reading `s` as a date slices it inside a character: the byte at
/// offset 10 continues a multi-byte character while bytes 4 and 7 are `-`.
pub open spec fn date_slice_splits_char(s: Seq<char>) -> bool {
    let b = encode_utf8(s);
    b.len() >= 10 && b[4] == '-' as u8 && b[7] == '-' as u8 && !is_char_boundary(b, 10)
}

/// The number of bytes in the UTF-8 encoding of `c`.
pub open spec fn utf8_width(c: char) -> int {
    if (c as u32) < 0x80 {
        1
    } else if (c as u32) < 0x800 {
        2
    } else if (c as u32) < 0x10000 {
        3
    } else {
        4
    }
}

/// One character's encoding: as wide as [`utf8_width`] says, a single byte
/// equal to the character when it is ASCII, and otherwise a leading byte
/// that is neither ASCII nor a continuation, then continuation bytes.
proof fn lemma_encode_char(c: char)
    ensures
        encode_scalar(c as u32).len() == utf8_width(c),
        utf8_width(c) == 1 ==> encode_scalar(c as u32)[0] == c as u32,
        utf8_width(c) > 1 ==> encode_scalar(c as u32)[0] >= 0xc0,
        forall|k: int| 1 <= k < utf8_width(c) ==> is_continuation_byte(#[trigger] encode_scalar(c as u32)[k]),
{
    vstd::utf8::char_is_scalar(c);
    let u = c as u32;
    if u < 0x80 {
        assert((u & 0x7f) as u8 == u) by (bit_vector)
            requires u < 0x80;
    } else if u < 0x800 {
        assert(0xC0 | ((u >> 6) & 0x1F) as u8 >= 0xc0) by (bit_vector);
        assert(0x80 <= 0x80 | (u & 0x3F) as u8 <= 0xbf) by (bit_vector);
    } else if u < 0x10000 {
        assert(0xE0 | ((u >> 12) & 0x0F) as u8 >= 0xc0) by (bit_vector);
        assert(0x80 <= 0x80 | ((u >> 6) & 0x3F) as u8 <= 0xbf) by (bit_vector);
        assert(0x80 <= 0x80 | (u & 0x3F) as u8 <= 0xbf) by (bit_vector);
    } else {
        assert(0xF0 | ((u >> 18) & 0x7) as u8 >= 0xc0) by (bit_vector);
        assert(0x80 <= 0x80 | ((u >> 12) & 0x3F) as u8 <= 0xbf) by (bit_vector);
        assert(0x80 <= 0x80 | ((u >> 6) & 0x3F) as u8 <= 0xbf) by (bit_vector);
        assert(0x80 <= 0x80 | (u & 0x3F) as u8 <= 0xbf) by (bit_vector);
    }
}

/// Encoding distributes over concatenation.
proof fn lemma_encode_concat(a: Seq<char>, b: Seq<char>)
    ensures
        encode_utf8(a + b) == encode_utf8(a) + encode_utf8(b),
    decreases a.len(),
{
    if a.len() == 0 {
        assert(a + b =~= b);
        assert(encode_utf8(a) + encode_utf8(b) =~= encode_utf8(b));
    } else {
        assert((a + b).drop_first() =~= a.drop_first() + b);
        lemma_encode_concat(a.drop_first(), b);
        assert(encode_utf8(a + b) =~= encode_utf8(a) + encode_utf8(b));
    }
}

/// Whether reading `v[lo..hi]` as a date would slice inside a character.
pub fn date_slice_splits(v: &Vec<char>, lo: usize, hi: usize) -> (b: bool)
    requires
        lo <= hi <= v.len(),
    ensures
        b == date_slice_splits_char(v@.subrange(lo as int, hi as int)),
{
    let ghost s = v@.subrange(lo as int, hi as int);
    let mut pos: usize = 0;
    let mut dash4 = false;
    let mut dash7 = false;
    let mut cont10 = false;
    let mut j = lo;
    assert(s.take(0) =~= Seq::<char>::empty());
    while j < hi && pos <= 10
        invariant
            lo <= j <= hi <= v.len(),
            s == v@.subrange(lo as int, hi as int),
            pos == encode_utf8(s.take(j - lo)).len(),
            pos <= 14,
            dash4 == (pos > 4 && encode_utf8(s.take(j - lo))[4] == 45),
            dash7 == (pos > 7 && encode_utf8(s.take(j - lo))[7] == 45),
            cont10 == (pos > 10 && is_continuation_byte(encode_utf8(s.take(j - lo))[10])),
        decreases hi - j,
    {
        let c = v[j];
        let w: usize = if (c as u32) < 0x80 {
            1
        } else if (c as u32) < 0x800 {
            2
        } else if (c as u32) < 0x10000 {
            3
        } else {
            4
        };
        let ghost pre = s.take(j - lo);
        proof {
            lemma_encode_char(c);
            assert(s.take(j - lo + 1) =~= pre + seq![c]);
            lemma_encode_concat(pre, seq![c]);
            assert(encode_utf8(seq![c]) =~= encode_scalar(c as u32)) by {
                assert(seq![c].drop_first() =~= Seq::<char>::empty());
                assert(seq![c][0] == c);
                assert(encode_utf8(Seq::<char>::empty()) =~= Seq::<u8>::empty());
            }
        }
        let ghost e = encode_scalar(c as u32);
        let ghost next = encode_utf8(pre) + e;
        proof {
            assert(forall|k: int| 0 <= k < pos ==> next[k] == encode_utf8(pre)[k]);
            assert(forall|k: int| pos <= k < pos + w ==> next[k] == e[k - pos]);
        }
        if pos == 4 && c == '-' {
            dash4 = true;
        }
        if pos == 7 && c == '-' {
            dash7 = true;
        }
        if pos < 10 && 10 < pos + w {
            cont10 = true;
        }
        proof {
            if pos <= 4 && 4 < pos + w {
                if 4 - pos == 0 && w == 1 {
                    assert(next[4] == c as u32);
                    vstd::utf8::char_u32_cast('-', 45);
                    if c as u32 == 45 {
                        vstd::utf8::char_u32_cast(c, 45);
                    }
                } else if 4 - pos == 0 {
                    assert(next[4] >= 0xc0);
                } else {
                    assert(is_continuation_byte(next[4]));
                }
            }
            if pos <= 7 && 7 < pos + w {
                if 7 - pos == 0 && w == 1 {
                    assert(next[7] == c as u32);
                    vstd::utf8::char_u32_cast('-', 45);
                    if c as u32 == 45 {
                        vstd::utf8::char_u32_cast(c, 45);
                    }
                } else if 7 - pos == 0 {
                    assert(next[7] >= 0xc0);
                } else {
                    assert(is_continuation_byte(next[7]));
                }
            }
            if pos <= 10 && 10 < pos + w {
                if 10 - pos == 0 {
                    if w == 1 {
                        assert(next[10] == c as u32);
                    } else {
                        assert(next[10] >= 0xc0);
                    }
                } else {
                    assert(is_continuation_byte(next[10]));
                }
            }
        }
        pos = pos + w;
        j = j + 1;
    }
    proof {
        let pre = s.take(j - lo);
        let rest = s.skip(j - lo);
        assert(pre + rest =~= s);
        lemma_encode_concat(pre, rest);
        let b = encode_utf8(s);
        vstd::utf8::encode_utf8_valid_utf8(s);
        if pos > 10 {
            assert(b[4] == encode_utf8(pre)[4]);
            assert(b[7] == encode_utf8(pre)[7]);
            assert(b[10] == encode_utf8(pre)[10]);
            vstd::utf8::is_char_boundary_iff_not_is_continuation_byte(b, 10);
        } else {
            assert(j == hi);
            assert(rest =~= Seq::<char>::empty());
            assert(b =~= encode_utf8(pre));
            if pos == 10 {
                vstd::utf8::is_char_boundary_start_end_of_seq(b);
            }
        }
    }
    pos > 10 && dash4 && dash7 && cont10
}

/// Whether `s` can be read as a date without slicing it inside a character:
/// the condition [`parse_date`] needs.
pub fn date_readable(s: &str) -> (b: bool)
    ensures
        b == !date_slice_splits_char(s@),
{
    let v = chars_of(s);
    assert(v@.subrange(0, v@.len() as int) =~= s@);
    !date_slice_splits(&v, 0, v.len())
}

/// `YYYY-MM-DD` (anything may follow the tenth character) as days since
/// 1970-01-01. The fields are read as `i64::from_str` reads them, the month
/// must lie in 1..=12 and the day in 1..=31; a day past the month's end counts
/// on into the next month.
pub open spec fn spec_parse_date(s: Seq<char>) -> Option<i64> {
    if s.len() < 10 || !all_ascii(s.take(10)) || s[4] != '-' || s[7] != '-' {
        None
    } else {
        match (
            spec_parse_i64(s.subrange(0, 4)),
            spec_parse_i64(s.subrange(5, 7)),
            spec_parse_i64(s.subrange(8, 10)),
        ) {
            (Some(y), Some(m), Some(d)) => if 1 <= m <= 12 && 1 <= d <= 31 {
                Some(epoch_day(y as int, m as int, d as int) as i64)
            } else {
                None
            },
            _ => None,
        }
    }
}

/// Four characters read as `i64::from_str` reads them lie within `-999..=9999`.
proof fn lemma_short_i64(s: Seq<char>, v: i64)
    requires
        s.len() <= 4,
        spec_parse_i64(s) == Some(v),
    ensures
        -999 <= v <= 9999,
{
    let ds = if s[0] == '-' || s[0] == '+' { s.drop_first() } else { s };
    lemma_decimal_bound(ds);
    if s[0] == '-' || s[0] == '+' {
        reveal_with_fuel(pow10, 4);
    } else {
        reveal_with_fuel(pow10, 5);
    }
}

/// A string of `n` digits writes a number below `10^n`.
pub proof fn lemma_decimal_bound(s: Seq<char>)
    requires
        all_digits(s),
    ensures
        0 <= decimal_value(s) < pow10(s.len()),
    decreases s.len(),
{
    if s.len() > 0 {
        assert(is_digit(s[s.len() - 1]));
        lemma_decimal_bound(s.drop_last());
    }
}

/// Reads the date at `v[lo..hi]` as [`parse_date`] does.
pub fn parse_date_range(v: &Vec<char>, lo: usize, hi: usize) -> (r: Option<i64>)
    requires
        lo <= hi <= v.len(),
        !date_slice_splits_char(v@.subrange(lo as int, hi as int)),
    ensures
        r == spec_parse_date(v@.subrange(lo as int, hi as int)),
{
    let ghost s = v@.subrange(lo as int, hi as int);
    if hi - lo < 10 {
        return None;
    }
    let mut i = lo;
    while i < lo + 10
        invariant
            lo <= i <= lo + 10 <= hi <= v.len(),
            s == v@.subrange(lo as int, hi as int),
            forall|k: int| 0 <= k < i - lo ==> (#[trigger] s[k] as u32) < 128,
        decreases lo + 10 - i,
    {
        if v[i] as u32 >= 128 {
            proof {
                assert(s.take(10)[i - lo] == v@[i as int]);
            }
            return None;
        }
        i = i + 1;
    }
    assert(all_ascii(s.take(10)));
    if v[lo + 4] != '-' || v[lo + 7] != '-' {
        return None;
    }
    assert(v@.subrange(lo as int, lo + 4) =~= s.subrange(0, 4));
    assert(v@.subrange(lo + 5, lo + 7) =~= s.subrange(5, 7));
    assert(v@.subrange(lo + 8, lo + 10) =~= s.subrange(8, 10));
    let y = match parse_i64_range(v, lo, lo + 4) {
        Some(y) => y,
        None => {
            return None;
        },
    };
    let m = match parse_i64_range(v, lo + 5, lo + 7) {
        Some(m) => m,
        None => {
            return None;
        },
    };
    let d = match parse_i64_range(v, lo + 8, lo + 10) {
        Some(d) => d,
        None => {
            return None;
        },
    };
    if m < 1 || m > 12 || d < 1 || d > 31 {
        return None;
    }
    proof {
        lemma_short_i64(s.subrange(0, 4), y);
    }
    Some(days_from_civil(y, m, d))
}

/// `YYYY-MM-DD` as days since 1970-01-01.
pub fn parse_date(s: &str) -> (r: Option<i64>)
    requires
        !date_slice_splits_char(s@),
    ensures
        r == spec_parse_date(s@),
{
    let v = chars_of(s);
    assert(v@.subrange(0, v@.len() as int) =~= s@);
    parse_date_range(&v, 0, v.len())
}

/// The date `z` days after 1970-01-01 written as Rust's `{y:04}-{m:02}-{d:02}`.
pub open spec fn date_text(z: int) -> Seq<char> {
    let t = civil_of(z);
    padded(t.0, 4) + seq!['-'] + padded(t.1, 2) + seq!['-'] + padded(t.2, 2)
}

/// Days since the epoch written as `YYYY-MM-DD`.
pub fn format_date(days: i64) -> (r: String)
    requires
        days <= i64::MAX - 719_468,
    ensures
        r@ == date_text(days as int),
{
    let (y, m, d) = civil_from_days(days);
    let mut out = String::new();
    push_padded(&mut out, y, 4);
    push_char(&mut out, '-');
    push_padded(&mut out, m, 2);
    push_char(&mut out, '-');
    push_padded(&mut out, d, 2);
    proof {
        assert(out@ =~= date_text(days as int));
    }
    out
}


// ---------------------------------------------------------------------------
// round trips
// ---------------------------------------------------------------------------

/// Dates round-trip through day counts: the date of a valid date's day count
/// is that date.
pub proof fn lemma_civil_round_trip(y: int, m: int, d: int)
    requires
        valid_date(y, m, d),
    ensures
        civil_of(epoch_day(y, m, d)) == (y, m, d),
{
    let z = epoch_day(y, m, d);
    let w = (y, m, d);
    assert(valid_date(w.0, w.1, w.2) && epoch_day(w.0, w.1, w.2) == z);
    let t = civil_of(z);
    lemma_epoch_day_injective(t.0, t.1, t.2, y, m, d);
}

/// Dates round-trip through text: for any date of the years 0 to 9999,
/// reading back the `YYYY-MM-DD` text of its day count gives that day count.
pub proof fn lemma_date_text_round_trip(y: int, m: int, d: int)
    requires
        valid_date(y, m, d),
        0 <= y <= 9999,
    ensures
        spec_parse_date(date_text(epoch_day(y, m, d))) == Some(epoch_day(y, m, d) as i64),
{
    let z = epoch_day(y, m, d);
    lemma_civil_round_trip(y, m, d);
    reveal_with_fuel(pow10, 5);
    lemma_padded(y, 4);
    lemma_padded(m, 2);
    lemma_padded(d, 2);
    let py = padded(y, 4);
    let pm = padded(m, 2);
    let pd = padded(d, 2);
    let s = date_text(z);
    assert(s == py + seq!['-'] + pm + seq!['-'] + pd);
    assert(s.len() == 10);
    assert(s.subrange(0, 4) =~= py);
    assert(s.subrange(5, 7) =~= pm);
    assert(s.subrange(8, 10) =~= pd);
    assert(s[4] == '-' && s[7] == '-');
    assert(all_ascii(s.take(10))) by {
        assert forall|i: int| 0 <= i < 10 implies (#[trigger] s.take(10)[i] as u32) < 128 by {
            if i < 4 {
                assert(is_digit(py[i]));
            } else if 4 < i < 7 {
                assert(is_digit(pm[i - 5]));
            } else if i > 7 {
                assert(is_digit(pd[i - 8]));
            }
        }
    }
    assert(is_digit(py[0]) && is_digit(pm[0]) && is_digit(pd[0]));
    assert(spec_parse_i64(py) == Some(y as i64));
    assert(spec_parse_i64(pm) == Some(m as i64));
    assert(spec_parse_i64(pd) == Some(d as i64));
}


// ---------------------------------------------------------------------------
// the two number formats agree
// ---------------------------------------------------------------------------

/// `s` with its `,` characters taken out.
pub open spec fn without_commas(s: Seq<char>) -> Seq<char>
    decreases s.len(),
{
    if s.len() == 0 {
        s
    } else if s.last() == ',' {
        without_commas(s.drop_last())
    } else {
        without_commas(s.drop_last()).push(s.last())
    }
}

proof fn lemma_without_commas_add(a: Seq<char>, b: Seq<char>)
    ensures
        without_commas(a + b) == without_commas(a) + without_commas(b),
    decreases b.len(),
{
    if b.len() == 0 {
        assert(a + b =~= a);
        assert(without_commas(a) + without_commas(b) =~= without_commas(a));
    } else {
        assert((a + b).drop_last() =~= a + b.drop_last());
        assert((a + b).last() == b.last());
        lemma_without_commas_add(a, b.drop_last());
        if b.last() != ',' {
            assert(without_commas(a) + without_commas(b.drop_last()).push(b.last())
                =~= (without_commas(a) + without_commas(b.drop_last())).push(b.last()));
        }
    }
}

proof fn lemma_no_commas(s: Seq<char>)
    requires
        forall|i: int| 0 <= i < s.len() ==> #[trigger] s[i] != ',',
    ensures
        without_commas(s) == s,
    decreases s.len(),
{
    if s.len() > 0 {
        lemma_no_commas(s.drop_last());
        assert(s.drop_last().push(s.last()) =~= s);
    }
}

proof fn lemma_grouped_commas(ds: Seq<char>)
    requires
        all_digits(ds),
    ensures
        without_commas(grouped(ds)) == ds,
    decreases ds.len(),
{
    if ds.len() <= 3 {
        lemma_no_commas(ds);
    } else {
        let head = ds.take(ds.len() - 3);
        let tail = ds.skip(ds.len() - 3);
        lemma_grouped_commas(head);
        lemma_no_commas(tail);
        lemma_without_commas_add(grouped(head), seq![',']);
        lemma_without_commas_add(grouped(head) + seq![','], tail);
        assert(without_commas(seq![',']) =~= Seq::<char>::empty()) by {
            let c = seq![','];
            assert(c.len() == 1 && c.last() == ',');
            assert(c.drop_last() =~= Seq::<char>::empty());
            assert(without_commas(Seq::<char>::empty()) =~= Seq::<char>::empty());
        }
        assert(head + tail =~= ds);
    }
}

/// How digits are grouped for thousands: counted from the right, every
/// fourth character is a comma and every other one a digit, so each comma
/// is followed by exactly three digits and the leftmost group holds one to
/// three of them.
pub proof fn lemma_grouped_every_fourth(ds: Seq<char>)
    requires
        all_digits(ds),
        ds.len() >= 1,
    ensures
        grouped(ds).len() == ds.len() + (ds.len() - 1) / 3,
        forall|i: int| 0 <= i < grouped(ds).len() ==> ((#[trigger] grouped(ds)[i] == ',') <==> (grouped(ds).len() - i) % 4 == 0),
        forall|i: int| 0 <= i < grouped(ds).len() && grouped(ds)[i] != ',' ==> is_digit(#[trigger] grouped(ds)[i]),
    decreases ds.len(),
{
    let g = grouped(ds);
    if ds.len() <= 3 {
        assert forall|i: int| 0 <= i < g.len() implies ((#[trigger] g[i] == ',') <==> (g.len() - i) % 4 == 0) by {
            assert(is_digit(ds[i]));
        }
    } else {
        let head = ds.take(ds.len() - 3);
        let tail = ds.skip(ds.len() - 3);
        assert(all_digits(head)) by {
            assert forall|i: int| 0 <= i < head.len() implies is_digit(#[trigger] head[i]) by {
                assert(head[i] == ds[i]);
            }
        }
        lemma_grouped_every_fourth(head);
        let gh = grouped(head);
        assert(g == gh + seq![','] + tail);
        assert forall|i: int| 0 <= i < g.len() implies ((#[trigger] g[i] == ',') <==> (g.len() - i) % 4 == 0) && (g[i]
            != ',' ==> is_digit(g[i])) by {
            if i < gh.len() {
                assert(g[i] == gh[i]);
                assert((g.len() - i) % 4 == (gh.len() - i) % 4);
            } else if i == gh.len() {
                assert(g[i] == ',');
            } else {
                assert(g[i] == tail[i - gh.len() - 1]);
                assert(tail[i - gh.len() - 1] == ds[ds.len() - 3 + i - gh.len() - 1]);
                assert(is_digit(ds[ds.len() - 3 + i - gh.len() - 1]));
            }
        }
    }
}

/// The layout of a value written with thousands separators: a `-` for a
/// negative value, the whole part's digits grouped in threes from the right
/// (every fourth character from the right a comma, the leftmost group one
/// to three digits, no comma before it), then the same fraction as the
/// plain format, which has no comma in it.
pub proof fn lemma_thousands_layout(v: int, places: int)
    ensures
        ({
            let g = grouped(decimal_digits(magnitude(v) / (SCALE as nat)));
            let n = decimal_digits(magnitude(v) / (SCALE as nat)).len();
            &&& spec_format_thousands(v, places) == sign_text(v) + g + frac_text(v, places)
            &&& n >= 1
            &&& g.len() == n + (n - 1) / 3
            &&& forall|i: int| 0 <= i < g.len() ==> ((#[trigger] g[i] == ',') <==> (g.len() - i) % 4 == 0)
            &&& forall|i: int| 0 <= i < g.len() && g[i] != ',' ==> is_digit(#[trigger] g[i])
            &&& without_commas(spec_format_thousands(v, places)) == spec_format_fixed(v, places)
        }),
{
    let ds = decimal_digits(magnitude(v) / (SCALE as nat));
    lemma_digits_value(magnitude(v) / (SCALE as nat));
    lemma_grouped_every_fourth(ds);
    lemma_thousands_is_fixed(v, places);
}

/// The two number formats agree: a value written with thousands separators,
/// its commas taken out, is the same value written plainly.
pub proof fn lemma_thousands_is_fixed(v: int, places: int)
    ensures
        without_commas(spec_format_thousands(v, places)) == spec_format_fixed(v, places),
{
    let sg = sign_text(v);
    let ds = decimal_digits(magnitude(v) / (SCALE as nat));
    let fr = frac_text(v, places);
    lemma_digits_value(magnitude(v) / (SCALE as nat));
    lemma_grouped_commas(ds);
    lemma_no_commas(sg);
    if places > 0 {
        let p: nat = if places < 9 { places as nat } else { 9 };
        let fd = decimal_digits(((magnitude(v) % (SCALE as nat)) as int / pow10((9 - p) as nat)) as nat);
        lemma_digits_value(((magnitude(v) % (SCALE as nat)) as int / pow10((9 - p) as nat)) as nat);
        assert forall|i: int| 0 <= i < fr.len() implies #[trigger] fr[i] != ',' by {
            let z = zeros(p - fd.len());
            if i >= 1 + z.len() {
                assert(fr[i] == fd[i - 1 - z.len()]);
                assert(is_digit(fd[i - 1 - z.len()]));
            }
        }
    }
    lemma_no_commas(fr);
    lemma_without_commas_add(sg, grouped(ds));
    lemma_without_commas_add(sg + grouped(ds), fr);
    lemma_without_commas_add(sg, ds);
    lemma_no_commas(ds);
}


/// `v` truncated toward zero to `places` decimals (nine at most), as the
/// integer division `v / 10^(9 - places) * 10^(9 - places)` computes it.
pub open spec fn truncated_to(v: int, places: nat) -> int {
    trunc_div(v, pow10((9 - places) as nat)) * pow10((9 - places) as nat)
}

proof fn lemma_pow10_add(a: nat, b: nat)
    ensures
        pow10(a + b) == pow10(a) * pow10(b),
    decreases a,
{
    if a > 0 {
        lemma_pow10_add((a - 1) as nat, b);
        assert(pow10(a + b) == 10 * pow10((a - 1 + b) as nat));
        let x = pow10((a - 1) as nat);
        let y = pow10(b);
        assert(10 * (x * y) == (10 * x) * y) by (nonlinear_arith);
    }
}

proof fn lemma_pow10_split(p: nat)
    requires
        p <= 9,
    ensures
        pow10(p) * pow10((9 - p) as nat) == SCALE,
        pow10(p) >= 1,
        pow10((9 - p) as nat) >= 1,
{
    lemma_pow10_add(p, (9 - p) as nat);
    reveal_with_fuel(pow10, 10);
    assert(pow10(9) == SCALE);
    lemma_pow10_pos(p);
    lemma_pow10_pos((9 - p) as nat);
}

/// Splitting a magnitude at nine decimals and truncating its fraction to a
/// multiple of `q` is truncating the magnitude itself to a multiple of `q`.
proof fn lemma_truncate_split(mag: int, ip: int, fp: int, q: int, hi: int)
    requires
        q >= 1,
        hi >= 1,
        hi * q == SCALE,
        0 <= fp < SCALE,
        ip >= 0,
        mag == ip * SCALE + fp,
    ensures
        (mag / q) * q == ip * SCALE + (fp / q) * q,
        0 <= fp / q < hi,
        (fp / q) * q <= fp,
{
    let a = fp / q;
    let r = fp % q;
    vstd::arithmetic::div_mod::lemma_fundamental_div_mod(fp, q);
    assert(fp == a * q + r && 0 <= r < q);
    assert(a >= 0) by (nonlinear_arith) requires fp == a * q + r, 0 <= r < q, fp >= 0, q >= 1;
    assert(a < hi) by (nonlinear_arith) requires fp == a * q + r, r >= 0, fp < hi * q, q >= 1;
    assert(mag == (ip * hi + a) * q + r) by (nonlinear_arith)
        requires mag == ip * SCALE + fp, fp == a * q + r, hi * q == SCALE;
    vstd::arithmetic::div_mod::lemma_fundamental_div_mod_converse(mag, q, ip * hi + a, r);
    assert((ip * hi + a) * q == ip * SCALE + a * q) by (nonlinear_arith) requires hi * q == SCALE;
    assert(a * q <= fp);
}

/// The text of a fixed-point value after its sign: integer digits, then a
/// `.` and `p` digits of `a` when `p` is positive. It is a decimal body with
/// the magnitude it was written from.
proof fn lemma_fixed_body(ip: nat, a: nat, p: nat, fr: Seq<char>)
    requires
        p <= 9,
        a < pow10(p),
        fr == (if p > 0 {
            seq!['.'] + zeros(p - decimal_digits(a).len()) + decimal_digits(a)
        } else {
            Seq::<char>::empty()
        }),
        p == 0 ==> a == 0,
    ensures
        is_decimal_body(decimal_digits(ip) + fr),
        fixed_magnitude(decimal_digits(ip) + fr) == ip * SCALE + a * pow10((9 - p) as nat),
        is_digit((decimal_digits(ip) + fr)[0]),
        is_digit((decimal_digits(ip) + fr).last()),
{
    let ds = decimal_digits(ip);
    lemma_digits_value(ip);
    let body = ds + fr;
    if p > 0 {
        let fd = decimal_digits(a);
        lemma_digits_value(a);
        lemma_digits_len(a, p);
        let zs = zeros(p - fd.len());
        let f = zs + fd;
        lemma_zeros_value(p - fd.len(), fd);
        assert(f.len() == p);
        assert(body =~= ds + seq!['.'] + f);
        assert(body.last() == fd.last());
        assert(is_digit(fd[fd.len() - 1]));
        assert forall|i: int| 0 <= i < body.len() implies is_digit(#[trigger] body[i]) || body[i] == '.' by {
            if i < ds.len() {
                assert(body[i] == ds[i]);
            } else if i > ds.len() {
                assert(body[i] == f[i - ds.len() - 1]);
            }
        }
        assert forall|i: int, j: int| 0 <= i < j < body.len() && #[trigger] body[i] == '.' implies #[trigger] body[j]
            != '.' by {
            if i < ds.len() {
                assert(body[i] == ds[i]);
                assert(is_digit(ds[i]));
            }
            assert(i == ds.len());
            assert(body[j] == f[j - ds.len() - 1]);
            assert(is_digit(f[j - ds.len() - 1]));
        }
        assert(body[0] == ds[0]);
        assert(is_digit(body[0]));
        assert(is_decimal_body(body));
        assert forall|j: int| 0 <= j < ds.len() implies body[j] != '.' by {
            assert(body[j] == ds[j]);
            assert(is_digit(ds[j]));
        }
        assert(is_first(body, '.', ds.len() as int));
        lemma_first_of(body, '.', ds.len() as int);
        assert(int_digits(body) =~= ds);
        assert(frac_digits(body) =~= f);
        assert(f.take(p as int) =~= f);
    } else {
        assert(body =~= ds);
        assert forall|i: int| 0 <= i < body.len() implies is_digit(#[trigger] body[i]) || body[i] == '.' by {
            assert(body[i] == ds[i]);
        }
        assert forall|i: int, j: int| 0 <= i < j < body.len() && #[trigger] body[i] == '.' implies #[trigger] body[j]
            != '.' by {
            assert(body[i] == ds[i]);
            assert(is_digit(ds[i]));
        }
        assert(is_digit(body[0]));
        assert(is_decimal_body(body));
        assert forall|j: int| 0 <= j < ds.len() implies body[j] != '.' by {
            assert(body[j] == ds[j]);
            assert(is_digit(ds[j]));
        }
        assert(is_first(body, '.', ds.len() as int));
        lemma_first_of(body, '.', ds.len() as int);
        assert(int_digits(body) =~= ds);
        assert(frac_digits(body) =~= Seq::<char>::empty());
        assert(Seq::<char>::empty().take(0) =~= Seq::<char>::empty());
    }
}

/// The fixed-point value of a decimal written as integer digits `ip` and,
/// after the point, fraction digits `fr`: the fraction's first nine digits,
/// right-padded with zeros, are the nine decimals.
pub open spec fn decimal_fixed(ip: Seq<char>, fr: Seq<char>) -> int {
    let n: nat = if fr.len() < 9 { fr.len() } else { 9 };
    decimal_value(ip) * SCALE + decimal_value(fr.take(n as int)) * pow10((9 - n) as nat)
}

/// What a well-formed decimal reads as: an optional sign, integer digits and
/// optionally a point with fraction digits, with at least one digit in all,
/// reads as its value with decimals past the ninth truncated, negated after
/// a `-`, when that fits an `i128`, and as nothing when it does not.
pub proof fn lemma_parse_fixed_form(sign: Seq<char>, ip: Seq<char>, dot: bool, fr: Seq<char>)
    requires
        sign.len() == 0 || sign == seq!['+'] || sign == seq!['-'],
        all_digits(ip),
        all_digits(fr),
        ip.len() + fr.len() > 0,
        !dot ==> fr.len() == 0,
    ensures
        ({
            let m = decimal_fixed(ip, fr);
            let text = sign + ip + (if dot { seq!['.'] + fr } else { Seq::<char>::empty() });
            spec_parse_fixed(text) == (if m <= i128::MAX {
                Some((if sign == seq!['-'] { -m } else { m }) as i128)
            } else {
                None::<i128>
            })
        }),
{
    let tail = if dot { seq!['.'] + fr } else { Seq::<char>::empty() };
    let body = ip + tail;
    let text = sign + ip + tail;
    assert(text =~= sign + body);
    assert(body.len() > 0);
    assert forall|i: int| 0 <= i < body.len() implies is_digit(#[trigger] body[i]) || body[i] == '.' by {
        if i < ip.len() {
            assert(body[i] == ip[i]);
        } else if i > ip.len() {
            assert(body[i] == fr[i - ip.len() - 1]);
        }
    }
    assert forall|i: int, j: int| 0 <= i < j < body.len() && #[trigger] body[i] == '.' implies #[trigger] body[j]
        != '.' by {
        if i < ip.len() {
            assert(body[i] == ip[i]);
            assert(is_digit(ip[i]));
        }
        assert(i == ip.len());
        assert(body[j] == fr[j - ip.len() - 1]);
        assert(is_digit(fr[j - ip.len() - 1]));
    }
    if ip.len() > 0 {
        assert(body[0] == ip[0] && is_digit(ip[0]));
    } else {
        assert(body[1] == fr[0] && is_digit(fr[0]));
    }
    assert(is_decimal_body(body));
    assert forall|j: int| 0 <= j < ip.len() implies body[j] != '.' by {
        assert(body[j] == ip[j]);
        assert(is_digit(ip[j]));
    }
    assert(is_first(body, '.', ip.len() as int));
    lemma_first_of(body, '.', ip.len() as int);
    assert(int_digits(body) =~= ip);
    if dot {
        assert(frac_digits(body) =~= fr);
    } else {
        assert(frac_digits(body) =~= Seq::<char>::empty());
        assert(fr =~= Seq::<char>::empty());
    }
    assert(fixed_magnitude(body) == decimal_fixed(ip, fr));
    // no surrounding whitespace
    assert(!is_whitespace(text[0])) by {
        if sign.len() > 0 {
            assert(text[0] == sign[0]);
        } else {
            assert(text[0] == body[0]);
        }
    }
    assert(trim_start(text) == text);
    assert(text.last() == body.last());
    assert(is_digit(body.last()) || body.last() == '.');
    assert(!is_whitespace(text.last()));
    assert(trim(text) == text);
    if sign.len() > 0 {
        assert(text.drop_first() =~= body);
        assert(text[0] == sign[0]);
    } else {
        assert(text =~= body);
        assert(text[0] != '-' && text[0] != '+');
    }
}

/// The parts of a well-formed decimal: an optional sign, integer digits,
/// and fraction digits after a point when there is one, with at least one
/// digit in all.
pub open spec fn decimal_form(sign: Seq<char>, ip: Seq<char>, dot: bool, fr: Seq<char>) -> bool {
    &&& sign.len() == 0 || sign == seq!['+'] || sign == seq!['-']
    &&& all_digits(ip)
    &&& all_digits(fr)
    &&& ip.len() + fr.len() > 0
    &&& !dot ==> fr.len() == 0
}

/// A decimal written from its parts.
pub open spec fn decimal_text(sign: Seq<char>, ip: Seq<char>, dot: bool, fr: Seq<char>) -> Seq<char> {
    sign + ip + (if dot { seq!['.'] + fr } else { Seq::<char>::empty() })
}

/// A decimal body splits into integer digits and, after a point when there
/// is one, fraction digits, and its magnitude is theirs.
proof fn lemma_body_parts(body: Seq<char>) -> (r: (Seq<char>, bool, Seq<char>))
    requires
        is_decimal_body(body),
    ensures
        decimal_form(Seq::<char>::empty(), r.0, r.1, r.2),
        body == decimal_text(Seq::<char>::empty(), r.0, r.1, r.2),
        fixed_magnitude(body) == decimal_fixed(r.0, r.2),
{
    let k: int = if exists|i: int| 0 <= i < body.len() && body[i] == '.' {
        choose|i: int| 0 <= i < body.len() && body[i] == '.'
    } else {
        body.len() as int
    };
    assert(is_first(body, '.', k)) by {
        if k < body.len() {
            assert forall|j: int| 0 <= j < k implies body[j] != '.' by {
                if body[j] == '.' {
                    assert(body[k] != '.');
                }
            }
        }
    }
    lemma_first_of(body, '.', k);
    let dot = k < body.len();
    let ip = body.take(k);
    let fr = if dot { body.skip(k + 1) } else { Seq::<char>::empty() };
    assert(all_digits(ip)) by {
        assert forall|i: int| 0 <= i < ip.len() implies is_digit(#[trigger] ip[i]) by {
            assert(ip[i] == body[i] && body[i] != '.');
        }
    }
    assert(all_digits(fr)) by {
        assert forall|i: int| 0 <= i < fr.len() implies is_digit(#[trigger] fr[i]) by {
            assert(fr[i] == body[k + 1 + i]);
            assert(body[k] == '.');
            assert(body[k + 1 + i] != '.');
        }
    }
    let tail = if dot { seq!['.'] + fr } else { Seq::<char>::empty() };
    assert(body =~= ip + tail);
    assert(ip.len() + fr.len() > 0) by {
        let w = choose|i: int| 0 <= i < body.len() && is_digit(#[trigger] body[i]);
        assert(is_digit(body[w]));
        if w < k {
            assert(ip.len() > 0);
        } else if dot {
            assert(w != k);
            assert(fr.len() > 0);
        }
    }
    assert(Seq::<char>::empty() + ip + tail =~= body);
    assert(int_digits(body) =~= ip);
    assert(frac_digits(body) =~= fr);
    (ip, dot, fr)
}

/// Only well-formed decimals read: whatever reads as a value is, once its
/// surrounding whitespace is trimmed, an optional sign, digits and at most
/// one point, and reads as that decimal's value, which fits an `i128`.
pub proof fn lemma_parse_fixed_only_form(s: Seq<char>)
    requires
        spec_parse_fixed(s) is Some,
    ensures
        exists|sign: Seq<char>, ip: Seq<char>, dot: bool, fr: Seq<char>|
            decimal_form(sign, ip, dot, fr) && trim(s) == #[trigger] decimal_text(sign, ip, dot, fr)
                && decimal_fixed(ip, fr) <= i128::MAX && spec_parse_fixed(s) == Some(
                (if sign == seq!['-'] { -decimal_fixed(ip, fr) } else { decimal_fixed(ip, fr) }) as i128,
            ),
{
    let t = trim(s);
    let signed = t[0] == '-' || t[0] == '+';
    let sign = if signed { seq![t[0]] } else { Seq::<char>::empty() };
    let body = if signed { t.drop_first() } else { t };
    assert(is_decimal_body(body));
    let (ip, dot, fr) = lemma_body_parts(body);
    let tail = if dot { seq!['.'] + fr } else { Seq::<char>::empty() };
    assert(body =~= ip + tail);
    assert(t =~= sign + body);
    assert(t =~= decimal_text(sign, ip, dot, fr));
    assert(decimal_form(sign, ip, dot, fr));
    assert(sign == seq!['-'] <==> t[0] == '-');
}

/// Two digit strings of the same length that write the same number are
/// the same string.
proof fn lemma_digits_unique(a: Seq<char>, b: Seq<char>)
    requires
        all_digits(a),
        all_digits(b),
        a.len() == b.len(),
        decimal_value(a) == decimal_value(b),
    ensures
        a == b,
    decreases a.len(),
{
    if a.len() == 0 {
        assert(a =~= b);
    } else {
        let (x, y) = (a.drop_last(), b.drop_last());
        assert(is_digit(a.last()) && is_digit(b.last()));
        lemma_decimal_nonneg(x);
        lemma_decimal_nonneg(y);
        let (da, db) = (digit_value(a.last()), digit_value(b.last()));
        assert(0 <= da < 10 && 0 <= db < 10);
        vstd::arithmetic::div_mod::lemma_fundamental_div_mod_converse(decimal_value(a), 10, decimal_value(x), da);
        vstd::arithmetic::div_mod::lemma_fundamental_div_mod_converse(decimal_value(b), 10, decimal_value(y), db);
        assert(da == db);
        assert(a.last() as u32 == b.last() as u32);
        vstd::utf8::char_u32_cast(a.last(), a.last() as u32);
        vstd::utf8::char_u32_cast(b.last(), b.last() as u32);
        assert(a.last() == b.last());
        lemma_digits_unique(x, y);
        assert(a =~= x.push(a.last()));
        assert(b =~= y.push(b.last()));
    }
}

/// A digit string read in two parts: its first `j` digits shifted left past
/// the rest, plus the rest.
proof fn lemma_value_split(s: Seq<char>, j: int)
    requires
        all_digits(s),
        0 <= j <= s.len(),
    ensures
        decimal_value(s) == decimal_value(s.take(j)) * pow10((s.len() - j) as nat) + decimal_value(s.skip(j)),
        0 <= decimal_value(s.skip(j)) < pow10((s.len() - j) as nat),
    decreases s.len(),
{
    if j == s.len() {
        assert(s.take(j) =~= s);
        assert(s.skip(j) =~= Seq::<char>::empty());
        reveal_with_fuel(pow10, 1);
        assert(decimal_value(s.skip(j)) == 0);
        assert(pow10((s.len() - j) as nat) == 1);
    } else {
        let t = s.drop_last();
        assert(is_digit(s.last()));
        lemma_value_split(t, j);
        assert(t.take(j) =~= s.take(j));
        assert(s.skip(j) =~= t.skip(j).push(s.last()));
        assert(s.skip(j).drop_last() =~= t.skip(j));
        let d = digit_value(s.last());
        let q = pow10((t.len() - j) as nat);
        assert(pow10((s.len() - j) as nat) == 10 * q);
        let hi = decimal_value(s.take(j));
        let lo = decimal_value(t.skip(j));
        assert(decimal_value(s.skip(j)) == lo * 10 + d);
        assert(decimal_value(t) == hi * q + lo);
        assert(decimal_value(s) == decimal_value(t) * 10 + d);
        assert(decimal_value(s) == hi * (10 * q) + (lo * 10 + d)) by (nonlinear_arith)
            requires decimal_value(s) == decimal_value(t) * 10 + d, decimal_value(t) == hi * q + lo;
        assert(lo * 10 + d < 10 * q) by (nonlinear_arith) requires lo < q, 0 <= d < 10, lo >= 0;
        assert(0 <= decimal_value(s.skip(j)) < pow10((s.len() - j) as nat));
    }
}

/// The fraction written with `p` places is the first `p` digits of the
/// nine-digit, zero-padded fraction.
proof fn lemma_frac_is_padded_prefix(v: int, places: int)
    requires
        places > 0,
    ensures
        frac_text(v, places) == seq!['.'] + padded(
            (magnitude(v) % (SCALE as nat)) as int,
            9,
        ).take(if places < 9 { places } else { 9 }),
{
    let fp = magnitude(v) % (SCALE as nat);
    let p: nat = if places < 9 { places as nat } else { 9 };
    lemma_pow10_split(p);
    reveal_with_fuel(pow10, 10);
    assert(pow10(9) == SCALE);
    let q = pow10((9 - p) as nat);
    let ds = decimal_digits(fp);
    lemma_digits_value(fp);
    lemma_digits_len(fp, 9);
    let big = padded(fp as int, 9);
    assert(big == zeros(9 - ds.len()) + ds);
    lemma_zeros_value(9 - ds.len(), ds);
    assert(big.len() == 9);
    lemma_value_split(big, p as int);
    let t = big.take(p as int);
    let a = fp as int / q;
    let rest = decimal_value(big.skip(p as int));
    vstd::arithmetic::div_mod::lemma_fundamental_div_mod_converse(fp as int, q, decimal_value(t), rest);
    assert(decimal_value(t) == a);
    assert(all_digits(t)) by {
        assert forall|i: int| 0 <= i < t.len() implies is_digit(#[trigger] t[i]) by {
            assert(t[i] == big[i]);
        }
    }
    lemma_truncate_split(fp as int, 0, fp as int, q, pow10(p));
    let fd = decimal_digits(a as nat);
    lemma_digits_value(a as nat);
    lemma_digits_len(a as nat, p);
    let f = zeros(p - fd.len()) + fd;
    lemma_zeros_value(p - fd.len(), fd);
    lemma_digits_unique(t, f);
    assert(frac_text(v, places) == seq!['.'] + f);
}

/// The layout of a written fixed-point value: a `-` for a negative value,
/// the whole part, and when `places` is positive a `.` followed by the first
/// `places` (at most nine) digits of the fraction zero-padded to nine, so
/// the text truncates and never rounds.
pub proof fn lemma_format_fixed_layout(v: int, places: int)
    ensures
        spec_format_fixed(v, places) == sign_text(v) + decimal_digits(magnitude(v) / (SCALE as nat)) + (if places > 0 {
            seq!['.'] + padded((magnitude(v) % (SCALE as nat)) as int, 9).take(if places < 9 { places } else { 9 })
        } else {
            Seq::<char>::empty()
        }),
{
    if places > 0 {
        lemma_frac_is_padded_prefix(v, places);
    }
}

/// Fixed-point values round-trip through text: a value written with
/// `places` decimals reads back as itself truncated toward zero to that many
/// places; written with all nine, it reads back as itself.
pub proof fn lemma_fixed_round_trip_places(v: int, places: int)
    requires
        i128::MIN < v <= i128::MAX,
        0 <= places <= 9,
    ensures
        spec_parse_fixed(spec_format_fixed(v, places)) == Some(truncated_to(v, places as nat) as i128),
        places == 9 ==> truncated_to(v, 9) == v,
{
    let sc = SCALE as nat;
    let mag = magnitude(v);
    let ip = mag / sc;
    let fp = mag % sc;
    let p = places as nat;
    let q = pow10((9 - p) as nat);
    let hi = pow10(p);
    lemma_pow10_split(p);
    vstd::arithmetic::div_mod::lemma_fundamental_div_mod(mag as int, SCALE as int);
    assert(mag == ip * SCALE + fp);
    lemma_truncate_split(mag as int, ip as int, fp as int, q, hi);
    let a = (fp as int / q) as nat;
    let ds = decimal_digits(ip);
    lemma_digits_value(ip);
    assert(ds.len() >= 1);
    let sg = sign_text(v);
    let s = spec_format_fixed(v, places);
    let fr = frac_text(v, places);
    assert(s == sg + ds + fr);
    let m = ip * SCALE + a * q;
    let body = ds + fr;
    assert(a < hi);
    assert(p == 0 ==> a == 0) by {
        if p == 0 {
            assert(hi == 1) by {
                reveal_with_fuel(pow10, 1);
            }
        }
    }
    lemma_fixed_body(ip, a, p, fr);
    assert(s =~= sg + body);
    assert(s.last() == body.last());
    // the text carries no surrounding whitespace
    assert(s.len() > 0);
    assert(s[0] == '-' || is_digit(s[0])) by {
        if v >= 0 {
            assert(s[0] == ds[0]);
        }
    }
    assert(!is_whitespace(s[0]));
    assert(trim_start(s) == s);
    assert(!is_whitespace(s.last()));
    assert(trim(s) == s);
    if v < 0 {
        assert(s.drop_first() =~= body);
    } else {
        assert(s =~= body);
    }
    assert(m == (mag as int / q) * q);
    assert(m <= mag);
    assert(fixed_magnitude(body) == m);
    let t = trim(s);
    assert(t[0] == '-' <==> v < 0);
    if v < 0 {
        assert(t[0] == '-');
        assert(mag == -v);
        assert(trunc_div(v, q) == -((-v) / q));
        assert(truncated_to(v, p) == -((mag as int / q) * q)) by (nonlinear_arith)
            requires truncated_to(v, p) == trunc_div(v, q) * q, trunc_div(v, q) == -((mag as int) / q);
        assert(spec_parse_fixed(s) == Some((-m) as i128));
    } else {
        assert(t[0] != '-' && t[0] != '+') by {
            assert(is_digit(body[0]));
        }
        assert(trunc_div(v, q) == v / q);
        assert(spec_parse_fixed(s) == Some(m as i128));
    }
    if places == 9 {
        reveal_with_fuel(pow10, 2);
        assert(q == 1);
    }
}

/// Fixed-point values round-trip through text: a value written with all
/// nine decimals reads back as itself.
pub proof fn lemma_fixed_round_trip(v: int)
    requires
        i128::MIN < v <= i128::MAX,
    ensures
        spec_parse_fixed(spec_format_fixed(v, 9)) == Some(v as i128),
{
    lemma_fixed_round_trip_places(v, 9);
}

} // verus!
