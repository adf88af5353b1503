//! The proleptic Gregorian calendar as a day count, and the facts about it
//! that the date conversions rest on.

use vstd::arithmetic::div_mod::*;
use vstd::prelude::*;

verus! {

/// Leap years of the Gregorian calendar.
pub open spec fn is_leap(y: int) -> bool {
    y % 4 == 0 && (y % 100 != 0 || y % 400 == 0)
}

/// Number of days in month `m` of year `y`.
pub open spec fn days_in_month(y: int, m: int) -> int {
    if m == 2 {
        if is_leap(y) { 29 } else { 28 }
    } else if m == 4 || m == 6 || m == 9 || m == 11 {
        30
    } else {
        31
    }
}

/// A calendar date that exists.
pub open spec fn valid_date(y: int, m: int, d: int) -> bool {
    1 <= m <= 12 && 1 <= d <= days_in_month(y, m)
}

/// Counting years from March, January and February belong to the year before.
pub open spec fn march_year(y: int, m: int) -> int {
    if m <= 2 { y - 1 } else { y }
}

/// Position of month `m` in a year that starts in March (March is 0, February 11).
pub open spec fn march_month(m: int) -> int {
    if m >= 3 { m - 3 } else { m + 9 }
}

/// Days from the first of March to the first of the month at March-position `mp`.
pub open spec fn days_before_month(mp: int) -> int {
    if mp == 0 { 0 }
    else if mp == 1 { 31 }
    else if mp == 2 { 61 }
    else if mp == 3 { 92 }
    else if mp == 4 { 122 }
    else if mp == 5 { 153 }
    else if mp == 6 { 184 }
    else if mp == 7 { 214 }
    else if mp == 8 { 245 }
    else if mp == 9 { 275 }
    else if mp == 10 { 306 }
    else { 337 }
}

/// Days from 0000-03-01 to the first of March of year `yy`.
pub open spec fn days_before_year(yy: int) -> int {
    365 * yy + yy / 4 - yy / 100 + yy / 400
}

/// Days from 0000-03-01 to `y-m-d`.
pub open spec fn day_number(y: int, m: int, d: int) -> int {
    days_before_year(march_year(y, m)) + days_before_month(march_month(m)) + d - 1
}

/// Days since 1970-01-01 of the date `y-m-d`.
pub open spec fn epoch_day(y: int, m: int, d: int) -> int {
    day_number(y, m, d) - day_number(1970, 1, 1)
}

/// The calendar date that lies `z` days after 1970-01-01.
pub open spec fn civil_of(z: int) -> (int, int, int) {
    choose|t: (int, int, int)| valid_date(t.0, t.1, t.2) && epoch_day(t.0, t.1, t.2) == z
}

/// The calendar date that follows `y-m-d`.
pub open spec fn next_date(y: int, m: int, d: int) -> (int, int, int) {
    if d < days_in_month(y, m) {
        (y, m, d + 1)
    } else if m < 12 {
        (y, m + 1, 1)
    } else {
        (y + 1, 1, 1)
    }
}

pub proof fn lemma_epoch_offset()
    ensures
        day_number(1970, 1, 1) == 719468,
{
}

/// `x / k == q` whenever `q * k <= x < q * k + k`.
pub proof fn lemma_div_is(x: int, k: int, q: int)
    requires
        k > 0,
        q * k <= x < q * k + k,
    ensures
        x / k == q,
        x % k == x - q * k,
{
    lemma_fundamental_div_mod_converse(x, k, q, x - q * k);
}

/// Whole 400-year eras shift the day count by 146097 days each.
pub proof fn lemma_days_before_year_era(e: int, r: int)
    requires
        0 <= r < 400,
    ensures
        days_before_year(400 * e + r) == 146097 * e + 365 * r + r / 4 - r / 100,
{
    let y = 400 * e + r;
    lemma_div_is(y, 4, 100 * e + r / 4);
    lemma_div_is(y, 100, 4 * e + r / 100);
    lemma_div_is(y, 400, e);
}

/// Leap years repeat every 400 years.
pub proof fn lemma_leap_periodic(a: int, e: int)
    ensures
        is_leap(a + 400 * e) == is_leap(a),
{
    let b = a + 400 * e;
    lemma_div_is(b, 4, a / 4 + 100 * e);
    lemma_div_is(a, 4, a / 4);
    lemma_div_is(b, 100, a / 100 + 4 * e);
    lemma_div_is(a, 100, a / 100);
    lemma_div_is(b, 400, a / 400 + e);
    lemma_div_is(a, 400, a / 400);
}

/// `(y + 1) / k - y / k` is one exactly when `k` divides `y + 1`.
pub proof fn lemma_floor_step(y: int, k: int)
    requires
        k > 0,
    ensures
        (y + 1) / k - y / k == (if (y + 1) % k == 0 { 1int } else { 0int }),
{
    lemma_fundamental_div_mod(y, k);
    lemma_fundamental_div_mod(y + 1, k);
    lemma_mod_bound(y, k);
    lemma_mod_bound(y + 1, k);
    let q = y / k;
    let q1 = (y + 1) / k;
    assert(q1 == q || q1 == q + 1) by (nonlinear_arith)
        requires
            y == k * q + y % k,
            y + 1 == k * q1 + (y + 1) % k,
            0 <= y % k < k,
            0 <= (y + 1) % k < k,
            k > 0,
    ;
    assert(q1 == q + 1 <==> (y + 1) % k == 0) by (nonlinear_arith)
        requires
            y == k * q + y % k,
            y + 1 == k * q1 + (y + 1) % k,
            0 <= y % k < k,
            0 <= (y + 1) % k < k,
            k > 0,
            q1 == q || q1 == q + 1,
    ;
}

/// A March-based year `yy` has 366 days when the February it ends with is a leap February.
pub proof fn lemma_year_length(yy: int)
    ensures
        days_before_year(yy + 1) - days_before_year(yy) == (if is_leap(yy + 1) { 366int } else { 365int }),
{
    lemma_floor_step(yy, 4);
    lemma_floor_step(yy, 100);
    lemma_floor_step(yy, 400);
    let z = yy + 1;
    lemma_div_is(z, 4, z / 4);
    lemma_div_is(z, 100, z / 100);
    lemma_div_is(z, 400, z / 400);
    if z % 400 == 0 {
        lemma_div_is(z, 4, 100 * (z / 400));
        lemma_div_is(z, 100, 4 * (z / 400));
    } else if z % 100 == 0 {
        lemma_div_is(z, 4, 25 * (z / 100));
    }
}

pub proof fn lemma_days_before_year_monotone(a: int, b: int)
    requires
        a <= b,
    ensures
        days_before_year(a) <= days_before_year(b),
    decreases b - a,
{
    if a < b {
        lemma_year_length(b - 1);
        lemma_days_before_year_monotone(a, b - 1);
    }
}

/// Within a March-based year, the month and day of a day offset `doy` are
/// found by `(5 * doy + 2) / 153`, and the month tables agree with `153 * mp + 2) / 5`.
pub proof fn lemma_month_of_offset(doy: int, mp: int)
    requires
        0 <= mp < 12,
        days_before_month(mp) <= doy,
        mp < 11 ==> doy < days_before_month(mp + 1),
        mp == 11 ==> doy <= 365,
    ensures
        (5 * doy + 2) / 153 == mp,
        (153 * mp + 2) / 5 == days_before_month(mp),
{
    lemma_div_is(5 * doy + 2, 153, mp);
    lemma_div_is(153 * mp + 2, 5, days_before_month(mp));
}

/// Every day offset in `[0, 365]` falls in exactly one month.
pub proof fn lemma_offset_has_month(doy: int)
    requires
        0 <= doy <= 365,
    ensures
        ({
            let mp = (5 * doy + 2) / 153;
            &&& 0 <= mp < 12
            &&& days_before_month(mp) <= doy
            &&& mp < 11 ==> doy < days_before_month(mp + 1)
        }),
{
    let mp: int = if doy < 31 { 0 }
        else if doy < 61 { 1 }
        else if doy < 92 { 2 }
        else if doy < 122 { 3 }
        else if doy < 153 { 4 }
        else if doy < 184 { 5 }
        else if doy < 214 { 6 }
        else if doy < 245 { 7 }
        else if doy < 275 { 8 }
        else if doy < 306 { 9 }
        else if doy < 337 { 10 }
        else { 11 };
    lemma_month_of_offset(doy, mp);
}

/// Day `doe` of a 400-year era (counted from March 1st of year 0 of the era)
/// falls in March-based year `yoe` at offset `doy`, and an offset of 365 only
/// happens in a year whose February is a leap February.
pub proof fn lemma_era_day(doe: int)
    requires
        0 <= doe <= 146096,
    ensures
        ({
            let yoe = (doe - doe / 1460 + doe / 36524 - doe / 146096) / 365;
            let doy = doe - (365 * yoe + yoe / 4 - yoe / 100);
            &&& 0 <= yoe < 400
            &&& 0 <= doy <= 365
            &&& doy == 365 ==> is_leap(yoe + 1)
        }),
{
    let c: int = if doe / 36524 < 3 { doe / 36524 } else { 3 };
    lemma_div_is(doe, 36524, doe / 36524);
    let rest1 = doe - 36524 * c;
    assert(0 <= rest1 <= 36524);
    let q = rest1 / 1461;
    lemma_div_is(rest1, 1461, q);
    assert(0 <= q <= 24);
    let rest2 = rest1 - 1461 * q;
    assert(0 <= rest2 <= 1460);
    let r: int = if rest2 / 365 < 3 { rest2 / 365 } else { 3 };
    lemma_div_is(rest2, 365, rest2 / 365);
    let dd = rest2 - 365 * r;
    assert(0 <= dd <= 365);
    assert(dd == 365 ==> r == 3 && (q < 24 || c == 3));
    assert(doe == 36524 * c + 1461 * q + 365 * r + dd);
    let e: int = if 24 * c + q + 365 * r + dd >= 1460 { 1 } else { 0 };
    lemma_div_is(doe, 1460, 25 * c + q + e);
    let cc: int = if doe == 146096 { 4 } else { c };
    lemma_div_is(doe, 36524, cc);
    let h: int = if doe == 146096 { 1 } else { 0 };
    lemma_div_is(doe, 146096, h);
    let g = doe - doe / 1460 + doe / 36524 - doe / 146096;
    let yoe = 100 * c + 4 * q + r;
    if doe == 146096 {
        assert(g == 365 * 399 + 364);
    } else {
        assert(g == 365 * yoe + dd - e);
        assert(0 <= dd - e < 365);
    }
    lemma_div_is(g, 365, yoe);
    lemma_div_is(yoe, 4, 25 * c + q);
    lemma_div_is(yoe, 100, c);
    assert(doe - (365 * yoe + yoe / 4 - yoe / 100) == dd);
    if dd == 365 {
        let z = yoe + 1;
        lemma_div_is(z, 4, 25 * c + q + 1);
        if q == 24 {
            assert(c == 3);
            lemma_div_is(z, 400, 1);
        } else {
            lemma_div_is(z, 100, c);
        }
    }
}

/// The month table agrees with the closed form `(153 * mp + 2) / 5`.
pub proof fn lemma_month_table(mp: int)
    requires
        0 <= mp < 12,
    ensures
        (153 * mp + 2) / 5 == days_before_month(mp),
{
    lemma_div_is(153 * mp + 2, 5, days_before_month(mp));
}

/// Offset of a valid date within its March-based year.
pub open spec fn day_of_year(m: int, d: int) -> int {
    days_before_month(march_month(m)) + d - 1
}

/// Length of the March-based year `yy`, whose February belongs to year `yy + 1`.
pub open spec fn year_length(yy: int) -> int {
    if is_leap(yy + 1) { 366 } else { 365 }
}

/// A valid date sits inside its March-based year, in the month the closed form names.
pub proof fn lemma_valid_offset(y: int, m: int, d: int)
    requires
        valid_date(y, m, d),
    ensures
        0 <= day_of_year(m, d) < year_length(march_year(y, m)),
        (5 * day_of_year(m, d) + 2) / 153 == march_month(m),
{
    let mp = march_month(m);
    let doy = day_of_year(m, d);
    if m == 2 {
        assert(march_year(y, m) + 1 == y);
    }
    lemma_month_of_offset(doy, mp);
}

/// Two valid dates with the same day count are the same date.
pub proof fn lemma_epoch_day_injective(y1: int, m1: int, d1: int, y2: int, m2: int, d2: int)
    requires
        valid_date(y1, m1, d1),
        valid_date(y2, m2, d2),
        epoch_day(y1, m1, d1) == epoch_day(y2, m2, d2),
    ensures
        y1 == y2 && m1 == m2 && d1 == d2,
{
    let a = march_year(y1, m1);
    let b = march_year(y2, m2);
    let da = day_of_year(m1, d1);
    let db = day_of_year(m2, d2);
    lemma_valid_offset(y1, m1, d1);
    lemma_valid_offset(y2, m2, d2);
    assert(days_before_year(a) + da == days_before_year(b) + db);
    if a < b {
        lemma_year_length(a);
        lemma_days_before_year_monotone(a + 1, b);
        assert(false);
    } else if b < a {
        lemma_year_length(b);
        lemma_days_before_year_monotone(b + 1, a);
        assert(false);
    }
    assert(da == db);
    assert(march_month(m1) == march_month(m2));
}

/// The day count advances by exactly one from each valid date to the next.
pub proof fn lemma_next_date(y: int, m: int, d: int)
    requires
        valid_date(y, m, d),
    ensures
        valid_date(next_date(y, m, d).0, next_date(y, m, d).1, next_date(y, m, d).2),
        epoch_day(next_date(y, m, d).0, next_date(y, m, d).1, next_date(y, m, d).2)
            == epoch_day(y, m, d) + 1,
{
    if d < days_in_month(y, m) {
    } else if m == 2 {
        lemma_year_length(y - 1);
    } else if m < 12 {
    } else {
    }
}

/// The same month and day one year later lies 365 or 366 days on.
pub proof fn lemma_year_step(y: int, m: int, d: int)
    ensures
        365 <= epoch_day(y + 1, m, d) - epoch_day(y, m, d) <= 366,
{
    lemma_year_length(march_year(y, m));
    assert(march_year(y + 1, m) == march_year(y, m) + 1);
}

/// `k` years later the same month and day lies at least `365 * k` days on.
pub proof fn lemma_years_apart(y: int, m: int, d: int, k: nat)
    ensures
        epoch_day(y + k, m, d) >= epoch_day(y, m, d) + 365 * k,
    decreases k,
{
    if k > 0 {
        lemma_years_apart(y, m, d, (k - 1) as nat);
        lemma_year_step(y + k - 1, m, d);
    }
}

/// `k` years on, the same month and day lie at most `366 · k` days later.
pub proof fn lemma_years_apart_at_most(y: int, m: int, d: int, k: nat)
    ensures
        epoch_day(y + k, m, d) <= epoch_day(y, m, d) + 366 * k,
    decreases k,
{
    if k > 0 {
        lemma_years_apart_at_most(y, m, d, (k - 1) as nat);
        lemma_year_step(y + k - 1, m, d);
    }
}

/// The year of a valid date is within a 365th of its day count from 1970, give or take.
pub proof fn lemma_year_of_day(y: int, m: int, d: int, bound: int)
    requires
        valid_date(y, m, d),
        bound >= 0,
        -bound <= epoch_day(y, m, d) <= bound,
    ensures
        -(bound / 365) - 3000 <= y <= bound / 365 + 3000,
{
    let yy = march_year(y, m);
    lemma_valid_offset(y, m, d);
    lemma_epoch_offset();
    let doy = day_of_year(m, d);
    assert(0 <= doy <= 365);
    let dby = days_before_year(yy);
    assert(epoch_day(y, m, d) == dby + doy - 719468);
    lemma_div_is(yy, 4, yy / 4);
    lemma_div_is(yy, 100, yy / 100);
    lemma_div_is(yy, 400, yy / 400);
    if yy >= 0 {
        assert(dby >= 365 * yy);
        assert(365 * yy <= bound + 719468);
        lemma_div_is(bound, 365, bound / 365);
        assert(yy <= bound / 365 + 2000);
    } else {
        assert(dby <= 365 * yy + 2);
        assert(365 * yy + 2 + 365 >= -bound + 719468);
        lemma_div_is(bound, 365, bound / 365);
        assert(yy >= -(bound / 365) - 2000);
    }
}

} // verus!
