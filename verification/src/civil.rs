//! The proleptic Gregorian calendar, stated directly: a date's distance from
//! the Unix epoch is the days of the whole years since 1970, plus the days of
//! the whole months of its year, plus its day of the month minus one.

use vstd::prelude::*;

verus! {

pub open spec fn is_leap(y: int) -> bool {
    (y % 4 == 0 && y % 100 != 0) || y % 400 == 0
}

pub open spec fn days_in_month(y: int, m: int) -> int {
    if m == 2 {
        if is_leap(y) { 29 } else { 28 }
    } else if m == 4 || m == 6 || m == 9 || m == 11 {
        30
    } else {
        31
    }
}

/// Days of the months of year `y` before month `m`.
pub open spec fn days_before_month(y: int, m: int) -> int {
    let base: int = if m == 1 { 0 }
        else if m == 2 { 31 }
        else if m == 3 { 59 }
        else if m == 4 { 90 }
        else if m == 5 { 120 }
        else if m == 6 { 151 }
        else if m == 7 { 181 }
        else if m == 8 { 212 }
        else if m == 9 { 243 }
        else if m == 10 { 273 }
        else if m == 11 { 304 }
        else { 334 };
    if m > 2 && is_leap(y) { base + 1 } else { base }
}

/// Leap years among `1..=y` (for `y >= 0`).
pub open spec fn leaps_through(y: int) -> int {
    y / 4 - y / 100 + y / 400
}

/// Days from 1970-01-01 to `y-m-d`.
pub open spec fn days_from_epoch(y: int, m: int, d: int) -> int {
    365 * (y - 1970) + (leaps_through(y - 1) - leaps_through(1969)) + days_before_month(y, m) + d - 1
}

/// `y-m-d` is a real calendar date at or after 1970-01-01.
pub open spec fn is_date(y: int, m: int, d: int) -> bool {
    y >= 1970 && 1 <= m <= 12 && 1 <= d <= days_in_month(y, m)
}

/// `y-m-d` is the calendar date `days` days after 1970-01-01.
pub open spec fn is_civil_date(days: int, y: int, m: int, d: int) -> bool {
    is_date(y, m, d) && days_from_epoch(y, m, d) == days
}


/// Within one 400-year era (146097 days counted from a March 1st), the
/// year-of-era estimate lands on the right year and leaves a day-of-year
/// inside that March-based year.
proof fn lemma_year_of_era(doe: u32)
    by (bit_vector)
    requires
        doe < 146097,
    ensures
        ({
            let yoe = (doe - doe / 1460 + doe / 36524 - doe / 146096) / 365;
            let doy = doe - (365 * yoe + yoe / 4 - yoe / 100);
            &&& yoe < 400
            &&& 365 * yoe + yoe / 4 - yoe / 100 <= doe
            &&& doy <= 365
            &&& (doy == 365 ==> ((yoe + 1) % 4 == 0 && ((yoe + 1) % 100 != 0 || (yoe + 1) % 400 == 0)))
        }),
{
}


/// Within a March-based year, the month estimate `(5 * doy + 2) / 153` lands
/// on the month holding `doy`, counted from March.
proof fn lemma_month_of_year(doy: u32)
    by (bit_vector)
    requires
        doy <= 365,
    ensures
        ({
            let mp = (5 * doy + 2) / 153;
            let start = (153 * mp + 2) / 5;
            let d = doy - start + 1;
            &&& mp <= 11
            &&& start <= doy
            &&& d >= 1
            &&& (mp == 0 || mp == 2 || mp == 4 || mp == 5 || mp == 7 || mp == 9 || mp == 10 ==> d <= 31)
            &&& (mp == 1 || mp == 3 || mp == 6 || mp == 8 ==> d <= 30)
            &&& (mp == 11 ==> d <= 29 && (doy <= 364 ==> d <= 28))
        }),
{
}

proof fn lemma_step_count(y: int, k: int)
    requires
        y >= 1,
        k > 0,
    ensures
        y / k - (y - 1) / k == (if y % k == 0 { 1int } else { 0int }),
{
    assert(y == k * (y / k) + y % k) by (nonlinear_arith) requires k > 0;
    assert(y - 1 == k * ((y - 1) / k) + (y - 1) % k) by (nonlinear_arith) requires k > 0;
    assert(0 <= y % k < k) by (nonlinear_arith) requires k > 0;
    assert(0 <= (y - 1) % k < k) by (nonlinear_arith) requires k > 0;
    if y % k == 0 {
        assert(y / k - (y - 1) / k == 1) by (nonlinear_arith)
            requires
                y == k * (y / k) + y % k,
                y - 1 == k * ((y - 1) / k) + (y - 1) % k,
                0 <= (y - 1) % k < k,
                y % k == 0,
                k > 0;
    } else {
        assert(y / k - (y - 1) / k == 0) by (nonlinear_arith)
            requires
                y == k * (y / k) + y % k,
                y - 1 == k * ((y - 1) / k) + (y - 1) % k,
                0 <= (y - 1) % k < k,
                0 < y % k < k,
                k > 0;
    }
}

/// Going from year `y - 1` to `y` adds one leap year exactly when `y` is one.
proof fn lemma_leaps_step(y: int)
    requires
        y >= 1,
    ensures
        leaps_through(y) == leaps_through(y - 1) + (if is_leap(y) { 1int } else { 0int }),
{
    lemma_step_count(y, 4);
    lemma_step_count(y, 100);
    lemma_step_count(y, 400);
    assert(y % 400 == 0 ==> y % 100 == 0 && y % 4 == 0) by (nonlinear_arith);
    assert(y % 100 == 0 ==> y % 4 == 0) by (nonlinear_arith);
}

proof fn lemma_div_shift(e: int, x: int, k: int)
    requires
        e >= 0,
        0 <= x,
        k > 0,
        400int % k == 0,
    ensures
        (400 * e + x) / k == (400int / k) * e + x / k,
        (400 * e + x) % k == x % k,
{
    let q = 400int / k;
    assert(400 == q * k) by (nonlinear_arith) requires 400int % k == 0, k > 0, q == 400int / k;
    assert(400 * e + x == k * (q * e) + x) by (nonlinear_arith) requires 400 == q * k;
    vstd::arithmetic::div_mod::lemma_fundamental_div_mod(x, k);
    assert(400 * e + x == k * (q * e + x / k) + x % k) by (nonlinear_arith)
        requires 400 * e + x == k * (q * e) + x, x == k * (x / k) + x % k;
    vstd::arithmetic::div_mod::lemma_mod_bound(x, k);
    vstd::arithmetic::div_mod::lemma_fundamental_div_mod_converse(400 * e + x, k, q * e + x / k, x % k);
}

/// The calendar date `days` days after 1970-01-01, by days-from-civil
/// inversion over 400-year eras counted from March 1st of year 0.
pub proof fn lemma_civil_from_days(days: int)
    requires
        days >= 0,
    ensures
        ({
            let z = days + 719468;
            let era = z / 146097;
            let doe = z % 146097;
            let yoe = (doe - doe / 1460 + doe / 36524 - doe / 146096) / 365;
            let doy = doe - (365 * yoe + yoe / 4 - yoe / 100);
            let mp = (5 * doy + 2) / 153;
            let d = doy - (153 * mp + 2) / 5 + 1;
            let m = if mp < 10 { mp + 3 } else { mp - 9 };
            let y = yoe + era * 400 + (if m <= 2 { 1int } else { 0int });
            is_civil_date(days, y, m, d)
        }),
{
    let z = days + 719468;
    let era = z / 146097;
    let doe = z % 146097;
    vstd::arithmetic::div_mod::lemma_fundamental_div_mod(z, 146097);
    vstd::arithmetic::div_mod::lemma_mod_bound(z, 146097);
    assert(era >= 0) by (nonlinear_arith) requires z >= 0, era == z / 146097;
    let doe32 = doe as u32;
    lemma_year_of_era(doe32);
    let yoe = (doe - doe / 1460 + doe / 36524 - doe / 146096) / 365;
    let doy = doe - (365 * yoe + yoe / 4 - yoe / 100);
    assert(yoe == ((doe32 - doe32 / 1460 + doe32 / 36524 - doe32 / 146096) / 365) as int);
    assert(0 <= yoe < 400);
    assert(0 <= doy <= 365);
    let doy32 = doy as u32;
    lemma_month_of_year(doy32);
    let mp = (5 * doy + 2) / 153;
    let start = (153 * mp + 2) / 5;
    let d = doy - start + 1;
    assert(mp == ((5 * doy32 + 2) / 153) as int);
    assert(start == ((153 * ((5 * doy32 + 2) / 153) + 2) / 5) as int);
    let m = if mp < 10 { mp + 3 } else { mp - 9 };
    let big_y = yoe + era * 400;
    // The days from March 1st of year 0 to March 1st of year big_y.
    lemma_div_shift(era, yoe, 4);
    lemma_div_shift(era, yoe, 100);
    lemma_div_shift(era, yoe, 400);
    assert(z == 365 * big_y + leaps_through(big_y) + doy);
    // Leap-ness of the year after big_y follows the era-relative year.
    lemma_div_shift(era, yoe + 1, 4);
    lemma_div_shift(era, yoe + 1, 100);
    lemma_div_shift(era, yoe + 1, 400);
    assert(is_leap(big_y + 1) == is_leap(yoe + 1));
    let y = big_y + (if m <= 2 { 1int } else { 0int });
    if m <= 2 {
        lemma_leaps_step(big_y + 1);
        assert(leaps_through(y - 1) == leaps_through(big_y));
    } else {
        if big_y >= 1 {
            lemma_leaps_step(big_y);
        }
        assert(big_y >= 1970);
        assert(leaps_through(y - 1) + (if is_leap(big_y) { 1int } else { 0int }) == leaps_through(big_y));
    }
    assert(leaps_through(1969) == 477);
    assert(is_civil_date(days, y, m, d));
}


/// Days from 1970-01-01 to January 1st of `y`.
pub open spec fn year_start(y: int) -> int {
    365 * (y - 1970) + (leaps_through(y - 1) - leaps_through(1969))
}

proof fn lemma_year_start_step(y: int)
    requires
        y >= 1970,
    ensures
        year_start(y + 1) == year_start(y) + 365 + (if is_leap(y) { 1int } else { 0int }),
{
    lemma_leaps_step(y);
}

proof fn lemma_year_start_monotone(a: int, b: int)
    requires
        1970 <= a <= b,
    ensures
        year_start(a) + 365 * (b - a) <= year_start(b),
    decreases b - a,
{
    if a < b {
        lemma_year_start_monotone(a, b - 1);
        lemma_year_start_step(b - 1);
    }
}

proof fn lemma_month_span(y: int, m1: int, m2: int)
    requires
        1 <= m1 < m2 <= 12,
    ensures
        days_before_month(y, m1) + days_in_month(y, m1) <= days_before_month(y, m2),
{
}

proof fn lemma_date_in_year(y: int, m: int, d: int)
    requires
        is_date(y, m, d),
    ensures
        year_start(y) <= days_from_epoch(y, m, d) < year_start(y) + 365 + (if is_leap(y) { 1int } else { 0int }),
{
}

/// Each day after the epoch is exactly one calendar date: two dates at the
/// same distance from 1970-01-01 are the same date.
pub proof fn law_civil_date_unique(days: int, y1: int, m1: int, d1: int, y2: int, m2: int, d2: int)
    requires
        is_civil_date(days, y1, m1, d1),
        is_civil_date(days, y2, m2, d2),
    ensures
        y1 == y2 && m1 == m2 && d1 == d2,
{
    lemma_date_in_year(y1, m1, d1);
    lemma_date_in_year(y2, m2, d2);
    if y1 < y2 {
        lemma_year_start_step(y1);
        lemma_year_start_monotone(y1 + 1, y2);
        assert(false);
    } else if y2 < y1 {
        lemma_year_start_step(y2);
        lemma_year_start_monotone(y2 + 1, y1);
        assert(false);
    }
    if m1 < m2 {
        lemma_month_span(y1, m1, m2);
    } else if m2 < m1 {
        lemma_month_span(y1, m2, m1);
    }
}

} // verus!
