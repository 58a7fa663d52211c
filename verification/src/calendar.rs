//! The proleptic Gregorian calendar: dates from day counts.

use vstd::prelude::*;

verus! {

/// A leap year: divisible by four, but not by a hundred unless by four hundred.
pub open spec fn is_leap(y: int) -> bool {
    y % 4 == 0 && (y % 100 != 0 || y % 400 == 0)
}

/// Days in month `m` (1 = January) of year `y`.
pub open spec fn month_days(y: int, m: int) -> int {
    if m == 2 {
        if is_leap(y) { 29 } else { 28 }
    } else if m == 4 || m == 6 || m == 9 || m == 11 {
        30
    } else {
        31
    }
}

/// A real calendar date.
pub open spec fn valid_date(y: int, m: int, d: int) -> bool {
    1 <= m <= 12 && 1 <= d <= month_days(y, m)
}

/// Leap years before year `y`, counted from year one (negative before it).
pub open spec fn leaps_before(y: int) -> int {
    (y - 1) / 4 - (y - 1) / 100 + (y - 1) / 400
}

/// Days of the year before the first of month `m`.
pub open spec fn days_before_month(y: int, m: int) -> int {
    let common: int = if m == 1 { 0 }
        else if m == 2 { 31 }
        else if m == 3 { 59 }
        else if m == 4 { 90 }
        else if m == 5 { 120 }
        else if m == 6 { 151 }
        else if m == 7 { 181 }
        else if m == 8 { 212 }
        else if m == 9 { 243 }
        else if m == 10 { 273 }
        else if m == 11 { 304 }
        else { 334 };
    common + if m > 2 && is_leap(y) { 1int } else { 0int }
}

/// Days from 1970-01-01 to the given date (negative before it): whole years of
/// 365 days plus one per leap year between, then the months and days of the year.
pub open spec fn days_from_civil(y: int, m: int, d: int) -> int {
    365 * (y - 1970) + (leaps_before(y) - leaps_before(1970)) + days_before_month(y, m) + (d - 1)
}

/// Floor division steps up by one exactly when the numerator reaches a multiple.
proof fn lemma_div_step(x: int, k: int)
    requires
        k > 0,
    ensures
        (x + 1) / k == x / k + if (x + 1) % k == 0 { 1int } else { 0int },
{
    let q = x / k;
    let r = x % k;
    vstd::arithmetic::div_mod::lemma_fundamental_div_mod(x, k);
    assert((q + 1) * k == k * q + k) by (nonlinear_arith);
    assert(q * k == k * q) by (nonlinear_arith);
    if r + 1 == k {
        vstd::arithmetic::div_mod::lemma_fundamental_div_mod_converse(x + 1, k, q + 1, 0);
    } else {
        vstd::arithmetic::div_mod::lemma_fundamental_div_mod_converse(x + 1, k, q, r + 1);
    }
}

/// `leaps_before` counts leap years: it steps by one exactly past a leap year.
pub proof fn lemma_leaps_before_step(y: int)
    ensures
        leaps_before(y + 1) == leaps_before(y) + if is_leap(y) { 1int } else { 0int },
{
    lemma_div_step(y - 1, 4);
    lemma_div_step(y - 1, 100);
    lemma_div_step(y - 1, 400);
}

/// Days since 0000-03-01 within a 400-year era, split into the year of the era
/// (years starting on March 1) and the day of that year.
proof fn lemma_year_of_era(doe: int)
    requires
        0 <= doe <= 146096,
    ensures
        ({
            let yoe = (doe - doe / 1460 + doe / 36524 - doe / 146096) / 365;
            let doy = doe - (365 * yoe + yoe / 4 - yoe / 100);
            &&& 0 <= yoe <= 399
            &&& 0 <= doy
            &&& doy <= 364 + if is_leap(yoe + 1) { 1int } else { 0int }
        }),
{
}


/// Month lengths in a year that starts on March 1 (index 0 = March); the last
/// month is February of the following calendar year.
pub open spec fn march_month_days(mp: int, long: bool) -> int {
    if mp == 11 {
        if long { 29 } else { 28 }
    } else if mp == 1 || mp == 3 || mp == 6 || mp == 8 {
        30
    } else {
        31
    }
}

/// Day `doy` of a March-based year falls in month `mp`, on day `d`.
proof fn lemma_month_of_year(doy: int, long: bool)
    requires
        0 <= doy <= 364 + if long { 1int } else { 0int },
    ensures
        ({
            let mp = (5 * doy + 2) / 153;
            let d = doy - (153 * mp + 2) / 5 + 1;
            &&& 0 <= mp <= 11
            &&& 1 <= d <= march_month_days(mp, long)
        }),
{
}

/// Leap years before a year of an era: 97 per whole era, plus those inside it.
proof fn lemma_leaps_in_era(era: int, yoe: int)
    requires
        0 <= yoe <= 399,
    ensures
        leaps_before(400 * era + yoe) == 97 * era + leaps_before(yoe),
        leaps_before(400 * era + yoe + 1) == 97 * era + yoe / 4 - yoe / 100,
{
    let x = yoe - 1;
    vstd::arithmetic::div_mod::lemma_fundamental_div_mod(x, 4);
    vstd::arithmetic::div_mod::lemma_fundamental_div_mod_converse(400 * era + x, 4, 100 * era + x / 4, x % 4);
    vstd::arithmetic::div_mod::lemma_fundamental_div_mod(x, 100);
    vstd::arithmetic::div_mod::lemma_fundamental_div_mod_converse(400 * era + x, 100, 4 * era + x / 100, x % 100);
    vstd::arithmetic::div_mod::lemma_fundamental_div_mod(x, 400);
    vstd::arithmetic::div_mod::lemma_fundamental_div_mod_converse(400 * era + x, 400, era + x / 400, x % 400);
    vstd::arithmetic::div_mod::lemma_fundamental_div_mod(yoe, 4);
    vstd::arithmetic::div_mod::lemma_fundamental_div_mod_converse(400 * era + yoe, 4, 100 * era + yoe / 4, yoe % 4);
    vstd::arithmetic::div_mod::lemma_fundamental_div_mod(yoe, 100);
    vstd::arithmetic::div_mod::lemma_fundamental_div_mod_converse(400 * era + yoe, 100, 4 * era + yoe / 100, yoe % 100);
    vstd::arithmetic::div_mod::lemma_fundamental_div_mod(yoe, 400);
    vstd::arithmetic::div_mod::lemma_fundamental_div_mod_converse(400 * era + yoe, 400, era + yoe / 400, yoe % 400);
}

/// Whole eras do not change whether a year is a leap year.
proof fn lemma_leap_in_era(era: int, y: int)
    ensures
        is_leap(400 * era + y) == is_leap(y),
{
    vstd::arithmetic::div_mod::lemma_fundamental_div_mod(y, 400);
    vstd::arithmetic::div_mod::lemma_fundamental_div_mod_converse(400 * era + y, 400, era + y / 400, y % 400);
    vstd::arithmetic::div_mod::lemma_fundamental_div_mod(y, 100);
    vstd::arithmetic::div_mod::lemma_fundamental_div_mod_converse(400 * era + y, 100, 4 * era + y / 100, y % 100);
    vstd::arithmetic::div_mod::lemma_fundamental_div_mod(y, 4);
    vstd::arithmetic::div_mod::lemma_fundamental_div_mod_converse(400 * era + y, 4, 100 * era + y / 4, y % 4);
}

/// Days in year `y`.
pub open spec fn year_days(y: int) -> int {
    if is_leap(y) { 366 } else { 365 }
}

/// Consecutive years are `year_days` apart.
proof fn lemma_year_start_step(y: int)
    ensures
        days_from_civil(y + 1, 1, 1) == days_from_civil(y, 1, 1) + year_days(y),
{
    lemma_leaps_before_step(y);
}

/// Later years start later, by at least a year.
proof fn lemma_year_start_monotone(y1: int, y2: int)
    requires
        y1 < y2,
    ensures
        days_from_civil(y1, 1, 1) + year_days(y1) <= days_from_civil(y2, 1, 1),
    decreases y2 - y1,
{
    lemma_year_start_step(y1);
    if y1 + 1 < y2 {
        lemma_year_start_monotone(y1 + 1, y2);
        lemma_year_start_step(y1 + 1);
    }
}

/// A real date lies within its year, and later dates of a year come later.
proof fn lemma_day_of_year(y: int, m1: int, d1: int, m2: int, d2: int)
    requires
        valid_date(y, m1, d1),
        valid_date(y, m2, d2),
    ensures
        0 <= days_before_month(y, m1) + d1 - 1 < year_days(y),
        (m1 < m2 || (m1 == m2 && d1 < d2)) ==> days_before_month(y, m1) + d1 < days_before_month(y, m2) + d2,
{
}

/// Distinct real dates have distinct day counts.
pub proof fn lemma_days_from_civil_injective(y1: int, m1: int, d1: int, y2: int, m2: int, d2: int)
    requires
        valid_date(y1, m1, d1),
        valid_date(y2, m2, d2),
        days_from_civil(y1, m1, d1) == days_from_civil(y2, m2, d2),
    ensures
        y1 == y2 && m1 == m2 && d1 == d2,
{
    lemma_day_of_year(y1, m1, d1, m1, d1);
    lemma_day_of_year(y2, m2, d2, m2, d2);
    assert(days_from_civil(y1, m1, d1) == days_from_civil(y1, 1, 1) + days_before_month(y1, m1) + d1 - 1);
    assert(days_from_civil(y2, m2, d2) == days_from_civil(y2, 1, 1) + days_before_month(y2, m2) + d2 - 1);
    if y1 < y2 {
        lemma_year_start_monotone(y1, y2);
    } else if y2 < y1 {
        lemma_year_start_monotone(y2, y1);
    } else {
        lemma_day_of_year(y1, m1, d1, m2, d2);
        lemma_day_of_year(y1, m2, d2, m1, d1);
    }
}

/// The calendar date `days` days after 1970-01-01: the one real date with that
/// day count.
pub open spec fn calendar_date(days: int) -> (int, int, int) {
    choose|date: (int, int, int)| valid_date(date.0, date.1, date.2) && days_from_civil(date.0, date.1, date.2) == days
}

/// The era-based computation of the date `days` days after 1970-01-01.
spec fn era_date(days: int) -> (int, int, int) {
    let z = days + 719_468;
    let era = z / 146_097;
    let doe = z % 146_097;
    let yoe = (doe - doe / 1460 + doe / 36_524 - doe / 146_096) / 365;
    let y = yoe + era * 400;
    let doy = doe - (365 * yoe + yoe / 4 - yoe / 100);
    let mp = (5 * doy + 2) / 153;
    let d = doy - (153 * mp + 2) / 5 + 1;
    let m = if mp < 10 { mp + 3 } else { mp - 9 };
    (if m <= 2 { y + 1 } else { y }, m, d)
}

/// The era-based computation gives a real date, `days` days after 1970-01-01.
proof fn lemma_era_date(days: int)
    ensures
        valid_date(era_date(days).0, era_date(days).1, era_date(days).2),
        days_from_civil(era_date(days).0, era_date(days).1, era_date(days).2) == days,
{
    let z = days + 719_468;
    let era = z / 146_097;
    let doe = z % 146_097;
    vstd::arithmetic::div_mod::lemma_fundamental_div_mod(z, 146_097);
    assert(146_097 * era == era * 146_097) by (nonlinear_arith);
    lemma_year_of_era(doe);
    let yoe = (doe - doe / 1460 + doe / 36_524 - doe / 146_096) / 365;
    let doy = doe - (365 * yoe + yoe / 4 - yoe / 100);
    let long = is_leap(yoe + 1);
    lemma_month_of_year(doy, long);
    let mp = (5 * doy + 2) / 153;
    let d = doy - (153 * mp + 2) / 5 + 1;
    let m = if mp < 10 { mp + 3 } else { mp - 9 };
    let y = yoe + era * 400;
    lemma_leaps_in_era(era, yoe);
    lemma_leap_in_era(era, yoe);
    lemma_leap_in_era(era, yoe + 1);
    lemma_leaps_before_step(yoe);
    assert(leaps_before(1970) == 477);
    assert(z == 146_097 * era + 365 * yoe + yoe / 4 - yoe / 100 + doy);
    if m <= 2 {
        assert(era_date(days) == (y + 1, m, d));
        assert(is_leap(y + 1) == long);
        assert(valid_date(y + 1, m, d));
        assert(days_before_month(y + 1, m) == (153 * mp + 2) / 5 - 306);
        assert(leaps_before(y + 1) == 97 * era + yoe / 4 - yoe / 100);
    } else {
        assert(era_date(days) == (y, m, d));
        assert(valid_date(y, m, d));
        assert(days_before_month(y, m) == (153 * mp + 2) / 5 + 59 + if is_leap(yoe) { 1int } else { 0int });
        assert(leaps_before(y) == 97 * era + leaps_before(yoe));
    }
}

/// `calendar_date` is a real date with the given day count, and for the days
/// from 1970-01-01 up to 9999-12-31 its year has four digits.
pub proof fn lemma_calendar_date(days: int)
    ensures
        valid_date(calendar_date(days).0, calendar_date(days).1, calendar_date(days).2),
        days_from_civil(calendar_date(days).0, calendar_date(days).1, calendar_date(days).2) == days,
        0 <= days < 2_932_897 ==> 1970 <= calendar_date(days).0 <= 9999,
{
    lemma_era_date(days);
    let e = era_date(days);
    assert(valid_date(e.0, e.1, e.2) && days_from_civil(e.0, e.1, e.2) == days);
    let (y, m, d) = calendar_date(days);
    assert(valid_date(y, m, d) && days_from_civil(y, m, d) == days);
    if 0 <= days < 2_932_897 {
        lemma_day_of_year(y, m, d, m, d);
        assert(days_from_civil(y, m, d) == days_from_civil(y, 1, 1) + days_before_month(y, m) + d - 1);
        assert(days_from_civil(1970, 1, 1) == 0);
        assert(leaps_before(10000) == 2424);
        assert(leaps_before(1970) == 477);
        assert(days_from_civil(10000, 1, 1) == 2_932_897);
        if y < 1970 {
            lemma_year_start_monotone(y, 1970);
        }
        if y > 10000 {
            lemma_year_start_monotone(10000, y);
        }
    }
}

/// The calendar date `days` days after 1970-01-01 (before it, when negative).
///
/// Counts in 400-year eras of 146097 days from 0000-03-01, so that the leap day
/// falls at the end of each counted year.
pub fn civil_from_days(days: i64) -> (date: (i64, i64, i64))
    requires
        -0x8000_0000_0000 <= days <= 0x8000_0000_0000,
    ensures
        (date.0 as int, date.1 as int, date.2 as int) == calendar_date(days as int),
        valid_date(date.0 as int, date.1 as int, date.2 as int),
        days_from_civil(date.0 as int, date.1 as int, date.2 as int) == days,
{
    let z = days + 719_468;
    let era = match z.checked_div_euclid(146_097) {
        Some(q) => q,
        None => 0,
    };
    let doe = match z.checked_rem_euclid(146_097) {
        Some(r) => r,
        None => 0,
    };
    proof {
        vstd::arithmetic::div_mod::lemma_fundamental_div_mod(z as int, 146_097);
        lemma_year_of_era(doe as int);
        lemma_era_date(days as int);
    }
    let yoe = (doe - doe / 1460 + doe / 36_524 - doe / 146_096) / 365;
    let y = yoe + era * 400;
    let doy = doe - (365 * yoe + yoe / 4 - yoe / 100);
    let mp = (5 * doy + 2) / 153;
    let d = doy - (153 * mp + 2) / 5 + 1;
    let m = if mp < 10 { mp + 3 } else { mp - 9 };
    let y = if m <= 2 { y + 1 } else { y };
    assert((y as int, m as int, d as int) == era_date(days as int));
    proof {
        let c = calendar_date(days as int);
        assert(valid_date(c.0, c.1, c.2) && days_from_civil(c.0, c.1, c.2) == days);
        lemma_days_from_civil_injective(c.0, c.1, c.2, y as int, m as int, d as int);
    }
    (y, m, d)
}

} // verus!
