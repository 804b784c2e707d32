//! US equity regular-trading-hours (RTH) check.
//!
//! RTH = Mon–Fri, 09:30–16:00 America/New_York. The Eastern offset is derived from the
//! US DST rule (EDT = UTC−4 from the 2nd Sunday of March to the 1st Sunday of November;
//! EST = UTC−5 otherwise). Holidays are NOT modelled — on a market holiday orders would
//! simply rest/reject and the master won't change, so the practical impact is nil.
//!
//! Calendar conversions follow Howard Hinnant's proleptic-Gregorian date algorithms.

use vstd::prelude::*;

verus! {

/// Largest absolute year the calendar arithmetic handles.
pub open spec fn year_limit() -> int {
    1_000_000_000_000_000
}

/// Largest absolute day number the calendar arithmetic handles.
pub open spec fn day_limit() -> int {
    100_000_000_000_000_000
}

/// The civil date `(year, month, day)` of day number `z` (days since 1970-01-01).
pub open spec fn civil_spec(z: int) -> (int, int, int) {
    let z = z + 719_468;
    let era = z / 146_097;
    let doe = z - era * 146_097;
    let yoe = (doe - doe / 1460 + doe / 36_524 - doe / 146_096) / 365;
    let y = yoe + era * 400;
    let doy = doe - (365 * yoe + yoe / 4 - yoe / 100);
    let mp = (5 * doy + 2) / 153;
    let d = doy - (153 * mp + 2) / 5 + 1;
    let m = if mp < 10 {
        mp + 3
    } else {
        mp - 9
    };
    (
        if m <= 2 {
            y + 1
        } else {
            y
        },
        m,
        d,
    )
}

/// The day number (days since 1970-01-01) of the civil date `(y, m, d)`.
pub open spec fn days_spec(y: int, m: int, d: int) -> int {
    let y = if m <= 2 {
        y - 1
    } else {
        y
    };
    let era = y / 400;
    let yoe = y - era * 400;
    let mp = if m > 2 {
        m - 3
    } else {
        m + 9
    };
    let doy = (153 * mp + 2) / 5 + d - 1;
    let doe = yoe * 365 + yoe / 4 - yoe / 100 + doy;
    era * 146_097 + doe - 719_468
}

/// Weekday of day number `days`, 0 = Sunday (day 0, 1970-01-01, was a Thursday).
pub open spec fn weekday_spec(days: int) -> int {
    (days % 7 + 4) % 7
}

/// Day-of-month of the `n`-th Sunday of `(year, month)`.
pub open spec fn nth_sunday_spec(y: int, m: int, n: int) -> int {
    let first_wd = weekday_spec(days_spec(y, m, 1));
    let first_sunday = 1 + (7 - first_wd) % 7;
    first_sunday + (n - 1) * 7
}

/// US daylight-saving time on this calendar date.
pub open spec fn dst_spec(y: int, m: int, d: int) -> bool {
    if m == 1 || m == 2 || m == 12 {
        false
    } else if 4 <= m <= 10 {
        true
    } else if m == 3 {
        d >= nth_sunday_spec(y, 3, 2)
    } else if m == 11 {
        d < nth_sunday_spec(y, 11, 1)
    } else {
        false
    }
}

/// Eastern offset from UTC, in hours, on the UTC calendar date of `utc_secs`.
pub open spec fn eastern_offset_hours(utc_secs: int) -> int {
    let (y, m, d) = civil_spec(utc_secs / 86_400);
    if dst_spec(y, m, d) {
        -4
    } else {
        -5
    }
}

/// `utc_secs` falls within US equity regular trading hours: a weekday, 09:30 (inclusive)
/// to 16:00 (exclusive) Eastern.
pub open spec fn rth_spec(utc_secs: int) -> bool {
    let east = utc_secs + eastern_offset_hours(utc_secs) * 3600;
    let wd = weekday_spec(east / 86_400);
    let minutes = (east % 86_400) / 60;
    wd != 0 && wd != 6 && 570 <= minutes < 960
}

/// `utc_secs` falls on a US-Eastern Saturday or Sunday.
pub open spec fn weekend_spec(utc_secs: int) -> bool {
    let wd = weekday_spec((utc_secs + eastern_offset_hours(utc_secs) * 3600) / 86_400);
    wd == 0 || wd == 6
}

fn div_e(a: i64, b: i64) -> (r: i64)
    requires
        b > 0,
    ensures
        r == a / b,
{
    match a.checked_div_euclid(b) {
        Some(v) => v,
        None => {
            proof {
                assert(i64::MIN <= a / b <= i64::MAX) by (nonlinear_arith)
                    requires
                        b > 0,
                        i64::MIN <= a <= i64::MAX,
                ;
            }
            0
        },
    }
}

fn rem_e(a: i64, b: i64) -> (r: i64)
    requires
        b > 0,
    ensures
        r == a % b,
{
    match a.checked_rem_euclid(b) {
        Some(v) => v,
        None => {
            proof {
                assert(0 <= a % b < b) by (nonlinear_arith)
                    requires
                        b > 0,
                ;
            }
            0
        },
    }
}

/// Weekday (0 = Sunday) of a day number.
fn weekday(days: i64) -> (r: i64)
    ensures
        r == weekday_spec(days as int),
        0 <= r < 7,
{
    rem_e(rem_e(days, 7) + 4, 7)
}

/// Civil date `(year, month, day)` of a day number (days since 1970-01-01).
pub fn civil_from_days(z: i64) -> (r: (i64, u32, u32))
    requires
        -day_limit() <= z <= day_limit(),
    ensures
        (r.0 as int, r.1 as int, r.2 as int) == civil_spec(z as int),
{
    let z = z + 719_468;
    let era = div_e(z, 146_097);
    let doe = z - era * 146_097;
    assert(0 <= doe < 146_097) by (nonlinear_arith)
        requires
            era == z / 146_097,
            doe == z - era * 146_097,
    ;
    let yoe = (doe - doe / 1460 + doe / 36_524 - doe / 146_096) / 365;
    assert(0 <= yoe <= 399);
    let y = yoe + era * 400;
    let doy = doe - (365 * yoe + yoe / 4 - yoe / 100);
    proof {
        lemma_doy_range(doe as int);
    }
    let mp = (5 * doy + 2) / 153;
    assert(0 <= mp <= 11);
    let d = (doy - (153 * mp + 2) / 5 + 1) as u32;
    assert(1 <= doy - (153 * mp + 2) / 5 + 1 <= 31) by (nonlinear_arith)
        requires
            0 <= doy <= 365,
            mp == (5 * doy + 2) / 153,
    ;
    let m = (if mp < 10 {
        mp + 3
    } else {
        mp - 9
    }) as u32;
    (
        if m <= 2 {
            y + 1
        } else {
            y
        },
        m,
        d,
    )
}

/// Within an era, the day-of-year lies in `[0, 365]`.
proof fn lemma_doy_range(doe: int)
    requires
        0 <= doe < 146_097,
    ensures
        ({
            let yoe = (doe - doe / 1460 + doe / 36_524 - doe / 146_096) / 365;
            let doy = doe - (365 * yoe + yoe / 4 - yoe / 100);
            0 <= yoe <= 399 && 0 <= doy <= 365
        }),
{
    let yoe = (doe - doe / 1460 + doe / 36_524 - doe / 146_096) / 365;
    assert(0 <= yoe <= 399 && 0 <= doe - (365 * yoe + yoe / 4 - yoe / 100) <= 365)
        by (nonlinear_arith)
        requires
            0 <= doe < 146_097,
            yoe == (doe - doe / 1460 + doe / 36_524 - doe / 146_096) / 365,
    ;
}

/// Day number (days since 1970-01-01) of a civil date.
pub fn days_from_civil(y: i64, m: u32, d: u32) -> (r: i64)
    requires
        -year_limit() <= y <= year_limit(),
    ensures
        r == days_spec(y as int, m as int, d as int),
{
    let y = if m <= 2 {
        y - 1
    } else {
        y
    };
    let era = div_e(y, 400);
    let yoe = y - era * 400;
    assert(0 <= yoe < 400) by (nonlinear_arith)
        requires
            era == y / 400,
            yoe == y - era * 400,
    ;
    let mp: i64 = if m > 2 {
        (m - 3) as i64
    } else {
        (m + 9) as i64
    };
    let doy = (153 * mp + 2) / 5 + d as i64 - 1;
    let doe = yoe * 365 + yoe / 4 - yoe / 100 + doy;
    assert(-year_limit() / 400 - 1 <= era <= year_limit() / 400 + 1) by (nonlinear_arith)
        requires
            era == y / 400,
            -year_limit() - 1 <= y <= year_limit(),
    ;
    era * 146_097 + doe - 719_468
}

/// Is the US in daylight-saving time on this (Eastern-ish) calendar date?
pub fn is_us_dst(y: i64, m: u32, d: u32) -> (r: bool)
    requires
        -year_limit() <= y <= year_limit(),
    ensures
        r == dst_spec(y as int, m as int, d as int),
{
    if m == 1 || m == 2 || m == 12 {
        false
    } else if 4 <= m && m <= 10 {
        true
    } else if m == 3 {
        d >= nth_sunday(y, 3, 2)
    } else if m == 11 {
        d < nth_sunday(y, 11, 1)
    } else {
        false
    }
}

/// Day-of-month of the `n`-th Sunday of `(year, month)` (n = 1 → first).
pub fn nth_sunday(y: i64, m: u32, n: u32) -> (r: u32)
    requires
        -year_limit() <= y <= year_limit(),
        1 <= n <= 5,
    ensures
        r == nth_sunday_spec(y as int, m as int, n as int),
{
    let first_wd = weekday(days_from_civil(y, m, 1)) as u32;
    let first_sunday = 1 + ((7 - first_wd) % 7);
    first_sunday + (n - 1) * 7
}

/// Eastern offset (hours) for a UTC timestamp, from the UTC calendar date.
fn eastern_offset(utc_secs: i64) -> (r: i64)
    ensures
        r == eastern_offset_hours(utc_secs as int),
{
    let (y, m, d) = civil_from_days(div_e(utc_secs, 86_400));
    proof {
        lemma_civil_year_bound(utc_secs as int / 86_400);
    }
    if is_us_dst(y, m, d) {
        -4
    } else {
        -5
    }
}

/// The year of a day number within range is within range.
proof fn lemma_civil_year_bound(z: int)
    requires
        -day_limit() / 100 <= z <= day_limit() / 100,
    ensures
        -year_limit() <= civil_spec(z).0 <= year_limit(),
{
    let z2 = z + 719_468;
    let era = z2 / 146_097;
    assert(-year_limit() / 1000 <= era <= year_limit() / 1000) by (nonlinear_arith)
        requires
            era == z2 / 146_097,
            -day_limit() / 100 + 719_468 <= z2 <= day_limit() / 100 + 719_468,
    ;
    let doe = z2 - era * 146_097;
    assert(0 <= doe < 146_097) by (nonlinear_arith)
        requires
            era == z2 / 146_097,
            doe == z2 - era * 146_097,
    ;
    lemma_doy_range(doe);
}

/// True if the given UNIX timestamp (UTC seconds) is within US equity RTH.
pub fn is_rth_at(utc_secs: i64) -> (r: bool)
    requires
        utc_secs >= i64::MIN + 18_000,
    ensures
        r == rth_spec(utc_secs as int),
{
    // Pick the Eastern offset from the UTC calendar date (the 1-hour ambiguity at the 02:00
    // DST switch is irrelevant to the 09:30–16:00 window).
    let offset_hours = eastern_offset(utc_secs);
    let east_secs = utc_secs + offset_hours * 3600;
    let east_days = div_e(east_secs, 86_400);
    let sod = rem_e(east_secs, 86_400);
    let weekday = weekday(east_days);
    if weekday == 0 || weekday == 6 {
        return false;
    }
    let minutes = sod / 60;
    570 <= minutes && minutes < 960
}

/// True if the given UNIX timestamp falls on a US-Eastern weekend (Saturday or Sunday).
pub fn is_weekend_et_at(utc_secs: i64) -> (r: bool)
    requires
        utc_secs >= i64::MIN + 18_000,
    ensures
        r == weekend_spec(utc_secs as int),
{
    let offset_hours = eastern_offset(utc_secs);
    let east_days = div_e(utc_secs + offset_hours * 3600, 86_400);
    let weekday = weekday(east_days);
    weekday == 0 || weekday == 6
}

/// The clock reading as a signed timestamp.
fn now_secs() -> (r: i64)
    ensures
        r >= 0,
{
    let s = crate::clock::clock_unix_millis() / 1000;
    if s > i64::MAX as u64 {
        i64::MAX
    } else {
        s as i64
    }
}

/// True if *now* (system clock, in UTC) falls within US equity regular trading hours.
pub fn is_us_equity_rth_now() -> (r: bool)
    ensures
        exists|t: int| t >= 0 && r == rth_spec(t),
{
    let t = now_secs();
    is_rth_at(t)
}

/// True if *now* falls on a US-Eastern weekend (Saturday or Sunday). Used to exclude
/// weekends from disconnect-alert timing (markets are closed, so a disconnect is benign).
pub fn is_weekend_et_now() -> (r: bool)
    ensures
        exists|t: int| t >= 0 && r == weekend_spec(t),
{
    let t = now_secs();
    is_weekend_et_at(t)
}


// ── laws ─────────────────────────────────────────────────────────────────────

/// A weekend instant is never within regular trading hours.
pub proof fn law_weekend_is_closed(utc_secs: int)
    ensures
        weekend_spec(utc_secs) ==> !rth_spec(utc_secs),
{
}

/// A day number's civil date has a month in 1..=12 and a day in 1..=31.
pub proof fn law_civil_date_in_range(z: int)
    ensures
        1 <= civil_spec(z).1 <= 12,
        1 <= civil_spec(z).2 <= 31,
{
    let z2 = z + 719_468;
    let era = z2 / 146_097;
    let doe = z2 - era * 146_097;
    assert(0 <= doe < 146_097) by (nonlinear_arith)
        requires
            era == z2 / 146_097,
            doe == z2 - era * 146_097,
    ;
    lemma_doy_range(doe);
    let yoe = (doe - doe / 1460 + doe / 36_524 - doe / 146_096) / 365;
    let doy = doe - (365 * yoe + yoe / 4 - yoe / 100);
    let mp = (5 * doy + 2) / 153;
    assert(1 <= doy - (153 * mp + 2) / 5 + 1 <= 31) by (nonlinear_arith)
        requires
            0 <= doy <= 365,
            mp == (5 * doy + 2) / 153,
    ;
}

/// The most days a month can have: 30 for April, June, September and November, 29 for
/// February, 31 for the others.
pub open spec fn month_days_max(m: int) -> int {
    if m == 4 || m == 6 || m == 9 || m == 11 {
        30
    } else if m == 2 {
        29
    } else {
        31
    }
}

/// A day number's civil day never exceeds the length its month can have (February at
/// most 29).
pub proof fn law_civil_day_fits_month(z: int)
    ensures
        civil_spec(z).2 <= month_days_max(civil_spec(z).1),
{
    let z2 = z + 719_468;
    let era = z2 / 146_097;
    let doe = z2 - era * 146_097;
    assert(0 <= doe < 146_097) by (nonlinear_arith)
        requires
            era == z2 / 146_097,
            doe == z2 - era * 146_097,
    ;
    lemma_doy_range(doe);
    let yoe = (doe - doe / 1460 + doe / 36_524 - doe / 146_096) / 365;
    let doy = doe - (365 * yoe + yoe / 4 - yoe / 100);
    let mp = (5 * doy + 2) / 153;
    assert(153 * mp <= 5 * doy + 2 < 153 * mp + 153 && 0 <= mp <= 11) by (nonlinear_arith)
        requires
            0 <= doy <= 365,
            mp == (5 * doy + 2) / 153,
    ;
    let d = doy - (153 * mp + 2) / 5 + 1;
    assert(mp == 0 ==> d <= 31);
    assert(mp == 1 ==> d <= 30);
    assert(mp == 2 ==> d <= 31);
    assert(mp == 3 ==> d <= 30);
    assert(mp == 4 ==> d <= 31);
    assert(mp == 5 ==> d <= 31);
    assert(mp == 6 ==> d <= 30);
    assert(mp == 7 ==> d <= 31);
    assert(mp == 8 ==> d <= 30);
    assert(mp == 9 ==> d <= 31);
    assert(mp == 10 ==> d <= 31);
    assert(mp == 11 ==> d <= 29);
}

/// The day number of a date is one more for each later day of the same month.
proof fn lemma_days_step(y: int, m: int, d: int)
    ensures
        days_spec(y, m, d) == days_spec(y, m, 1) + d - 1,
{
}

/// US daylight time by the calendar: on every day of April through October; on no day of
/// January, February or December; in March from its second Sunday (the Sunday among the
/// 8th to the 14th) on; in November only before its first Sunday (the Sunday among the
/// 1st to the 7th).
pub proof fn law_dst_calendar(y: int, m: int, d: int, sunday: int)
    ensures
        4 <= m <= 10 ==> dst_spec(y, m, d),
        (m == 1 || m == 2 || m == 12) ==> !dst_spec(y, m, d),
        m == 3 && 8 <= sunday <= 14 && weekday_spec(days_spec(y, 3, sunday)) == 0 ==> (dst_spec(y, 3, d)
            <==> d >= sunday),
        m == 11 && 1 <= sunday <= 7 && weekday_spec(days_spec(y, 11, sunday)) == 0 ==> (dst_spec(
            y,
            11,
            d,
        ) <==> d < sunday),
{
    lemma_days_step(y, m, sunday);
    let first = days_spec(y, m, 1);
    let wd = weekday_spec(first);
    assert(0 <= wd < 7);
    if m == 3 && 8 <= sunday <= 14 && weekday_spec(days_spec(y, 3, sunday)) == 0 {
        assert(((first + sunday - 1) % 7 + 4) % 7 == 0);
        assert(nth_sunday_spec(y, 3, 2) == sunday);
    }
    if m == 11 && 1 <= sunday <= 7 && weekday_spec(days_spec(y, 11, sunday)) == 0 {
        assert(((first + sunday - 1) % 7 + 4) % 7 == 0);
        assert(nth_sunday_spec(y, 11, 1) == sunday);
    }
}

/// From April through October (by the UTC date) the market keeps daylight hours:
/// regular trading hours are 09:30 to 16:00 at UTC−4, that is 13:30 to 20:00 UTC, on
/// Eastern weekdays.
pub proof fn law_rth_in_daylight_months(utc_secs: int)
    requires
        4 <= civil_spec(utc_secs / 86_400).1 <= 10,
    ensures
        rth_spec(utc_secs) <==> ({
            let east = utc_secs - 4 * 3600;
            let wd = weekday_spec(east / 86_400);
            let minutes = (east % 86_400) / 60;
            wd != 0 && wd != 6 && 570 <= minutes < 960
        }),
{
    let (y, m, d) = civil_spec(utc_secs / 86_400);
    law_dst_calendar(y, m, d, 0);
    assert(eastern_offset_hours(utc_secs) == -4);
}

/// In December, January and February (by the UTC date) the market keeps standard hours:
/// regular trading hours are 09:30 to 16:00 at UTC−5, that is 14:30 to 21:00 UTC, on
/// Eastern weekdays.
pub proof fn law_rth_in_standard_months(utc_secs: int)
    requires
        civil_spec(utc_secs / 86_400).1 == 12 || civil_spec(utc_secs / 86_400).1 <= 2,
    ensures
        rth_spec(utc_secs) <==> ({
            let east = utc_secs - 5 * 3600;
            let wd = weekday_spec(east / 86_400);
            let minutes = (east % 86_400) / 60;
            wd != 0 && wd != 6 && 570 <= minutes < 960
        }),
{
    let (y, m, d) = civil_spec(utc_secs / 86_400);
    law_civil_date_in_range(utc_secs / 86_400);
    law_dst_calendar(y, m, d, 0);
    assert(eastern_offset_hours(utc_secs) == -5);
}

/// Converting a day number to its civil date and back gives the same day number.
pub proof fn law_civil_round_trip(z: int)
    ensures
        days_spec(civil_spec(z).0, civil_spec(z).1, civil_spec(z).2) == z,
{
    let z2 = z + 719_468;
    let era = z2 / 146_097;
    let doe = z2 - era * 146_097;
    assert(0 <= doe < 146_097) by (nonlinear_arith)
        requires
            era == z2 / 146_097,
            doe == z2 - era * 146_097,
    ;
    lemma_doy_range(doe);
    let yoe = (doe - doe / 1460 + doe / 36_524 - doe / 146_096) / 365;
    let y = yoe + era * 400;
    assert(y / 400 == era) by (nonlinear_arith)
        requires
            0 <= yoe <= 399,
            y == yoe + era * 400,
    ;
    let doy = doe - (365 * yoe + yoe / 4 - yoe / 100);
    let mp = (5 * doy + 2) / 153;
    assert(0 <= mp <= 11) by (nonlinear_arith)
        requires
            0 <= doy <= 365,
            mp == (5 * doy + 2) / 153,
    ;
}
} // verus!
