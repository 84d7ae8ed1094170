//! Conversion of Windows SYSTEMTIME records to Unix time on the Gregorian calendar.

use vstd::prelude::*;
use crate::bytes::{le16, read_u16_le};

verus! {

/// Gregorian leap-year rule.
pub open spec fn is_leap_year(y: int) -> bool {
    (y % 4 == 0 && y % 100 != 0) || y % 400 == 0
}

pub open spec fn year_days(y: int) -> int {
    if is_leap_year(y) {
        366
    } else {
        365
    }
}

/// Signed number of days from 1970-01-01 to January 1st of year `y`.
pub open spec fn days_before_year(y: int) -> int
    decreases (if y >= 1970 { y - 1970 } else { 1970 - y }),
{
    if y > 1970 {
        days_before_year(y - 1) + year_days(y - 1)
    } else if y < 1970 {
        days_before_year(y + 1) - year_days(y)
    } else {
        0
    }
}

/// Length of month `m` (1-based) of year `y`; zero outside 1..=12.
pub open spec fn month_days(y: int, m: int) -> int {
    if m == 2 {
        if is_leap_year(y) {
            29
        } else {
            28
        }
    } else if m == 4 || m == 6 || m == 9 || m == 11 {
        30
    } else if 1 <= m <= 12 {
        31
    } else {
        0
    }
}

/// Days of year `y` that precede the first day of month `m`.
pub open spec fn days_before_month(y: int, m: int) -> int
    decreases m,
{
    if m <= 1 {
        0
    } else {
        days_before_month(y, m - 1) + month_days(y, m - 1)
    }
}

/// Days from 1970-01-01 to the given calendar day (day 1 is the first of the month).
pub open spec fn civil_days(y: int, m: int, d: int) -> int {
    days_before_year(y) + days_before_month(y, m) + d - 1
}

/// Milliseconds since the Unix epoch of the Windows SYSTEMTIME record held in
/// the first 16 bytes of `b`: year, month, day of week, day, hour, minute,
/// second and millisecond, each a little-endian 16-bit field.
pub open spec fn systemtime_ms(b: Seq<u8>) -> int {
    civil_days(le16(b, 0), le16(b, 2), le16(b, 6)) * 86_400_000 + le16(b, 8) * 3_600_000
        + le16(b, 10) * 60_000 + le16(b, 12) * 1000 + le16(b, 14)
}

/// Leap years among the years `0 .. y` of the proleptic Gregorian calendar.
spec fn leaps_before(y: int) -> int {
    (y + 3) / 4 - (y + 99) / 100 + (y + 399) / 400
}

proof fn lemma_leaps_step(y: int)
    requires
        y >= 0,
    ensures
        leaps_before(y + 1) - leaps_before(y) == (if is_leap_year(y) { 1int } else { 0int }),
{
    assert((y + 4) / 4 - (y + 3) / 4 == (if y % 4 == 0 { 1int } else { 0int })) by (nonlinear_arith)
        requires y >= 0;
    assert((y + 100) / 100 - (y + 99) / 100 == (if y % 100 == 0 { 1int } else { 0int })) by (nonlinear_arith)
        requires y >= 0;
    assert((y + 400) / 400 - (y + 399) / 400 == (if y % 400 == 0 { 1int } else { 0int })) by (nonlinear_arith)
        requires y >= 0;
    assert(y % 400 == 0 ==> y % 100 == 0 && y % 4 == 0) by (nonlinear_arith);
    assert(y % 100 == 0 ==> y % 4 == 0) by (nonlinear_arith);
}

proof fn lemma_days_before_year_closed(y: int)
    requires
        y >= 0,
    ensures
        days_before_year(y) == 365 * (y - 1970) + leaps_before(y) - 478,
    decreases (if y >= 1970 { y - 1970 } else { 1970 - y }),
{
    if y > 1970 {
        lemma_days_before_year_closed(y - 1);
        lemma_leaps_step(y - 1);
    } else if y < 1970 {
        lemma_days_before_year_closed(y + 1);
        lemma_leaps_step(y);
    } else {
        assert(leaps_before(1970) == 478);
    }
}

proof fn lemma_months_past_december(y: int, m: int)
    requires
        m >= 13,
    ensures
        days_before_month(y, m) == days_before_month(y, 13),
    decreases m,
{
    if m > 13 {
        lemma_months_past_december(y, m - 1);
    }
}

fn leap(y: i64) -> (r: bool)
    requires
        0 <= y,
    ensures
        r == is_leap_year(y as int),
{
    (y % 4 == 0 && y % 100 != 0) || y % 400 == 0
}

fn month_offset(y: i64, m: i64) -> (r: i64)
    requires
        0 <= y <= 0xffff,
        0 <= m <= 0xffff,
    ensures
        r == days_before_month(y as int, m as int),
        0 <= r <= 366,
{
    let lp: i64 = if leap(y) { 1 } else { 0 };
    proof {
        reveal_with_fuel(days_before_month, 14);
    }
    if m <= 1 {
        0
    } else if m == 2 {
        31
    } else if m == 3 {
        59 + lp
    } else if m == 4 {
        90 + lp
    } else if m == 5 {
        120 + lp
    } else if m == 6 {
        151 + lp
    } else if m == 7 {
        181 + lp
    } else if m == 8 {
        212 + lp
    } else if m == 9 {
        243 + lp
    } else if m == 10 {
        273 + lp
    } else if m == 11 {
        304 + lp
    } else if m == 12 {
        334 + lp
    } else {
        proof {
            lemma_months_past_december(y as int, m as int);
        }
        365 + lp
    }
}

/// Converts a 16-byte SYSTEMTIME record into milliseconds since the Unix
/// epoch, on the proleptic Gregorian calendar. A record shorter than 16 bytes
/// gives 0.
pub fn systemtime_to_timestamp(data: &[u8]) -> (r: i64)
    ensures
        data@.len() < 16 ==> r == 0,
        data@.len() >= 16 ==> r == systemtime_ms(data@),
{
    if data.len() < 16 {
        return 0;
    }
    let year = read_u16_le(data, 0) as i64;
    let month = read_u16_le(data, 2) as i64;
    let day = read_u16_le(data, 6) as i64;
    let hour = read_u16_le(data, 8) as i64;
    let minute = read_u16_le(data, 10) as i64;
    let second = read_u16_le(data, 12) as i64;
    let millisecond = read_u16_le(data, 14) as i64;
    proof {
        lemma_days_before_year_closed(year as int);
    }
    assert(0 <= leaps_before(year as int) <= 20000) by (nonlinear_arith)
        requires 0 <= year <= 0xffff;
    let leaps = (year + 3) / 4 - (year + 99) / 100 + (year + 399) / 400;
    let days = 365 * (year - 1970) + leaps - 478 + month_offset(year, month) + day - 1;
    days * 86_400_000 + hour * 3_600_000 + minute * 60_000 + second * 1000 + millisecond
}

} // verus!
