//! The stored instant: a UTC civil date-time at second precision.
//!
//! Records are stamped and compared with values of this type; the wire form
//! (RFC 3339) lives in the codec module. Ordering is lexicographic over the
//! fields, which on well-formed values agrees with chronological order.

use vstd::prelude::*;

verus! {

/// A UTC civil date-time at second precision.
///
/// All fields are plain integers so that contracts can speak of them
/// directly. `wf` bounds them to a real calendar date in years 0000-9999,
/// the range the four-digit wire form can carry.
#[derive(Clone, Copy, Debug, PartialEq, Eq, Structural)]
pub struct Instant {
    pub year: u32,
    pub month: u32,
    pub day: u32,
    pub hour: u32,
    pub minute: u32,
    pub second: u32,
}

/// Leap years of the proleptic Gregorian calendar.
pub open spec fn is_leap_year(year: int) -> bool {
    year % 4 == 0 && (year % 100 != 0 || year % 400 == 0)
}

/// Number of days of the given month (1-12) in the given year.
pub open spec fn days_in_month(year: int, month: int) -> int {
    if month == 2 {
        if is_leap_year(year) {
            29
        } else {
            28
        }
    } else if month == 4 || month == 6 || month == 9 || month == 11 {
        30
    } else {
        31
    }
}

/// A real calendar date in years 0000-9999.
pub open spec fn valid_date(year: int, month: int, day: int) -> bool {
    0 <= year <= 9999 && 1 <= month <= 12 && 1 <= day <= days_in_month(year, month)
}

impl Instant {
    /// A well-formed instant names a real calendar second in years 0000-9999.
    pub open spec fn wf(self) -> bool {
        valid_date(self.year as int, self.month as int, self.day as int) && self.hour <= 23
            && self.minute <= 59 && self.second <= 59
    }

    pub fn new(year: u32, month: u32, day: u32, hour: u32, minute: u32, second: u32) -> (r:
        Instant)
        ensures
            r == (Instant { year, month, day, hour, minute, second }),
    {
        Instant { year, month, day, hour, minute, second }
    }
}

/// Strict chronological order, lexicographic over the fields.
pub open spec fn instant_lt(a: Instant, b: Instant) -> bool {
    if a.year != b.year {
        a.year < b.year
    } else if a.month != b.month {
        a.month < b.month
    } else if a.day != b.day {
        a.day < b.day
    } else if a.hour != b.hour {
        a.hour < b.hour
    } else if a.minute != b.minute {
        a.minute < b.minute
    } else {
        a.second < b.second
    }
}

/// `a` is at or before `b`: the negation of `instant_lt(b, a)`, so that the
/// two predicates partition any pair of instants by definition.
pub open spec fn instant_le(a: Instant, b: Instant) -> bool {
    !instant_lt(b, a)
}

/// Exact-value comparison used by query code.
pub fn instant_lt_exec(a: &Instant, b: &Instant) -> (r: bool)
    ensures
        r == instant_lt(*a, *b),
{
    if a.year != b.year {
        a.year < b.year
    } else if a.month != b.month {
        a.month < b.month
    } else if a.day != b.day {
        a.day < b.day
    } else if a.hour != b.hour {
        a.hour < b.hour
    } else if a.minute != b.minute {
        a.minute < b.minute
    } else {
        a.second < b.second
    }
}

pub fn instant_eq_exec(a: &Instant, b: &Instant) -> (r: bool)
    ensures
        r == (*a == *b),
{
    a.year == b.year && a.month == b.month && a.day == b.day && a.hour == b.hour && a.minute
        == b.minute && a.second == b.second
}

/// Runtime check of `wf`, for callers that receive an instant from outside
/// the library.
pub fn instant_wf_exec(a: &Instant) -> (r: bool)
    ensures
        r == a.wf(),
{
    a.year <= 9999 && 1 <= a.month && a.month <= 12 && 1 <= a.day && a.day <= days_in_month_exec(
        a.year,
        a.month,
    ) && a.hour <= 23 && a.minute <= 59 && a.second <= 59
}

pub fn is_leap_year_exec(year: u32) -> (r: bool)
    ensures
        r == is_leap_year(year as int),
{
    year % 4 == 0 && (year % 100 != 0 || year % 400 == 0)
}

pub fn days_in_month_exec(year: u32, month: u32) -> (r: u32)
    ensures
        r == days_in_month(year as int, month as int),
{
    if month == 2 {
        if is_leap_year_exec(year) {
            29
        } else {
            28
        }
    } else if month == 4 || month == 6 || month == 9 || month == 11 {
        30
    } else {
        31
    }
}

} // verus!
