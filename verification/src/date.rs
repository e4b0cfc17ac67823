//! Calendar dates, modeled as plain year/month/day values.
//!
//! The store shards its files by year and names each file after a date, so
//! dates carry a well-formedness condition (a real calendar day, with the
//! Gregorian leap-year rule) and a fixed ten-character `YYYY-MM-DD` rendering,
//! implemented and verified in the codec module.

use vstd::prelude::*;

verus! {

/// A calendar day, without a time of day. Well-formed values satisfy
/// [`Date::spec_valid`]; the year is kept within four digits so that every
/// date has a fixed-width rendering.
#[derive(Clone, Copy, PartialEq, Eq, Structural, Debug)]
pub struct Date {
    pub year: u32,
    pub month: u32,
    pub day: u32,
}

/// The Gregorian leap-year rule.
pub open spec fn spec_is_leap_year(y: int) -> bool {
    (y % 4 == 0 && y % 100 != 0) || y % 400 == 0
}

/// Days in a month of a given year.
pub open spec fn spec_days_in_month(y: int, m: int) -> int {
    if m == 2 {
        if spec_is_leap_year(y) {
            29
        } else {
            28
        }
    } else if m == 4 || m == 6 || m == 9 || m == 11 {
        30
    } else {
        31
    }
}

impl Date {
    /// A real calendar day with a four-digit year.
    pub open spec fn spec_valid(self) -> bool {
        &&& 1 <= self.year <= 9999
        &&& 1 <= self.month <= 12
        &&& 1 <= self.day <= spec_days_in_month(self.year as int, self.month as int)
    }

    /// Whether `year` is a leap year.
    pub fn is_leap_year(year: u32) -> (r: bool)
        ensures
            r == spec_is_leap_year(year as int),
    {
        (year % 4 == 0 && year % 100 != 0) || year % 400 == 0
    }

    /// Days in the given month.
    pub fn days_in_month(year: u32, month: u32) -> (r: u32)
        requires
            1 <= month <= 12,
        ensures
            r == spec_days_in_month(year as int, month as int),
    {
        if month == 2 {
            if Date::is_leap_year(year) {
                29
            } else {
                28
            }
        } else if month == 4 || month == 6 || month == 9 || month == 11 {
            30
        } else {
            31
        }
    }

    /// Whether this value is a real calendar day.
    pub fn valid(&self) -> (r: bool)
        ensures
            r == self.spec_valid(),
    {
        1 <= self.year && self.year <= 9999 && 1 <= self.month && self.month <= 12 && 1 <= self.day
            && self.day <= Date::days_in_month(self.year, self.month)
    }

    /// Build a date, accepting exactly the real calendar days.
    pub fn new(year: u32, month: u32, day: u32) -> (r: Option<Date>)
        ensures
            match r {
                Some(d) => d == (Date { year, month, day }) && d.spec_valid(),
                None => !(Date { year, month, day }).spec_valid(),
            },
    {
        let d = Date { year, month, day };
        if d.valid() {
            Some(d)
        } else {
            None
        }
    }
}

} // verus!
