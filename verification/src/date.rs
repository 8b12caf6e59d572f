//! Calendar dates as plain year, month and day values.

use vstd::prelude::*;

verus! {

/// A calendar date. Directives carry one intrinsic date; entries without an
/// intrinsic date receive the sentinel date, which only serves to keep them
/// grouped predictably during sorting.
#[derive(Clone, Copy, PartialEq, Eq, Structural, Debug)]
pub struct Date {
    pub year: u32,
    pub month: u32,
    pub day: u32,
}

/// Proleptic-Gregorian leap-year rule: every fourth year, except century
/// years that are not divisible by 400.
pub open spec fn is_leap_year(y: int) -> bool {
    (y % 4 == 0 && y % 100 != 0) || y % 400 == 0
}

pub open spec fn days_in_month(y: int, m: int) -> int {
    if m == 2 {
        if is_leap_year(y) {
            29
        } else {
            28
        }
    } else if m == 4 || m == 6 || m == 9 || m == 11 {
        30
    } else {
        31
    }
}

/// A valid calendar date whose year fits in four digits.
pub open spec fn valid_date(y: int, m: int, d: int) -> bool {
    &&& 0 <= y <= 9999
    &&& 1 <= m <= 12
    &&& 1 <= d <= days_in_month(y, m)
}

impl Date {
    pub open spec fn valid(self) -> bool {
        valid_date(self.year as int, self.month as int, self.day as int)
    }

    /// Chronological order: lexicographic on year, month, day.
    pub open spec fn spec_le(self, other: Date) -> bool {
        ||| self.year < other.year
        ||| (self.year == other.year && self.month < other.month)
        ||| (self.year == other.year && self.month == other.month && self.day <= other.day)
    }

    pub fn le(&self, other: &Date) -> (r: bool)
        ensures
            r == self.spec_le(*other),
    {
        self.year < other.year || (self.year == other.year && self.month < other.month) || (
        self.year == other.year && self.month == other.month && self.day <= other.day)
    }

    /// The fixed placeholder date for entries without an intrinsic date.
    pub open spec fn spec_sentinel() -> Date {
        Date { year: 1990, month: 1, day: 1 }
    }

    pub fn sentinel() -> (r: Date)
        ensures
            r == Date::spec_sentinel(),
    {
        Date { year: 1990, month: 1, day: 1 }
    }

    /// Builds a date after checking calendar validity.
    pub fn new(year: u32, month: u32, day: u32) -> (r: Option<Date>)
        ensures
            match r {
                Some(d) => valid_date(year as int, month as int, day as int) && d == (Date {
                    year,
                    month,
                    day,
                }),
                None => !valid_date(year as int, month as int, day as int),
            },
    {
        if year <= 9999 && 1 <= month && month <= 12 && 1 <= day && day <= days_in_month_exec(
            year,
            month,
        ) {
            Some(Date { year, month, day })
        } else {
            None
        }
    }
}

pub fn days_in_month_exec(y: u32, m: u32) -> (r: u32)
    ensures
        r == days_in_month(y as int, m as int),
{
    if m == 2 {
        if (y % 4 == 0 && y % 100 != 0) || y % 400 == 0 {
            29
        } else {
            28
        }
    } else if m == 4 || m == 6 || m == 9 || m == 11 {
        30
    } else {
        31
    }
}

} // verus!
