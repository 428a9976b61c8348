use vstd::prelude::*;

verus! {

/// Leap years of the proleptic Gregorian calendar.
pub open spec fn is_leap_year(y: int) -> bool {
    y % 4 == 0 && (y % 100 != 0 || y % 400 == 0)
}

/// Number of days in month `m` of year `y` (months are 1-based).
pub open spec fn days_in_month(y: int, m: int) -> int {
    if m == 2 {
        if is_leap_year(y) {
            29
        } else {
            28
        }
    } else if m == 4 || m == 6 || m == 9 || m == 11 {
        30
    } else {
        31
    }
}

/// Number of days in the months of year `y` that precede month `m`.
pub open spec fn days_before_month(y: int, m: int) -> int {
    let base: int = if m == 1 {
        0
    } else if m == 2 {
        31
    } else if m == 3 {
        59
    } else if m == 4 {
        90
    } else if m == 5 {
        120
    } else if m == 6 {
        151
    } else if m == 7 {
        181
    } else if m == 8 {
        212
    } else if m == 9 {
        243
    } else if m == 10 {
        273
    } else if m == 11 {
        304
    } else {
        334
    };
    if m > 2 && is_leap_year(y) {
        base + 1
    } else {
        base
    }
}

/// The day number of a civil date: days counted from the calendar epoch,
/// with the first day of year 1 being day 1 (a Monday).
pub open spec fn day_number_of(y: int, m: int, d: int) -> int {
    365 * (y - 1) + (y - 1) / 4 - (y - 1) / 100 + (y - 1) / 400 + days_before_month(y, m) + d
}

/// A calendar date in the proleptic Gregorian calendar, local to whatever
/// time zone produced it.  Only the civil fields are kept; instants are
/// converted to dates before they reach this library's logic.
#[derive(Clone, Copy, Debug)]
pub struct CivilDate {
    pub year: i32,
    pub month: u8,
    pub day: u8,
}

impl CivilDate {
    /// A well-formed date: months 1-12, days within the month, years
    /// restricted to four digits so that day numbers stay small.
    pub open spec fn valid(self) -> bool {
        1 <= self.year <= 9999 && 1 <= self.month <= 12 && 1 <= self.day <= days_in_month(
            self.year as int,
            self.month as int,
        )
    }

    pub open spec fn spec_day_number(self) -> int {
        day_number_of(self.year as int, self.month as int, self.day as int)
    }

    /// Constructs a date after checking that the fields form a real
    /// calendar date.
    pub fn new(year: i32, month: u8, day: u8) -> (r: Option<CivilDate>)
        ensures
            match r {
                Some(d) => d.valid() && d.year == year && d.month == month && d.day == day,
                None => !(CivilDate { year, month, day }).valid(),
            },
    {
        if 1 <= year && year <= 9999 && 1 <= month && month <= 12 && 1 <= day {
            let dim = Self::days_in_month_exec(year, month);
            if day <= dim {
                Some(CivilDate { year, month, day })
            } else {
                None
            }
        } else {
            None
        }
    }

    /// The number of days in a month, as executable code.
    pub fn days_in_month_exec(year: i32, month: u8) -> (r: u8)
        ensures
            r as int == days_in_month(year as int, month as int),
    {
        if month == 2 {
            if (year % 4 == 0 && year % 100 != 0) || year % 400 == 0 {
                29
            } else {
                28
            }
        } else if month == 4 || month == 6 || month == 9 || month == 11 {
            30
        } else {
            31
        }
    }

    /// The day number of this date, counted from the calendar epoch.
    pub fn day_number(&self) -> (r: i64)
        requires
            self.valid(),
        ensures
            r as int == self.spec_day_number(),
            1 <= r <= 3652059,
    {
        let y = self.year as i64;
        let base = 365 * (y - 1) + (y - 1) / 4 - (y - 1) / 100 + (y - 1) / 400;
        let before: i64 = match self.month {
            1 => 0,
            2 => 31,
            3 => 59,
            4 => 90,
            5 => 120,
            6 => 151,
            7 => 181,
            8 => 212,
            9 => 243,
            10 => 273,
            11 => 304,
            _ => 334,
        };
        let leap_add: i64 = if self.month > 2 && ((self.year % 4 == 0 && self.year % 100 != 0)
            || self.year % 400 == 0) {
            1
        } else {
            0
        };
        base + before + leap_add + self.day as i64
    }
}

/// Whether a day number falls on a Saturday or a Sunday.  Day 1 of the
/// calendar epoch is a Monday, so Saturdays are the days congruent to 6
/// and Sundays the days congruent to 0, modulo 7.
pub open spec fn spec_is_weekend_day(day: int) -> bool {
    day % 7 == 6 || day % 7 == 0
}

/// Checks whether a (non-negative) day number falls on a weekend.
pub fn is_weekend_day(day: i64) -> (r: bool)
    requires
        day >= 0,
    ensures
        r == spec_is_weekend_day(day as int),
{
    let m = day % 7;
    m == 6 || m == 0
}

} // verus!
