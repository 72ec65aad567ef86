//! Calendar dates in the proleptic Gregorian calendar.
//!
//! A date is kept as plain year/month/day fields.  The module turns a
//! date into its day number (days elapsed since the first of January of
//! year 1), from which weekday and week-window questions are answered.

use vstd::prelude::*;

verus! {

/// A calendar date.  `valid()` bounds the year so that day-number
/// arithmetic stays far below any machine limit.
#[derive(Clone, Copy, PartialEq, Eq, Structural, Debug)]
pub struct Date {
    pub year: u32,
    pub month: u32,
    pub day: u32,
}

pub open spec fn is_leap_year(y: int) -> bool {
    (y % 4 == 0 && y % 100 != 0) || y % 400 == 0
}

pub open spec fn days_in_month(y: int, m: int) -> int {
    if m == 2 {
        if is_leap_year(y) {
            29
        } else {
            28
        }
    } else if m == 4 || m == 6 || m == 9 || m == 11 {
        30
    } else {
        31
    }
}

/// Days in the months strictly before `m` of year `y`.
pub open spec fn days_before_month(y: int, m: int) -> int {
    let plain: int = if m == 1 {
        0
    } else if m == 2 {
        31
    } else if m == 3 {
        59
    } else if m == 4 {
        90
    } else if m == 5 {
        120
    } else if m == 6 {
        151
    } else if m == 7 {
        181
    } else if m == 8 {
        212
    } else if m == 9 {
        243
    } else if m == 10 {
        273
    } else if m == 11 {
        304
    } else {
        334
    };
    plain + if m > 2 && is_leap_year(y) {
        1int
    } else {
        0int
    }
}

/// Leap years among years 1..=y.
pub open spec fn leap_years_through(y: int) -> int {
    y / 4 - y / 100 + y / 400
}

/// Days elapsed since the first of January of year 1; that day itself
/// is day 0 (a Monday in the proleptic Gregorian calendar).
pub open spec fn spec_day_number(d: Date) -> int {
    365 * (d.year - 1) + leap_years_through(d.year - 1) + days_before_month(
        d.year as int,
        d.month as int,
    ) + d.day - 1
}

/// Days from Monday to the weekday of `d`: 0 for Monday up to 6 for Sunday.
pub open spec fn spec_weekday_from_monday(d: Date) -> int {
    spec_day_number(d) % 7
}

/// Day number of the most recent Monday on or before `d`.
pub open spec fn spec_week_start(d: Date) -> int {
    spec_day_number(d) - spec_day_number(d) % 7
}

/// Whether `d` lies in the Monday-aligned week of `current`, no later
/// than `current` itself.
pub open spec fn in_week_of(d: Date, current: Date) -> bool {
    spec_week_start(current) <= spec_day_number(d) <= spec_day_number(current)
}

/// Whether `d` falls in the same calendar month and year as `current`.
pub open spec fn in_month_of(d: Date, current: Date) -> bool {
    d.month == current.month && d.year == current.year
}

impl Date {
    pub open spec fn valid(self) -> bool {
        &&& 1 <= self.year <= 9999
        &&& 1 <= self.month <= 12
        &&& 1 <= self.day <= days_in_month(self.year as int, self.month as int)
    }

    /// Day count since the first of January of year 1.
    pub fn day_number(&self) -> (n: u64)
        requires
            self.valid(),
        ensures
            n == spec_day_number(*self),
    {
        let y = self.year as u64;
        let leap = (self.year % 4 == 0 && self.year % 100 != 0) || self.year % 400 == 0;
        let before: u64 = if self.month == 1 {
            0
        } else if self.month == 2 {
            31
        } else if self.month == 3 {
            59
        } else if self.month == 4 {
            90
        } else if self.month == 5 {
            120
        } else if self.month == 6 {
            151
        } else if self.month == 7 {
            181
        } else if self.month == 8 {
            212
        } else if self.month == 9 {
            243
        } else if self.month == 10 {
            273
        } else if self.month == 11 {
            304
        } else {
            334
        };
        let leap_shift: u64 = if self.month > 2 && leap {
            1
        } else {
            0
        };
        365 * (y - 1) + (y - 1) / 4 - (y - 1) / 100 + (y - 1) / 400 + before + leap_shift
            + self.day as u64 - 1
    }

    /// Days from Monday: 0 for Monday up to 6 for Sunday.
    pub fn weekday_from_monday(&self) -> (w: u32)
        requires
            self.valid(),
        ensures
            w == spec_weekday_from_monday(*self),
    {
        (self.day_number() % 7) as u32
    }

    /// Whether `self` lies in the Monday-aligned week ending at `current`.
    pub fn in_week_of(&self, current: &Date) -> (r: bool)
        requires
            self.valid(),
            current.valid(),
        ensures
            r == in_week_of(*self, *current),
    {
        let n = self.day_number();
        let c = current.day_number();
        c - c % 7 <= n && n <= c
    }

    /// Whether `self` falls in the same calendar month and year as `current`.
    pub fn in_month_of(&self, current: &Date) -> (r: bool)
        ensures
            r == in_month_of(*self, *current),
    {
        self.month == current.month && self.year == current.year
    }
}

/// Days in the given month, for month numbers 1 through 12.
pub fn days_in_month_of(year: u32, month: u32) -> (n: u32)
    requires
        1 <= month <= 12,
    ensures
        n == days_in_month(year as int, month as int),
{
    if month == 2 {
        if (year % 4 == 0 && year % 100 != 0) || year % 400 == 0 {
            29
        } else {
            28
        }
    } else if month == 4 || month == 6 || month == 9 || month == 11 {
        30
    } else {
        31
    }
}

/// Builds a date from raw parts, accepting exactly the valid dates.
pub fn date_from_parts(year: i32, month: u32, day: u32) -> (r: Option<Date>)
    ensures
        r matches Some(d) ==> d.valid() && d.year == year && d.month == month && d.day == day,
        (r is Some) <==> {
            &&& 1 <= year <= 9999
            &&& 1 <= month <= 12
            &&& 1 <= day <= days_in_month(year as int, month as int)
        },
{
    if year < 1 || year > 9999 || month < 1 || month > 12 {
        return None;
    }
    let y = year as u32;
    if day < 1 || day > days_in_month_of(y, month) {
        return None;
    }
    Some(Date { year: y, month, day })
}

} // verus!
