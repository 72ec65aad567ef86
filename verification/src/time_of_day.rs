//! Times of day and duration arithmetic.
//!
//! Elapsed time between two same-day clock readings is `end - start`
//! truncated to whole minutes.  An end that lies before its start is a
//! validation error, never a negative or wrapped duration; the checked
//! operation reports it so the caller can ask again.

use vstd::prelude::*;

verus! {

/// A wall-clock time of day.
#[derive(Clone, Copy, PartialEq, Eq, Structural, Debug)]
pub struct TimeOfDay {
    pub hour: u32,
    pub minute: u32,
    pub second: u32,
}

/// Division that truncates toward zero, as machine signed division does.
pub open spec fn trunc_div(a: int, b: int) -> int
    recommends
        b > 0,
{
    if a >= 0 {
        a / b
    } else {
        -((-a) / b)
    }
}

impl TimeOfDay {
    pub open spec fn valid(self) -> bool {
        self.hour < 24 && self.minute < 60 && self.second < 60
    }

    /// Seconds since midnight.
    pub open spec fn spec_seconds(self) -> int {
        self.hour * 3600 + self.minute * 60 + self.second
    }

    /// Seconds since midnight.
    pub fn seconds_of_day(&self) -> (s: u32)
        requires
            self.valid(),
        ensures
            s == self.spec_seconds(),
    {
        self.hour * 3600 + self.minute * 60 + self.second
    }

    /// Builds a time of day from raw parts, accepting exactly the
    /// in-range readings.
    pub fn from_parts(hour: u32, minute: u32, second: u32) -> (r: Option<TimeOfDay>)
        ensures
            r matches Some(t) ==> t == (TimeOfDay { hour, minute, second }) && t.valid(),
            (r is Some) <==> hour < 24 && minute < 60 && second < 60,
    {
        if hour < 24 && minute < 60 && second < 60 {
            Some(TimeOfDay { hour, minute, second })
        } else {
            None
        }
    }
}

/// Whole minutes from `start` to `end` on the same day.
///
/// Returns the truncated minute count when `start <= end`, and nothing
/// at all when `end` lies before `start`: an inverted pair is rejected
/// rather than stored as a negative or wrapped duration.
pub fn elapsed_minutes(start: TimeOfDay, end: TimeOfDay) -> (r: Option<u64>)
    requires
        start.valid(),
        end.valid(),
    ensures
        (r is Some) <==> start.spec_seconds() <= end.spec_seconds(),
        r matches Some(m) ==> m == (end.spec_seconds() - start.spec_seconds()) / 60,
{
    let s = start.seconds_of_day();
    let e = end.seconds_of_day();
    if s <= e {
        Some(((e - s) / 60) as u64)
    } else {
        None
    }
}

/// Signed whole minutes from `start` to `end`, truncated toward zero;
/// negative when `end` lies before `start`.  Used for spans that are
/// reported as-is, such as the time left until the end of the day.
pub fn signed_minutes_between(start: TimeOfDay, end: TimeOfDay) -> (m: i64)
    requires
        start.valid(),
        end.valid(),
    ensures
        m == trunc_div(end.spec_seconds() - start.spec_seconds(), 60),
{
    let s = start.seconds_of_day();
    let e = end.seconds_of_day();
    if s <= e {
        ((e - s) / 60) as i64
    } else {
        -(((s - e) / 60) as i64)
    }
}

/// Splits a minute count into whole hours and leftover minutes.
pub fn split_hours_minutes(total: u64) -> (r: (u64, u64))
    ensures
        r.0 == total / 60,
        r.1 == total % 60,
{
    (total / 60, total % 60)
}

/// Splits a signed minute count the way machine division does: the
/// hour part truncates toward zero and the leftover keeps the sign of
/// the input, so -90 minutes reads as -1 hour and -30 minutes.
pub fn split_hours_minutes_signed(total: i64) -> (r: (i64, i64))
    requires
        total > i64::MIN,
    ensures
        r.0 == trunc_div(total as int, 60),
        r.1 == total - 60 * r.0,
{
    if total >= 0 {
        (total / 60, total % 60)
    } else {
        let h = -((-total) / 60);
        (h, total - 60 * h)
    }
}

} // verus!
