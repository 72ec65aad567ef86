//! The tracker's clock.
//!
//! "Now" is wall-clock UTC shifted by a fixed offset of +2 hours; the
//! local day boundary follows that shifted clock.  The offset is a
//! deliberate constant of the design, not the host time zone.

use vstd::prelude::*;

use crate::date::{date_from_parts, Date};
use crate::time_of_day::TimeOfDay;

verus! {

/// The fixed offset, in hours, added to UTC to obtain local time.
pub const LOCAL_OFFSET_HOURS: i64 = 2;

/// Relies on chrono's `Utc::now` shifted by `TimeDelta::hours`, read
/// out through the `Datelike` and `Timelike` accessors, which chrono
/// documents to return a month in 1..=12, a day of month in 1..=31,
/// an hour below 24, and a minute and second below 60.  The clock's
/// reading itself differs from call to call, so nothing more is
/// promised of it.
#[verifier::external_body]
fn read_clock() -> (r: (i32, u32, u32, u32, u32, u32))
    ensures
        1 <= r.1 <= 12,
        1 <= r.2 <= 31,
        r.3 < 24,
        r.4 < 60,
        r.5 < 60,
{
    let t = chrono::Utc::now() + chrono::TimeDelta::hours(LOCAL_OFFSET_HOURS);
    let d = t.date_naive();
    let tod = t.time();
    (
        chrono::Datelike::year(&d),
        chrono::Datelike::month(&d),
        chrono::Datelike::day(&d),
        chrono::Timelike::hour(&tod),
        chrono::Timelike::minute(&tod),
        chrono::Timelike::second(&tod),
    )
}

/// The current local date and time of day, validated field by field;
/// nothing is returned if the clock hands back a reading that is no
/// calendar date (a year outside 1..=9999, or a day past its month).
pub fn current_moment() -> (r: Option<(Date, TimeOfDay)>)
    ensures
        r matches Some((d, t)) ==> d.valid() && t.valid(),
{
    let (year, month, day, hour, minute, second) = read_clock();
    let date = date_from_parts(year, month, day)?;
    let time = TimeOfDay::from_parts(hour, minute, second)?;
    Some((date, time))
}

} // verus!
