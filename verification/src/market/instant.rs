//! Instants of the tick stream.
use vstd::prelude::*;

verus! {

/// An instant in UTC with millisecond resolution, counted in milliseconds
/// from 1970-01-01T00:00:00Z.
#[derive(PartialEq, Eq, Clone, Copy, Debug, Structural)]
pub struct Timestamp {
    pub millis: i64,
}

/// A date and a time of day as they are written: calendar fields that have
/// not been checked against the calendar.
#[derive(PartialEq, Eq, Clone, Copy, Debug, Structural)]
pub struct CivilTime {
    pub year: i32,
    pub month: u32,
    pub day: u32,
    pub hour: u32,
    pub minute: u32,
    pub second: u32,
    pub millis: u32,
}

/// The instant that the calendar gives to a written date and time of day in
/// UTC, in milliseconds from 1970-01-01T00:00:00Z; `None` where the calendar
/// has no such day or the day no such time.
pub uninterp spec fn utc_millis(
    year: i32,
    month: u32,
    day: u32,
    hour: u32,
    minute: u32,
    second: u32,
    millis: u32,
) -> Option<i64>;

impl CivilTime {
    /// The instant of this date and time in UTC, if there is one.
    pub open spec fn instant(self) -> Option<i64> {
        utc_millis(
            self.year,
            self.month,
            self.day,
            self.hour,
            self.minute,
            self.second,
            self.millis,
        )
    }

    /// Looks the date and time up in the calendar.
    pub fn to_millis(&self) -> (instant: Option<i64>)
        ensures
            instant == self.instant(),
    {
        civil_to_millis(
            self.year,
            self.month,
            self.day,
            self.hour,
            self.minute,
            self.second,
            self.millis,
        )
    }
}

/// Calls chrono: `NaiveDate::from_ymd_opt` for the day, then
/// `NaiveDate::and_hms_milli_opt` for the time of day, and reads the instant
/// off with `NaiveDateTime::and_utc` and `DateTime::timestamp_millis`.
///
/// Not proved: that the result is `utc_millis` of the arguments. That claims
/// only that chrono's answer depends on these seven numbers alone; nothing is
/// claimed of which instant it is, nor of which dates it accepts.
#[verifier::external_body]
fn civil_to_millis(
    year: i32,
    month: u32,
    day: u32,
    hour: u32,
    minute: u32,
    second: u32,
    millis: u32,
) -> (instant: Option<i64>)
    ensures
        instant == utc_millis(year, month, day, hour, minute, second, millis),
{
    let date = chrono::NaiveDate::from_ymd_opt(year, month, day)?;
    let time = date.and_hms_milli_opt(hour, minute, second, millis)?;
    Some(time.and_utc().timestamp_millis())
}

} // verus!
