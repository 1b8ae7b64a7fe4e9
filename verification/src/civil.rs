//! Calendar time: an instant as the fields of the calendar that it falls on.
//!
//! The renderers work on [`CivilTime`] values and never ask what day an
//! instant falls on. That question is put to `chrono`, once, in
//! [`CivilTime::from_timestamp`].

use chrono::{Datelike, Timelike};
use vstd::prelude::*;

verus! {

/// A day of the week.
#[derive(Debug, Clone, Copy, PartialEq, Eq, Hash, Structural)]
pub enum Weekday {
    Monday,
    Tuesday,
    Wednesday,
    Thursday,
    Friday,
    Saturday,
    Sunday,
}

/// The day of the week that lies `index` days after a Monday, for an index
/// below 7.
pub open spec fn weekday_of(index: u32) -> Weekday {
    if index == 0 {
        Weekday::Monday
    } else if index == 1 {
        Weekday::Tuesday
    } else if index == 2 {
        Weekday::Wednesday
    } else if index == 3 {
        Weekday::Thursday
    } else if index == 4 {
        Weekday::Friday
    } else if index == 5 {
        Weekday::Saturday
    } else {
        Weekday::Sunday
    }
}

impl Weekday {
    /// The day of the week that lies `index` days after a Monday.
    pub fn from_monday(index: u32) -> (day: Weekday)
        ensures
            day == weekday_of(index),
    {
        if index == 0 {
            Weekday::Monday
        } else if index == 1 {
            Weekday::Tuesday
        } else if index == 2 {
            Weekday::Wednesday
        } else if index == 3 {
            Weekday::Thursday
        } else if index == 4 {
            Weekday::Friday
        } else if index == 5 {
            Weekday::Saturday
        } else {
            Weekday::Sunday
        }
    }
}

/// An instant together with the date and the time of day that a calendar
/// gives it.
///
/// The calendar fields are those of some time zone; `timestamp` is the
/// instant itself and the same in every zone.
#[derive(Debug, Clone, Copy, PartialEq, Eq, Structural)]
pub struct CivilTime {
    /// The year of the proleptic Gregorian calendar; year 0 is 1 BCE.
    pub year: i32,
    /// The month, from 1.
    pub month: u32,
    /// The day of the month, from 1.
    pub day: u32,
    /// The day of the week.
    pub weekday: Weekday,
    /// The seconds since midnight.
    pub second_of_day: u32,
    /// The seconds since 1970-01-01 00:00:00 UTC.
    pub timestamp: i64,
}

/// The first second of the year -262143, the earliest instant that `chrono`
/// gives a date to: the timestamp of its `DateTime::<Utc>::MIN_UTC`.
pub const MIN_TIMESTAMP: i64 = -8_334_601_228_800;

/// The last second of the year 262142, the latest instant that `chrono`
/// gives a date to: the timestamp of its `DateTime::<Utc>::MAX_UTC`.
pub const MAX_TIMESTAMP: i64 = 8_210_266_876_799;

/// The date in UTC of the instant `secs` seconds after the epoch, as
/// `chrono` computes it: the year, the month, the day of the month, and the
/// number of days from Monday to the day of the week.
pub uninterp spec fn utc_date(secs: i64) -> (i32, u32, u32, u32);

/// The calendar fields of an instant in UTC.
pub open spec fn utc_civil(secs: i64) -> CivilTime {
    CivilTime {
        year: utc_date(secs).0,
        month: utc_date(secs).1,
        day: utc_date(secs).2,
        weekday: weekday_of(utc_date(secs).3),
        second_of_day: (secs % 86400) as u32,
        timestamp: secs,
    }
}

impl CivilTime {
    /// The fields are those of a date and a time of day: a month from 1 to
    /// 12, a day from 1 to 31, and less than a day's seconds since midnight.
    pub open spec fn wf(self) -> bool {
        &&& 1 <= self.month <= 12
        &&& 1 <= self.day <= 31
        &&& self.second_of_day < 86400
    }

    /// The calendar fields in UTC of the instant `secs` seconds after the
    /// epoch. `None` where the instant lies outside the years that the
    /// calendar covers.
    pub fn from_timestamp(secs: i64) -> (r: Option<CivilTime>)
        ensures
            r is Some <==> MIN_TIMESTAMP <= secs <= MAX_TIMESTAMP,
            r matches Some(time) ==> time == utc_civil(secs) && time.wf(),
    {
        match utc_fields(secs) {
            Some((year, month, day, weekday, second_of_day)) => Some(
                CivilTime {
                    year,
                    month,
                    day,
                    weekday: Weekday::from_monday(weekday),
                    second_of_day,
                    timestamp: secs,
                },
            ),
            None => None,
        }
    }
}

/// `chrono::DateTime::from_timestamp` with no nanoseconds, and of the
/// instant that it returns `year`, `month`, `day`,
/// `weekday().num_days_from_monday()` and `num_seconds_from_midnight()`.
///
/// The contract claims, of `chrono`: that an instant has a date exactly from
/// the first second of the year -262143 to the last second of the year
/// 262142; that the date depends on the instant alone; that the month lies
/// between 1 and 12, the day between 1 and 31 and the weekday number below
/// 7; and that the seconds since midnight are the remainder of the instant
/// by the 86400 seconds of a day.
#[verifier::external_body]
fn utc_fields(secs: i64) -> (r: Option<(i32, u32, u32, u32, u32)>)
    ensures
        r is Some <==> MIN_TIMESTAMP <= secs <= MAX_TIMESTAMP,
        r matches Some(fields) ==> (fields.0, fields.1, fields.2, fields.3) == utc_date(secs),
        r matches Some(fields) ==> 1 <= fields.1 <= 12 && 1 <= fields.2 <= 31 && fields.3 < 7,
        r matches Some(fields) ==> fields.4 == secs % 86400,
{
    let at = chrono::DateTime::from_timestamp(secs, 0)?;
    Some(
        (
            at.year(),
            at.month(),
            at.day(),
            at.weekday().num_days_from_monday(),
            at.num_seconds_from_midnight(),
        ),
    )
}

} // verus!
