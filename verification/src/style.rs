//! The display styles of a timestamp tag and their one-letter wire codes.

use vstd::prelude::*;
use vstd::string::*;
use crate::civil::{utc_civil, CivilTime, Weekday, MAX_TIMESTAMP, MIN_TIMESTAMP};
use crate::decimal::{push_zero_padded, zero_padded};
use crate::relative::{relative_text, timestamp_relative};

verus! {

/// The formatting information in a timestamp tag.
#[derive(Debug, Clone, Copy, PartialEq, Eq, Hash, Structural)]
pub enum TimestampStyle {
    /// `t`, e.g. `16:20`.
    ShortTime,
    /// `T`, e.g. `16:20:30`.
    LongTime,
    /// `d`, e.g. `2021-04-20`.
    ShortDate,
    /// `D`, rendered like `d`.
    LongDate,
    /// `f`, e.g. `2021-04-20 16:20`. This is the default.
    ShortDateTime,
    /// `F`, e.g. `Tuesday, 2021-04-20 16:20`.
    LongDateTime,
    /// `R`, e.g. `2 months ago`.
    RelativeTime,
}

/// The style that a one-byte wire code selects, if any.
pub open spec fn style_of_code(code: u8) -> Option<TimestampStyle> {
    if code == 0x74 {
        Some(TimestampStyle::ShortTime)
    } else if code == 0x54 {
        Some(TimestampStyle::LongTime)
    } else if code == 0x64 {
        Some(TimestampStyle::ShortDate)
    } else if code == 0x44 {
        Some(TimestampStyle::LongDate)
    } else if code == 0x66 {
        Some(TimestampStyle::ShortDateTime)
    } else if code == 0x46 {
        Some(TimestampStyle::LongDateTime)
    } else if code == 0x52 {
        Some(TimestampStyle::RelativeTime)
    } else {
        None
    }
}

impl TimestampStyle {
    /// The wire code of this style.
    pub open spec fn spec_code(self) -> u8 {
        match self {
            TimestampStyle::ShortTime => 0x74,
            TimestampStyle::LongTime => 0x54,
            TimestampStyle::ShortDate => 0x64,
            TimestampStyle::LongDate => 0x44,
            TimestampStyle::ShortDateTime => 0x66,
            TimestampStyle::LongDateTime => 0x46,
            TimestampStyle::RelativeTime => 0x52,
        }
    }

    /// The wire code of this style, as an ASCII byte.
    #[verifier::when_used_as_spec(spec_code)]
    pub fn code(self) -> (c: u8)
        ensures
            c == self.spec_code(),
            style_of_code(c) == Some(self),
    {
        match self {
            TimestampStyle::ShortTime => 0x74,
            TimestampStyle::LongTime => 0x54,
            TimestampStyle::ShortDate => 0x64,
            TimestampStyle::LongDate => 0x44,
            TimestampStyle::ShortDateTime => 0x66,
            TimestampStyle::LongDateTime => 0x46,
            TimestampStyle::RelativeTime => 0x52,
        }
    }

    /// Reads a style from its one-byte wire code.
    pub fn from_code(code: u8) -> (r: Option<TimestampStyle>)
        ensures
            r == style_of_code(code),
    {
        if code == 0x74 {
            Some(TimestampStyle::ShortTime)
        } else if code == 0x54 {
            Some(TimestampStyle::LongTime)
        } else if code == 0x64 {
            Some(TimestampStyle::ShortDate)
        } else if code == 0x44 {
            Some(TimestampStyle::LongDate)
        } else if code == 0x66 {
            Some(TimestampStyle::ShortDateTime)
        } else if code == 0x46 {
            Some(TimestampStyle::LongDateTime)
        } else if code == 0x52 {
            Some(TimestampStyle::RelativeTime)
        } else {
            None
        }
    }
}

/// The style that a wire code selects: the code is a single letter, one of
/// `t T d D f F R`. Any other text is an error.
pub open spec fn style_of_wire(code: Seq<u8>) -> Result<TimestampStyle, ()> {
    if code.len() == 1 {
        match style_of_code(code[0]) {
            Some(style) => Ok(style),
            None => Err(()),
        }
    } else {
        Err(())
    }
}

/// The time of day as `HH:MM`.
pub open spec fn clock_text(time: CivilTime) -> Seq<char> {
    zero_padded((time.second_of_day / 3600) as nat, 2) + ":"@ + zero_padded(
        (time.second_of_day / 60 % 60) as nat,
        2,
    )
}

/// The year in at least four digits. A year before 0 or after 9999 has its
/// sign in front.
pub open spec fn year_text(year: int) -> Seq<char> {
    if year < 0 {
        "-"@ + zero_padded((-year) as nat, 4)
    } else if year > 9999 {
        "+"@ + zero_padded(year as nat, 4)
    } else {
        zero_padded(year as nat, 4)
    }
}

/// The date as `YYYY-MM-DD`.
pub open spec fn date_text(time: CivilTime) -> Seq<char> {
    year_text(time.year as int) + "-"@ + zero_padded(time.month as nat, 2) + "-"@ + zero_padded(
        time.day as nat,
        2,
    )
}

/// The English name of a day of the week.
pub open spec fn weekday_name(day: Weekday) -> Seq<char> {
    match day {
        Weekday::Monday => "Monday"@,
        Weekday::Tuesday => "Tuesday"@,
        Weekday::Wednesday => "Wednesday"@,
        Weekday::Thursday => "Thursday"@,
        Weekday::Friday => "Friday"@,
        Weekday::Saturday => "Saturday"@,
        Weekday::Sunday => "Sunday"@,
    }
}

/// What a timestamp looks like in a style. Only `RelativeTime` looks at
/// `now`.
pub open spec fn style_text(style: TimestampStyle, time: CivilTime, now: CivilTime) -> Seq<char> {
    match style {
        TimestampStyle::ShortTime => clock_text(time),
        TimestampStyle::LongTime => clock_text(time) + ":"@ + zero_padded(
            (time.second_of_day % 60) as nat,
            2,
        ),
        TimestampStyle::ShortDate => date_text(time),
        TimestampStyle::LongDate => date_text(time),
        TimestampStyle::ShortDateTime => date_text(time) + " "@ + clock_text(time),
        TimestampStyle::LongDateTime => weekday_name(time.weekday) + ", "@ + date_text(time) + " "@
            + clock_text(time),
        TimestampStyle::RelativeTime => relative_text(time, now),
    }
}

fn push_clock(out: &mut String, time: CivilTime)
    ensures
        final(out)@ == old(out)@ + clock_text(time),
{
    push_zero_padded(out, (time.second_of_day / 3600) as u64, 2);
    out.append(":");
    push_zero_padded(out, (time.second_of_day / 60 % 60) as u64, 2);
    assert(out@ =~= old(out)@ + clock_text(time));
}

fn push_year(out: &mut String, year: i32)
    ensures
        final(out)@ == old(out)@ + year_text(year as int),
{
    if year < 0 {
        out.append("-");
        push_zero_padded(out, (-(year as i64)) as u64, 4);
    } else if year > 9999 {
        out.append("+");
        push_zero_padded(out, year as u64, 4);
    } else {
        push_zero_padded(out, year as u64, 4);
    }
    assert(out@ =~= old(out)@ + year_text(year as int));
}

fn push_date(out: &mut String, time: CivilTime)
    ensures
        final(out)@ == old(out)@ + date_text(time),
{
    push_year(out, time.year);
    out.append("-");
    push_zero_padded(out, time.month as u64, 2);
    out.append("-");
    push_zero_padded(out, time.day as u64, 2);
    assert(out@ =~= old(out)@ + date_text(time));
}

fn weekday_str(day: Weekday) -> (r: &'static str)
    ensures
        r@ == weekday_name(day),
{
    match day {
        Weekday::Monday => "Monday",
        Weekday::Tuesday => "Tuesday",
        Weekday::Wednesday => "Wednesday",
        Weekday::Thursday => "Thursday",
        Weekday::Friday => "Friday",
        Weekday::Saturday => "Saturday",
        Weekday::Sunday => "Sunday",
    }
}

impl TimestampStyle {
    /// Reads a style from its wire code, as it stands in a tag.
    pub fn from_wire(code: &str) -> (r: Result<TimestampStyle, ()>)
        ensures
            r == style_of_wire(code.spec_bytes()),
    {
        let bytes: &[u8] = code.as_bytes();
        if bytes.len() == 1 {
            match TimestampStyle::from_code(bytes[0]) {
                Some(style) => Ok(style),
                None => Err(()),
            }
        } else {
            Err(())
        }
    }

    /// Formats the timestamp `time` with this style, as seen from `now`.
    ///
    /// The formatting is not locale-aware.
    pub fn fmt(&self, time: CivilTime, now: CivilTime) -> (r: String)
        ensures
            r@ == style_text(*self, time, now),
    {
        let mut out: String = String::new();
        match self {
            TimestampStyle::ShortTime => {
                push_clock(&mut out, time);
            },
            TimestampStyle::LongTime => {
                push_clock(&mut out, time);
                out.append(":");
                push_zero_padded(&mut out, (time.second_of_day % 60) as u64, 2);
            },
            TimestampStyle::ShortDate => {
                push_date(&mut out, time);
            },
            TimestampStyle::LongDate => {
                push_date(&mut out, time);
            },
            TimestampStyle::ShortDateTime => {
                push_date(&mut out, time);
                out.append(" ");
                push_clock(&mut out, time);
            },
            TimestampStyle::LongDateTime => {
                out.append(weekday_str(time.weekday));
                out.append(", ");
                push_date(&mut out, time);
                out.append(" ");
                push_clock(&mut out, time);
            },
            TimestampStyle::RelativeTime => {
                return timestamp_relative(time, now);
            },
        }
        assert(out@ =~= style_text(*self, time, now));
        out
    }

    /// Formats the instant `instant` with this style in UTC, as seen from
    /// the instant `now`. Both are in seconds since the UNIX epoch.
    ///
    /// `None` where the calendar does not reach `instant`, or, for
    /// `RelativeTime`, does not reach `now`.
    pub fn fmt_utc(&self, instant: i64, now: i64) -> (r: Option<String>)
        ensures
            r is Some <==> MIN_TIMESTAMP <= instant <= MAX_TIMESTAMP && (*self
                == TimestampStyle::RelativeTime ==> MIN_TIMESTAMP <= now <= MAX_TIMESTAMP),
            r matches Some(text) ==> text@ == style_text(*self, utc_civil(instant), utc_civil(now)),
    {
        let time: CivilTime = match CivilTime::from_timestamp(instant) {
            Some(time) => time,
            None => {
                return None;
            },
        };
        match self {
            TimestampStyle::RelativeTime => match CivilTime::from_timestamp(now) {
                Some(base) => Some(self.fmt(time, base)),
                None => None,
            },
            _ => Some(self.fmt(time, time)),
        }
    }
}

impl Default for TimestampStyle {
    /// The style of a timestamp tag that names none.
    fn default() -> (style: TimestampStyle)
        ensures
            style == TimestampStyle::ShortDateTime,
    {
        TimestampStyle::ShortDateTime
    }
}

impl core::str::FromStr for TimestampStyle {
    type Err = ();

    fn from_str(code: &str) -> (r: Result<TimestampStyle, ()>)
        ensures
            r == style_of_wire(code.spec_bytes()),
    {
        TimestampStyle::from_wire(code)
    }
}

} // verus!
