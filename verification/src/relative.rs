//! The relative time formatter: how far an instant lies from another, in
//! words, as in "2 months ago" or "in 1 hour".
//!
//! Years and months are counted on the calendar: a year or a month counts
//! once the same point of the year or of the month has come round. Weeks
//! and smaller units are counted in elapsed seconds. Every count is cut
//! towards zero, and the largest unit with a count other than zero is the
//! one that is named.

use vstd::prelude::*;
use vstd::string::*;
use crate::civil::CivilTime;
use crate::decimal::{decimal_text, push_decimal};

verus! {

/// `a` lies earlier in its month than `b` in its own.
pub open spec fn earlier_in_month(a: CivilTime, b: CivilTime) -> bool {
    a.day < b.day || (a.day == b.day && a.second_of_day < b.second_of_day)
}

/// `a` lies earlier in its year than `b` in its own.
pub open spec fn earlier_in_year(a: CivilTime, b: CivilTime) -> bool {
    a.month < b.month || (a.month == b.month && earlier_in_month(a, b))
}

/// The whole years from `base` to `time`: negative where `time` is the
/// earlier of the two.
pub open spec fn full_years(time: CivilTime, base: CivilTime) -> int {
    let years = time.year - base.year;
    if years > 0 && earlier_in_year(time, base) {
        years - 1
    } else if years < 0 && earlier_in_year(base, time) {
        years + 1
    } else {
        years
    }
}

/// The whole months from `base` to `time`: negative where `time` is the
/// earlier of the two.
pub open spec fn full_months(time: CivilTime, base: CivilTime) -> int {
    let months = 12 * (time.year - base.year) + (time.month - base.month);
    if months > 0 && earlier_in_month(time, base) {
        months - 1
    } else if months < 0 && earlier_in_month(base, time) {
        months + 1
    } else {
        months
    }
}

/// The seconds from `base` to `time`.
pub open spec fn elapsed(time: CivilTime, base: CivilTime) -> int {
    time.timestamp - base.timestamp
}

/// The whole units of `unit` seconds in `seconds`, cut towards zero.
pub open spec fn whole(seconds: int, unit: int) -> int {
    if seconds >= 0 {
        seconds / unit
    } else {
        -((-seconds) / unit)
    }
}

/// An amount of a unit: `1 week`, `3 weeks`.
pub open spec fn amount_text(amount: nat, unit: Seq<char>) -> Seq<char> {
    if amount >= 2 {
        decimal_text(amount) + " "@ + unit + "s"@
    } else {
        decimal_text(amount) + " "@ + unit
    }
}

/// A count of a unit from now: `in 3 weeks` for 3, `1 week ago` for -1.
pub open spec fn count_text(count: int, unit: Seq<char>) -> Seq<char> {
    if count > 0 {
        "in "@ + amount_text(count as nat, unit)
    } else {
        amount_text((-count) as nat, unit) + " ago"@
    }
}

/// How far `time` lies from `base`, in words.
pub open spec fn relative_text(time: CivilTime, base: CivilTime) -> Seq<char> {
    let seconds = elapsed(time, base);
    if full_years(time, base) != 0 {
        count_text(full_years(time, base), "year"@)
    } else if full_months(time, base) != 0 {
        count_text(full_months(time, base), "month"@)
    } else if whole(seconds, 604800) != 0 {
        count_text(whole(seconds, 604800), "week"@)
    } else if whole(seconds, 86400) != 0 {
        count_text(whole(seconds, 86400), "day"@)
    } else if whole(seconds, 3600) != 0 {
        count_text(whole(seconds, 3600), "hour"@)
    } else if whole(seconds, 60) != 0 {
        count_text(whole(seconds, 60), "minute"@)
    } else if seconds != 0 {
        count_text(seconds, "second"@)
    } else {
        "now"@
    }
}

/// Whether `a` lies earlier in its month than `b` in its own.
fn is_earlier_in_month(a: CivilTime, b: CivilTime) -> (r: bool)
    ensures
        r == earlier_in_month(a, b),
{
    a.day < b.day || (a.day == b.day && a.second_of_day < b.second_of_day)
}

/// Whether `a` lies earlier in its year than `b` in its own.
fn is_earlier_in_year(a: CivilTime, b: CivilTime) -> (r: bool)
    ensures
        r == earlier_in_year(a, b),
{
    a.month < b.month || (a.month == b.month && is_earlier_in_month(a, b))
}

/// The words for `amount` units before or after now.
fn count_string(ahead: bool, amount: u64, unit: &str) -> (r: String)
    requires
        amount > 0,
    ensures
        ahead ==> r@ == count_text(amount as int, unit@),
        !ahead ==> r@ == count_text(-(amount as int), unit@),
{
    let mut out: String = String::new();
    if ahead {
        out.append("in ");
    }
    push_decimal(&mut out, amount);
    out.append(" ");
    out.append(unit);
    if amount >= 2 {
        out.append("s");
    }
    if !ahead {
        out.append(" ago");
    }
    proof {
        let amount_seq: Seq<char> = amount_text(amount as nat, unit@);
        if amount >= 2 {
            assert(amount_seq =~= Seq::<char>::empty() + decimal_text(amount as nat) + " "@ + unit@
                + "s"@);
        } else {
            assert(amount_seq =~= Seq::<char>::empty() + decimal_text(amount as nat) + " "@
                + unit@);
        }
        if ahead {
            assert(out@ =~= "in "@ + amount_seq);
        } else {
            assert(out@ =~= amount_seq + " ago"@);
        }
    }
    out
}

/// The words for a count other than zero.
fn signed_count_string(count: i64, unit: &str) -> (r: String)
    requires
        count != 0,
        count > i64::MIN,
    ensures
        r@ == count_text(count as int, unit@),
{
    if count > 0 {
        count_string(true, count as u64, unit)
    } else {
        count_string(false, (-count) as u64, unit)
    }
}

/// Says how far `time` lies from `base`: `in 2 years`, `1 month ago`, and
/// so on down to seconds, or `now` where the two are the same instant.
pub fn timestamp_relative(time: CivilTime, base: CivilTime) -> (r: String)
    ensures
        r@ == relative_text(time, base),
{
    let year_steps: i64 = time.year as i64 - base.year as i64;
    let years: i64 = if year_steps > 0 && is_earlier_in_year(time, base) {
        year_steps - 1
    } else if year_steps < 0 && is_earlier_in_year(base, time) {
        year_steps + 1
    } else {
        year_steps
    };
    if years != 0 {
        return signed_count_string(years, "year");
    }
    let month_steps: i64 = 12 * year_steps + (time.month as i64 - base.month as i64);
    let months: i64 = if month_steps > 0 && is_earlier_in_month(time, base) {
        month_steps - 1
    } else if month_steps < 0 && is_earlier_in_month(base, time) {
        month_steps + 1
    } else {
        month_steps
    };
    if months != 0 {
        return signed_count_string(months, "month");
    }
    let ahead: bool = time.timestamp >= base.timestamp;
    let seconds: u64 = if ahead {
        (time.timestamp as i128 - base.timestamp as i128) as u64
    } else {
        (base.timestamp as i128 - time.timestamp as i128) as u64
    };
    let ghost signed: int = elapsed(time, base);
    assert(ahead ==> signed == seconds);
    assert(!ahead ==> signed == -(seconds as int));
    if seconds / 604800 != 0 {
        return count_string(ahead, seconds / 604800, "week");
    }
    if seconds / 86400 != 0 {
        return count_string(ahead, seconds / 86400, "day");
    }
    if seconds / 3600 != 0 {
        return count_string(ahead, seconds / 3600, "hour");
    }
    if seconds / 60 != 0 {
        return count_string(ahead, seconds / 60, "minute");
    }
    if seconds != 0 {
        return count_string(ahead, seconds, "second");
    }
    String::from_str("now")
}

} // verus!
