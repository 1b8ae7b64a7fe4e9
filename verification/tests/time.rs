use discord_message_parser::civil::{MAX_TIMESTAMP, MIN_TIMESTAMP};
use discord_message_parser::{timestamp_relative, CivilTime, MessagePart, TimestampStyle, Weekday};

fn at(year: i32, month: u32, day: u32, hour: u32, minute: u32, second: u32) -> CivilTime {
    let seconds = chrono::NaiveDate::from_ymd_opt(year, month, day)
        .unwrap()
        .and_hms_opt(hour, minute, second)
        .unwrap()
        .and_utc()
        .timestamp();
    CivilTime::from_timestamp(seconds).unwrap()
}

#[test]
fn an_hour_before_the_epoch_is_one_hour_ago() {
    let parsed = MessagePart::from("<t:-3600:R>");
    match parsed {
        MessagePart::Timestamp { instant, style: Some(style) } => {
            assert_eq!(instant, -3600);
            assert_eq!(style, TimestampStyle::RelativeTime);
            assert_eq!(style.fmt_utc(instant, 0), Some("1 hour ago".to_string()));
        }
        other => panic!("not a styled timestamp: {:?}", other),
    }
}

#[test]
fn civil_time_of_the_epoch() {
    assert_eq!(
        CivilTime::from_timestamp(0),
        Some(CivilTime {
            year: 1970,
            month: 1,
            day: 1,
            weekday: Weekday::Thursday,
            second_of_day: 0,
            timestamp: 0,
        })
    );
}

#[test]
fn civil_time_of_an_afternoon() {
    assert_eq!(
        CivilTime::from_timestamp(1618935630),
        Some(CivilTime {
            year: 2021,
            month: 4,
            day: 20,
            weekday: Weekday::Tuesday,
            second_of_day: 58830,
            timestamp: 1618935630,
        })
    );
}

#[test]
fn civil_time_before_the_epoch() {
    assert_eq!(
        CivilTime::from_timestamp(-1),
        Some(CivilTime {
            year: 1969,
            month: 12,
            day: 31,
            weekday: Weekday::Wednesday,
            second_of_day: 86399,
            timestamp: -1,
        })
    );
}

#[test]
fn every_weekday_is_told_apart() {
    let days = [
        Weekday::Thursday,
        Weekday::Friday,
        Weekday::Saturday,
        Weekday::Sunday,
        Weekday::Monday,
        Weekday::Tuesday,
        Weekday::Wednesday,
    ];
    for (offset, day) in days.iter().enumerate() {
        let time = CivilTime::from_timestamp(offset as i64 * 86400).unwrap();
        assert_eq!(time.weekday, *day);
        assert_eq!(time.day, 1 + offset as u32);
    }
}

#[test]
fn the_calendar_ends_where_chrono_ends() {
    let first = CivilTime::from_timestamp(MIN_TIMESTAMP).unwrap();
    assert_eq!((first.year, first.month, first.day, first.second_of_day), (-262143, 1, 1, 0));
    assert_eq!(CivilTime::from_timestamp(MIN_TIMESTAMP - 1), None);
    let last = CivilTime::from_timestamp(MAX_TIMESTAMP).unwrap();
    assert_eq!((last.year, last.month, last.day, last.second_of_day), (262142, 12, 31, 86399));
    assert_eq!(CivilTime::from_timestamp(MAX_TIMESTAMP + 1), None);
    assert_eq!(CivilTime::from_timestamp(i64::MIN), None);
    assert_eq!(CivilTime::from_timestamp(i64::MAX), None);
    assert_eq!(MIN_TIMESTAMP, chrono::DateTime::<chrono::Utc>::MIN_UTC.timestamp());
    assert_eq!(MAX_TIMESTAMP, chrono::DateTime::<chrono::Utc>::MAX_UTC.timestamp());
}

#[test]
fn relative_years() {
    let base = at(2020, 6, 15, 12, 0, 0);
    assert_eq!(timestamp_relative(at(2023, 6, 15, 12, 0, 0), base), "in 3 years");
    assert_eq!(timestamp_relative(at(2023, 6, 15, 11, 59, 59), base), "in 2 years");
    assert_eq!(timestamp_relative(at(2022, 6, 14, 12, 0, 0), base), "in 1 year");
    assert_eq!(timestamp_relative(at(2021, 6, 15, 12, 0, 0), base), "in 1 year");
    assert_eq!(timestamp_relative(at(2019, 6, 15, 12, 0, 0), base), "1 year ago");
    assert_eq!(timestamp_relative(at(2018, 6, 15, 12, 0, 1), base), "1 year ago");
    assert_eq!(timestamp_relative(at(2018, 6, 15, 12, 0, 0), base), "2 years ago");
    assert_eq!(timestamp_relative(at(1920, 1, 1, 0, 0, 0), base), "100 years ago");
}

#[test]
fn relative_months() {
    let base = at(2020, 6, 15, 12, 0, 0);
    assert_eq!(timestamp_relative(at(2020, 8, 15, 12, 0, 0), base), "in 2 months");
    assert_eq!(timestamp_relative(at(2020, 8, 15, 11, 0, 0), base), "in 1 month");
    assert_eq!(timestamp_relative(at(2020, 7, 15, 12, 0, 0), base), "in 1 month");
    assert_eq!(timestamp_relative(at(2020, 5, 15, 12, 0, 0), base), "1 month ago");
    assert_eq!(timestamp_relative(at(2020, 4, 15, 12, 0, 1), base), "1 month ago");
    assert_eq!(timestamp_relative(at(2020, 4, 15, 12, 0, 0), base), "2 months ago");
    assert_eq!(timestamp_relative(at(2021, 6, 15, 11, 59, 59), base), "in 11 months");
    assert_eq!(timestamp_relative(at(2019, 6, 15, 12, 0, 1), base), "11 months ago");
}

#[test]
fn months_across_the_turn_of_a_year() {
    let december = at(2020, 12, 20, 0, 0, 0);
    assert_eq!(timestamp_relative(at(2021, 1, 15, 0, 0, 0), december), "in 3 weeks");
    assert_eq!(timestamp_relative(at(2021, 1, 20, 0, 0, 0), december), "in 1 month");
    assert_eq!(timestamp_relative(at(2021, 1, 25, 0, 0, 0), december), "in 1 month");
    assert_eq!(timestamp_relative(at(2021, 2, 20, 0, 0, 0), december), "in 2 months");
    let january = at(2021, 1, 15, 0, 0, 0);
    assert_eq!(timestamp_relative(december, january), "3 weeks ago");
    assert_eq!(timestamp_relative(at(2020, 12, 15, 0, 0, 0), january), "1 month ago");
    assert_eq!(timestamp_relative(at(2020, 11, 16, 0, 0, 0), january), "1 month ago");
    assert_eq!(timestamp_relative(at(2020, 11, 15, 0, 0, 0), january), "2 months ago");
}

#[test]
fn relative_weeks_and_days() {
    let base = at(2020, 6, 15, 12, 0, 0);
    assert_eq!(timestamp_relative(at(2020, 6, 29, 12, 0, 0), base), "in 2 weeks");
    assert_eq!(timestamp_relative(at(2020, 6, 29, 11, 59, 59), base), "in 1 week");
    assert_eq!(timestamp_relative(at(2020, 6, 22, 12, 0, 0), base), "in 1 week");
    assert_eq!(timestamp_relative(at(2020, 6, 22, 11, 59, 59), base), "in 6 days");
    assert_eq!(timestamp_relative(at(2020, 6, 16, 12, 0, 0), base), "in 1 day");
    assert_eq!(timestamp_relative(at(2020, 6, 8, 12, 0, 0), base), "1 week ago");
    assert_eq!(timestamp_relative(at(2020, 6, 1, 12, 0, 0), base), "2 weeks ago");
    assert_eq!(timestamp_relative(at(2020, 6, 13, 12, 0, 0), base), "2 days ago");
    assert_eq!(timestamp_relative(at(2020, 6, 14, 12, 0, 0), base), "1 day ago");
    assert_eq!(timestamp_relative(at(2020, 6, 14, 12, 0, 1), base), "23 hours ago");
}

#[test]
fn relative_hours_minutes_seconds() {
    let base = at(2020, 6, 15, 12, 0, 0);
    assert_eq!(timestamp_relative(at(2020, 6, 15, 14, 0, 0), base), "in 2 hours");
    assert_eq!(timestamp_relative(at(2020, 6, 15, 13, 59, 59), base), "in 1 hour");
    assert_eq!(timestamp_relative(at(2020, 6, 15, 12, 59, 59), base), "in 59 minutes");
    assert_eq!(timestamp_relative(at(2020, 6, 15, 12, 1, 0), base), "in 1 minute");
    assert_eq!(timestamp_relative(at(2020, 6, 15, 12, 0, 59), base), "in 59 seconds");
    assert_eq!(timestamp_relative(at(2020, 6, 15, 12, 0, 1), base), "in 1 second");
    assert_eq!(timestamp_relative(base, base), "now");
    assert_eq!(timestamp_relative(at(2020, 6, 15, 11, 59, 59), base), "1 second ago");
    assert_eq!(timestamp_relative(at(2020, 6, 15, 11, 59, 58), base), "2 seconds ago");
    assert_eq!(timestamp_relative(at(2020, 6, 15, 11, 59, 0), base), "1 minute ago");
    assert_eq!(timestamp_relative(at(2020, 6, 15, 11, 58, 0), base), "2 minutes ago");
    assert_eq!(timestamp_relative(at(2020, 6, 15, 11, 0, 0), base), "1 hour ago");
    assert_eq!(timestamp_relative(at(2020, 6, 15, 9, 0, 0), base), "3 hours ago");
}

#[test]
fn relative_time_of_hand_written_fields() {
    let base = CivilTime {
        year: 1970,
        month: 1,
        day: 1,
        weekday: Weekday::Thursday,
        second_of_day: 0,
        timestamp: 0,
    };
    let time = CivilTime {
        year: 1969,
        month: 12,
        day: 31,
        weekday: Weekday::Wednesday,
        second_of_day: 82800,
        timestamp: -3600,
    };
    assert_eq!(timestamp_relative(time, base), "1 hour ago");
    assert_eq!(timestamp_relative(base, time), "in 1 hour");
}

#[test]
fn relative_time_at_the_ends_of_the_calendar() {
    let first = CivilTime::from_timestamp(MIN_TIMESTAMP).unwrap();
    let last = CivilTime::from_timestamp(MAX_TIMESTAMP).unwrap();
    assert_eq!(timestamp_relative(last, first), "in 524285 years");
    assert_eq!(timestamp_relative(first, last), "524285 years ago");
}

#[test]
fn relative_seconds_of_the_farthest_instants() {
    let early = CivilTime {
        year: 2000,
        month: 1,
        day: 1,
        weekday: Weekday::Saturday,
        second_of_day: 0,
        timestamp: i64::MIN,
    };
    let late = CivilTime { timestamp: i64::MAX, ..early };
    assert_eq!(timestamp_relative(late, early), "in 30500568904943 weeks");
    assert_eq!(timestamp_relative(early, late), "30500568904943 weeks ago");
}
