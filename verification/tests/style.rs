use discord_message_parser::civil::{MAX_TIMESTAMP, MIN_TIMESTAMP};
use discord_message_parser::{CivilTime, TimestampStyle, Weekday};
use std::str::FromStr;

fn afternoon() -> CivilTime {
    CivilTime {
        year: 2021,
        month: 4,
        day: 20,
        weekday: Weekday::Tuesday,
        second_of_day: 58830,
        timestamp: 1618935630,
    }
}

#[test]
fn every_style_of_one_afternoon() {
    let time = afternoon();
    let now = CivilTime::from_timestamp(1618935630 + 86400 * 70).unwrap();
    assert_eq!(TimestampStyle::ShortTime.fmt(time, now), "16:20");
    assert_eq!(TimestampStyle::LongTime.fmt(time, now), "16:20:30");
    assert_eq!(TimestampStyle::ShortDate.fmt(time, now), "2021-04-20");
    assert_eq!(TimestampStyle::LongDate.fmt(time, now), "2021-04-20");
    assert_eq!(TimestampStyle::ShortDateTime.fmt(time, now), "2021-04-20 16:20");
    assert_eq!(TimestampStyle::LongDateTime.fmt(time, now), "Tuesday, 2021-04-20 16:20");
    assert_eq!(TimestampStyle::RelativeTime.fmt(time, now), "2 months ago");
}

#[test]
fn single_digits_are_padded() {
    let time = CivilTime {
        year: 7,
        month: 3,
        day: 9,
        weekday: Weekday::Sunday,
        second_of_day: 3600 + 2 * 60 + 3,
        timestamp: 0,
    };
    assert_eq!(TimestampStyle::LongTime.fmt(time, time), "01:02:03");
    assert_eq!(TimestampStyle::ShortDate.fmt(time, time), "0007-03-09");
    assert_eq!(TimestampStyle::LongDateTime.fmt(time, time), "Sunday, 0007-03-09 01:02");
}

#[test]
fn years_outside_four_digits_carry_a_sign() {
    let mut time = afternoon();
    time.year = 10000;
    assert_eq!(TimestampStyle::ShortDate.fmt(time, time), "+10000-04-20");
    time.year = 9999;
    assert_eq!(TimestampStyle::ShortDate.fmt(time, time), "9999-04-20");
    time.year = 0;
    assert_eq!(TimestampStyle::ShortDate.fmt(time, time), "0000-04-20");
    time.year = -1;
    assert_eq!(TimestampStyle::ShortDate.fmt(time, time), "-0001-04-20");
    time.year = -12345;
    assert_eq!(TimestampStyle::ShortDate.fmt(time, time), "-12345-04-20");
    time.year = i32::MIN;
    assert_eq!(TimestampStyle::ShortDate.fmt(time, time), "-2147483648-04-20");
}

#[test]
fn every_weekday_has_its_name() {
    let names = [
        (Weekday::Monday, "Monday"),
        (Weekday::Tuesday, "Tuesday"),
        (Weekday::Wednesday, "Wednesday"),
        (Weekday::Thursday, "Thursday"),
        (Weekday::Friday, "Friday"),
        (Weekday::Saturday, "Saturday"),
        (Weekday::Sunday, "Sunday"),
    ];
    for (weekday, name) in names {
        let time = CivilTime { weekday, ..afternoon() };
        assert_eq!(
            TimestampStyle::LongDateTime.fmt(time, time),
            format!("{}, 2021-04-20 16:20", name)
        );
    }
}

fn chrono_pattern(style: TimestampStyle) -> &'static str {
    match style {
        TimestampStyle::ShortTime => "%H:%M",
        TimestampStyle::LongTime => "%H:%M:%S",
        TimestampStyle::ShortDate => "%Y-%m-%d",
        TimestampStyle::LongDate => "%Y-%m-%d",
        TimestampStyle::ShortDateTime => "%Y-%m-%d %H:%M",
        TimestampStyle::LongDateTime => "%A, %Y-%m-%d %H:%M",
        TimestampStyle::RelativeTime => unreachable!(),
    }
}

#[test]
fn the_fixed_styles_agree_with_chrono() {
    let styles = [
        TimestampStyle::ShortTime,
        TimestampStyle::LongTime,
        TimestampStyle::ShortDate,
        TimestampStyle::LongDate,
        TimestampStyle::ShortDateTime,
        TimestampStyle::LongDateTime,
    ];
    let instants = [
        0,
        -1,
        1,
        59,
        86399,
        86400,
        1618935630,
        951782400,
        4102444800,
        253402300799,
        253402300800,
        -62135596800,
        -62135596801,
        -62167219200,
        -62167219201,
        -377705116800,
        MIN_TIMESTAMP,
        MAX_TIMESTAMP,
    ];
    for instant in instants {
        let expected_time = chrono::DateTime::from_timestamp(instant, 0).unwrap();
        for style in styles {
            assert_eq!(
                style.fmt_utc(instant, 0),
                Some(expected_time.format(chrono_pattern(style)).to_string()),
                "style {:?} of instant {}",
                style,
                instant
            );
        }
    }
}

#[test]
fn fmt_utc_needs_instants_within_the_calendar() {
    assert_eq!(TimestampStyle::ShortTime.fmt_utc(MAX_TIMESTAMP + 1, 0), None);
    assert_eq!(TimestampStyle::ShortTime.fmt_utc(MIN_TIMESTAMP - 1, 0), None);
    assert_eq!(TimestampStyle::ShortTime.fmt_utc(0, i64::MAX), Some("00:00".to_string()));
    assert_eq!(TimestampStyle::RelativeTime.fmt_utc(0, i64::MAX), None);
    assert_eq!(TimestampStyle::RelativeTime.fmt_utc(i64::MIN, 0), None);
    assert_eq!(TimestampStyle::RelativeTime.fmt_utc(0, 0), Some("now".to_string()));
    assert_eq!(
        TimestampStyle::RelativeTime.fmt_utc(1618935630, 1618935630 - 45),
        Some("in 45 seconds".to_string())
    );
}

#[test]
fn wire_codes_and_styles() {
    let codes = [
        ("t", TimestampStyle::ShortTime),
        ("T", TimestampStyle::LongTime),
        ("d", TimestampStyle::ShortDate),
        ("D", TimestampStyle::LongDate),
        ("f", TimestampStyle::ShortDateTime),
        ("F", TimestampStyle::LongDateTime),
        ("R", TimestampStyle::RelativeTime),
    ];
    for (code, style) in codes {
        assert_eq!(TimestampStyle::from_wire(code), Ok(style));
        assert_eq!(TimestampStyle::from_str(code), Ok(style));
        assert_eq!(code.parse::<TimestampStyle>(), Ok(style));
        assert_eq!(style.code(), code.as_bytes()[0]);
        assert_eq!(TimestampStyle::from_code(style.code()), Some(style));
    }
}

#[test]
fn anything_else_is_an_invalid_style() {
    for code in ["", "x", "r", "tt", "t ", " t", "R\n", "é", "0"] {
        assert_eq!(TimestampStyle::from_wire(code), Err(()));
        assert_eq!(TimestampStyle::from_str(code), Err(()));
    }
    assert_eq!(TimestampStyle::from_code(b'x'), None);
}

#[test]
fn the_default_style_is_short_date_time() {
    assert_eq!(TimestampStyle::default(), TimestampStyle::ShortDateTime);
    let style: Option<TimestampStyle> = None;
    assert_eq!(style.unwrap_or_default().fmt(afternoon(), afternoon()), "2021-04-20 16:20");
}
