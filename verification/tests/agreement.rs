use discord_message_parser::scan::find_tag;
use discord_message_parser::tag::classify_tag;
use discord_message_parser::{MessagePart, TimestampStyle};
use regex::Regex;
use serenity::model::id::{ChannelId, RoleId, UserId};
use serenity::utils::{
    parse_channel_mention, parse_emoji, parse_role_mention, parse_user_mention,
};

fn strings_over(alphabet: &[&str], max_len: usize) -> Vec<String> {
    let mut all = vec![String::new()];
    let mut last = vec![String::new()];
    for _ in 0..max_len {
        let mut next = Vec::new();
        for prefix in &last {
            for letter in alphabet {
                next.push(format!("{}{}", prefix, letter));
            }
        }
        all.extend(next.iter().cloned());
        last = next;
    }
    all
}

fn tags_of(text: &str) -> Vec<(usize, usize)> {
    let mut tags = Vec::new();
    let mut from = 0;
    while let Some((start, end)) = find_tag(text.as_bytes(), from) {
        tags.push((start, end));
        from = end;
    }
    tags
}

#[test]
fn the_scanner_agrees_with_the_pattern_of_a_tag() {
    let pattern = Regex::new("<[^>]+>").unwrap();
    let texts = strings_over(&["<", ">", "a", "\n", "é"], 6);
    assert_eq!(texts.len(), 19531);
    for text in &texts {
        let expected: Vec<(usize, usize)> =
            pattern.find_iter(text).map(|tag| (tag.start(), tag.end())).collect();
        assert_eq!(tags_of(text), expected, "{:?}", text);
    }
}

#[test]
fn the_scanner_restarts_anywhere() {
    let pattern = Regex::new("<[^>]+>").unwrap();
    for text in strings_over(&["<", ">", "a"], 7) {
        for from in 0..=text.len() + 1 {
            let expected = if from <= text.len() {
                pattern.find_at(&text, from).map(|tag| (tag.start(), tag.end()))
            } else {
                None
            };
            assert_eq!(find_tag(text.as_bytes(), from), expected, "{:?} from {}", text, from);
        }
    }
}

#[test]
fn timestamp_tags_agree_with_their_patterns() {
    let unstyled = Regex::new("^<t:(-?[0-9]+)>$").unwrap();
    let styled = Regex::new("^<t:(-?[0-9]+):(.)>$").unwrap();
    for body in strings_over(&["-", "0", "7", ":", "R", "f", "x", "é"], 5) {
        let tag = format!("<t:{}>", body);
        let expected = if let Some(found) = unstyled.captures(&tag) {
            found[1].parse().ok().map(|instant| MessagePart::Timestamp { instant, style: None })
        } else if let Some(found) = styled.captures(&tag) {
            match (found[1].parse(), found[2].parse::<TimestampStyle>()) {
                (Ok(instant), Ok(style)) => {
                    Some(MessagePart::Timestamp { instant, style: Some(style) })
                }
                _ => None,
            }
        } else {
            None
        };
        assert_eq!(classify_tag(&tag), expected, "{:?}", tag);
    }
}

#[test]
fn long_numbers_of_seconds_agree_with_their_pattern() {
    let unstyled = Regex::new("^<t:(-?[0-9]+)>$").unwrap();
    let numbers = [
        "9223372036854775806",
        "9223372036854775807",
        "9223372036854775808",
        "-9223372036854775807",
        "-9223372036854775808",
        "-9223372036854775809",
        "00000000000000000000000000000000000001",
        "-00000000000000000000000000000000000001",
        "99999999999999999999999999999999999999",
        "18446744073709551616",
        "-18446744073709551616",
    ];
    for number in numbers {
        let tag = format!("<t:{}>", number);
        let expected = unstyled.captures(&tag).and_then(|found| found[1].parse::<i64>().ok());
        let got = match classify_tag(&tag) {
            Some(MessagePart::Timestamp { instant, style: None }) => Some(instant),
            None => None,
            other => panic!("{:?} read as {:?}", tag, other),
        };
        assert_eq!(got, expected, "{:?}", tag);
    }
}

const IDS: [u64; 9] = [
    1,
    7,
    42,
    1234567890,
    81384788765712384,
    9223372036854775807,
    9223372036854775808,
    18446744073709551614,
    18446744073709551615,
];

#[test]
fn mentions_agree_with_serenity() {
    for id in IDS {
        let user = format!("<@{}>", id);
        assert_eq!(parse_user_mention(&user).map(UserId::get), Some(id));
        assert_eq!(
            classify_tag(&user),
            Some(MessagePart::UserMention { user: id, nickname_mention: false })
        );
        let nickname = format!("<@!{}>", id);
        assert_eq!(parse_user_mention(&nickname).map(UserId::get), Some(id));
        assert_eq!(
            classify_tag(&nickname),
            Some(MessagePart::UserMention { user: id, nickname_mention: true })
        );
        let channel = format!("<#{}>", id);
        assert_eq!(parse_channel_mention(&channel).map(ChannelId::get), Some(id));
        assert_eq!(classify_tag(&channel), Some(MessagePart::ChannelMention(id)));
        let role = format!("<@&{}>", id);
        assert_eq!(parse_role_mention(&role).map(RoleId::get), Some(id));
        assert_eq!(classify_tag(&role), Some(MessagePart::RoleMention(id)));
    }
}

#[test]
fn custom_emoji_agree_with_serenity() {
    for id in IDS {
        for name in ["ab", "blob_wave", "A1", "a_longer_name_of_an_emoji"] {
            for animated in [false, true] {
                let tag = format!("<{}:{}:{}>", if animated { "a" } else { "" }, name, id);
                assert!(tag.len() <= 56);
                let theirs = parse_emoji(&tag).unwrap();
                assert_eq!(
                    (theirs.animated, theirs.name.as_str(), theirs.id.get()),
                    (animated, name, id)
                );
                assert_eq!(
                    classify_tag(&tag),
                    Some(MessagePart::CustomEmoji { name, id, animated })
                );
            }
        }
    }
}

#[test]
fn numbers_beyond_64_bits_are_refused_as_by_serenity() {
    for digits in ["18446744073709551616", "99999999999999999999", "184467440737095516150"] {
        for tag in [
            format!("<@{}>", digits),
            format!("<@!{}>", digits),
            format!("<#{}>", digits),
            format!("<@&{}>", digits),
            format!("<:name:{}>", digits),
        ] {
            assert!(parse_user_mention(&tag).is_none());
            assert!(parse_channel_mention(&tag).is_none());
            assert!(parse_role_mention(&tag).is_none());
            assert!(parse_emoji(&tag).is_none());
            assert_eq!(classify_tag(&tag), None);
        }
    }
}
