use discord_message_parser::{parse_unicode, EmojiTable, MessagePart};

fn table(sequences: &[&str]) -> EmojiTable {
    EmojiTable::from_sequences(sequences.iter().map(|s| s.to_string()).collect())
}

#[test]
fn two_adjacent_emoji_have_nothing_between_them() {
    let emoji = table(&["👍", "🎉"]);
    assert_eq!(
        MessagePart::parse("👍🎉", &emoji),
        MessagePart::Nested(vec![MessagePart::UnicodeEmoji("👍"), MessagePart::UnicodeEmoji("🎉")])
    );
    assert_eq!(
        MessagePart::parse("👍👍", &emoji),
        MessagePart::Nested(vec![MessagePart::UnicodeEmoji("👍"), MessagePart::UnicodeEmoji("👍")])
    );
}

#[test]
fn emoji_between_text() {
    let emoji = table(&["👍", "🎉"]);
    assert_eq!(
        MessagePart::parse("well 👍 done🎉", &emoji),
        MessagePart::Nested(vec![
            MessagePart::PlainText("well "),
            MessagePart::UnicodeEmoji("👍"),
            MessagePart::PlainText(" done"),
            MessagePart::UnicodeEmoji("🎉"),
        ])
    );
}

#[test]
fn a_lone_emoji_is_not_nested() {
    let emoji = table(&["👍"]);
    assert_eq!(MessagePart::parse("👍", &emoji), MessagePart::UnicodeEmoji("👍"));
}

#[test]
fn emoji_around_tags() {
    let emoji = table(&["👍"]);
    assert_eq!(
        MessagePart::parse("👍<@1>👍", &emoji),
        MessagePart::Nested(vec![
            MessagePart::UnicodeEmoji("👍"),
            MessagePart::UserMention { user: 1, nickname_mention: false },
            MessagePart::UnicodeEmoji("👍"),
        ])
    );
}

#[test]
fn an_unreadable_tag_is_not_searched_for_emoji() {
    let emoji = table(&["👍"]);
    assert_eq!(MessagePart::parse("<👍>", &emoji), MessagePart::PlainText("<👍>"));
    assert_eq!(
        MessagePart::parse("👍<👍>", &emoji),
        MessagePart::Nested(vec![MessagePart::UnicodeEmoji("👍"), MessagePart::PlainText("<👍>")])
    );
}

#[test]
fn the_first_sequence_of_the_table_wins() {
    let short_first = table(&["👍", "👍🏽"]);
    assert_eq!(
        MessagePart::parse("👍🏽", &short_first),
        MessagePart::Nested(vec![MessagePart::UnicodeEmoji("👍"), MessagePart::PlainText("🏽")])
    );
    let long_first = table(&["👍🏽", "👍"]);
    assert_eq!(MessagePart::parse("👍🏽", &long_first), MessagePart::UnicodeEmoji("👍🏽"));
    assert_eq!(
        MessagePart::parse("👍🏽👍", &long_first),
        MessagePart::Nested(vec![MessagePart::UnicodeEmoji("👍🏽"), MessagePart::UnicodeEmoji("👍")])
    );
}

#[test]
fn sequences_of_several_code_points() {
    let flags = table(&["🇩🇪", "🇫🇷", "👨‍👩‍👧"]);
    assert_eq!(
        MessagePart::parse("🇫🇷🇩🇪 👨‍👩‍👧", &flags),
        MessagePart::Nested(vec![
            MessagePart::UnicodeEmoji("🇫🇷"),
            MessagePart::UnicodeEmoji("🇩🇪"),
            MessagePart::PlainText(" "),
            MessagePart::UnicodeEmoji("👨‍👩‍👧"),
        ])
    );
    // Half a flag is no flag.
    assert_eq!(MessagePart::parse("🇩", &flags), MessagePart::PlainText("🇩"));
}

#[test]
fn sequences_of_every_width() {
    let mixed = table(&["#", "©", "™", "😀"]);
    assert_eq!(
        MessagePart::parse("a#b©c™d😀", &mixed),
        MessagePart::Nested(vec![
            MessagePart::PlainText("a"),
            MessagePart::UnicodeEmoji("#"),
            MessagePart::PlainText("b"),
            MessagePart::UnicodeEmoji("©"),
            MessagePart::PlainText("c"),
            MessagePart::UnicodeEmoji("™"),
            MessagePart::PlainText("d"),
            MessagePart::UnicodeEmoji("😀"),
        ])
    );
}

#[test]
fn the_empty_sequence_matches_nowhere() {
    let odd = table(&["", "👍"]);
    assert_eq!(odd.len(), 2);
    assert_eq!(MessagePart::parse("ab", &odd), MessagePart::PlainText("ab"));
    assert_eq!(MessagePart::parse("👍", &odd), MessagePart::UnicodeEmoji("👍"));
    assert_eq!(odd.find_at("ab", 0), None);
}

#[test]
fn the_empty_table_finds_nothing() {
    let none = EmojiTable::new();
    assert_eq!(none.len(), 0);
    assert_eq!(MessagePart::parse("👍", &none), MessagePart::PlainText("👍"));
    assert_eq!(none.find_at("👍", 0), None);
}

#[test]
fn find_at_gives_the_length_in_bytes() {
    let emoji = table(&["👍🏽", "👍", "©"]);
    assert_eq!(emoji.find_at("x👍y", 1), Some(4));
    assert_eq!(emoji.find_at("x👍🏽y", 1), Some(8));
    assert_eq!(emoji.find_at("x👍y", 0), None);
    assert_eq!(emoji.find_at("x👍y", 2), None);
    assert_eq!(emoji.find_at("x👍y", 5), None);
    assert_eq!(emoji.find_at("x👍y", 6), None);
    assert_eq!(emoji.find_at("x👍y", 7), None);
    assert_eq!(emoji.find_at("©", 0), Some(2));
    assert_eq!(emoji.find_at("©", 1), None);
}

#[test]
fn parse_unicode_appends_to_what_is_there() {
    let emoji = table(&["👍"]);
    let mut parts = vec![MessagePart::ChannelMention(1)];
    parse_unicode(&emoji, &mut parts, "a👍");
    assert_eq!(
        parts,
        vec![
            MessagePart::ChannelMention(1),
            MessagePart::PlainText("a"),
            MessagePart::UnicodeEmoji("👍"),
        ]
    );
    parse_unicode(&emoji, &mut parts, "");
    assert_eq!(parts.len(), 3);
}

#[test]
fn many_sequences_with_one_leading_code_point() {
    let mut sequences = Vec::new();
    for tone in ["🏿", "🏾", "🏽", "🏼", "🏻"] {
        sequences.push(format!("👋{}", tone));
    }
    sequences.push("👋".to_string());
    let waves = EmojiTable::from_sequences(sequences);
    assert_eq!(MessagePart::parse("👋🏻", &waves), MessagePart::UnicodeEmoji("👋🏻"));
    assert_eq!(MessagePart::parse("👋", &waves), MessagePart::UnicodeEmoji("👋"));
    assert_eq!(
        MessagePart::parse("👋x", &waves),
        MessagePart::Nested(vec![MessagePart::UnicodeEmoji("👋"), MessagePart::PlainText("x")])
    );
}

#[test]
fn a_sorted_table_finds_the_longest_sequence() {
    let given = ["👍", "👋", "👍🏽", "🇩🇪", "👋🏻", "👍", "a", "ab", "abc", "b"];
    let emoji = EmojiTable::sorted(given.iter().map(|s| s.to_string()).collect());
    assert_eq!(emoji.len(), 9);
    assert_eq!(MessagePart::parse("👍🏽", &emoji), MessagePart::UnicodeEmoji("👍🏽"));
    assert_eq!(
        MessagePart::parse("👍🏻", &emoji),
        MessagePart::Nested(vec![MessagePart::UnicodeEmoji("👍"), MessagePart::PlainText("🏻")])
    );
    assert_eq!(emoji.find_at("abcd", 0), Some(3));
    assert_eq!(emoji.find_at("abd", 0), Some(2));
    assert_eq!(emoji.find_at("acb", 0), Some(1));
    assert_eq!(emoji.find_at("acb", 2), Some(1));
    assert_eq!(emoji.find_at("acb", 1), None);
}

#[test]
fn a_sorted_table_does_not_depend_on_the_order_given() {
    let one = EmojiTable::sorted(vec!["ab".to_string(), "a".to_string(), "abc".to_string()]);
    let other = EmojiTable::sorted(vec!["a".to_string(), "abc".to_string(), "ab".to_string()]);
    for text in ["a", "ab", "abc", "abcabca", "xaxabxabcx", ""] {
        assert_eq!(MessagePart::parse(text, &one), MessagePart::parse(text, &other));
    }
    assert_eq!(
        MessagePart::parse("abcaba", &one),
        MessagePart::Nested(vec![
            MessagePart::UnicodeEmoji("abc"),
            MessagePart::UnicodeEmoji("ab"),
            MessagePart::UnicodeEmoji("a"),
        ])
    );
}

#[test]
fn sort_descending_orders_as_strings_compare() {
    let mut expected: Vec<String> =
        ["", "b", "a", "ab", "é", "👍", "z", "a", "ab\u{0}", "👍🏽", "aa", "B"]
            .iter()
            .map(|s| s.to_string())
            .collect();
    let sorted = discord_message_parser::order::sort_descending(expected.clone());
    expected.sort();
    expected.dedup();
    expected.reverse();
    assert_eq!(sorted, expected);
}

#[test]
fn comes_before_is_the_order_of_byte_strings() {
    let samples: [&[u8]; 8] = [b"", b"a", b"ab", b"b", b"aa", b"\xff", b"a\x00", b"ba"];
    for a in samples {
        for b in samples {
            assert_eq!(discord_message_parser::order::comes_before(a, b), a < b, "{:?} {:?}", a, b);
        }
    }
}
