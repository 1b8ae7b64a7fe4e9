use discord_message_parser::twemoji::{sequence_of_file_name, table_of_file_names};
use discord_message_parser::MessagePart;

#[test]
fn file_names_name_their_code_points() {
    assert_eq!(sequence_of_file_name("1f600.svg"), Some("😀".to_string()));
    assert_eq!(sequence_of_file_name("a9.svg"), Some("©".to_string()));
    assert_eq!(sequence_of_file_name("23-20e3.svg"), Some("#\u{20e3}".to_string()));
    assert_eq!(
        sequence_of_file_name("1f468-200d-1f469-200d-1f467.svg"),
        Some("👨‍👩‍👧".to_string())
    );
    assert_eq!(sequence_of_file_name("0.svg"), Some("\0".to_string()));
    assert_eq!(sequence_of_file_name("00004a.svg"), Some("J".to_string()));
    assert_eq!(sequence_of_file_name("10ffff.svg"), Some("\u{10ffff}".to_string()));
    assert_eq!(sequence_of_file_name("d7ff-e000.svg"), Some("\u{d7ff}\u{e000}".to_string()));
}

#[test]
fn other_names_are_refused() {
    let refused = [
        "",
        ".svg",
        "svg",
        "1f600",
        "1f600.png",
        "1f600.svg ",
        "1f600.svg\n",
        " 1f600.svg",
        "1F600.svg",
        "1f600.SVG",
        "-.svg",
        "-1f600.svg",
        "1f600-.svg",
        "1f600--1f3fb.svg",
        "1f600_1f3fb.svg",
        "0000041.svg",
        "1234567.svg",
        "110000.svg",
        "ffffff.svg",
        "d800.svg",
        "dfff.svg",
        "1f600-d800.svg",
        "g.svg",
        "é.svg",
        "1f600.svg.svg",
    ];
    for name in refused {
        assert_eq!(sequence_of_file_name(name), None, "{:?}", name);
    }
}

#[test]
fn a_table_from_file_names_finds_the_longest_emoji() {
    let names: Vec<String> = ["1f44d.svg", "1f44d-1f3fd.svg", "1f389.svg", "1f44d.svg"]
        .iter()
        .map(|name| name.to_string())
        .collect();
    let table = table_of_file_names(&names).unwrap();
    assert_eq!(table.len(), 3);
    assert_eq!(
        MessagePart::parse("👍🏽👍🎉!", &table),
        MessagePart::Nested(vec![
            MessagePart::UnicodeEmoji("👍🏽"),
            MessagePart::UnicodeEmoji("👍"),
            MessagePart::UnicodeEmoji("🎉"),
            MessagePart::PlainText("!"),
        ])
    );
}

#[test]
fn one_bad_file_name_spoils_the_table() {
    let names = vec!["1f44d.svg".to_string(), "readme.md".to_string()];
    assert!(table_of_file_names(&names).is_none());
    assert_eq!(table_of_file_names(&Vec::new()).unwrap().len(), 0);
}
