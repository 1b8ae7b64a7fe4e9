//! The tag classifier: reads one `<...>` span as a mention, a custom emoji
//! or a timestamp.
//!
//! | Tag form | Meaning |
//! |---|---|
//! | `<@ID>` | user mention |
//! | `<@!ID>` | user mention, nickname form |
//! | `<#ID>` | channel mention |
//! | `<@&ID>` | role mention |
//! | `<:NAME:ID>` | static custom emoji |
//! | `<a:NAME:ID>` | animated custom emoji |
//! | `<t:SECONDS>` | timestamp, default style |
//! | `<t:SECONDS:STYLE>` | timestamp, `STYLE` one of `t T d D f F R` |
//!
//! `ID` is one or more decimal digits, `SECONDS` the same with an optional
//! `-` in front, `NAME` one or more bytes other than `:`. A number that does
//! not fit its 64 bits makes the tag unreadable; so does anything else that
//! departs from the table. An unreadable tag is plain text.

use vstd::prelude::*;
use vstd::slice::slice_subrange;
use vstd::string::*;
use crate::decimal::{is_digit, parse_id, parse_seconds, read_id, read_seconds};
use crate::part::{MessagePart, PartView};
use crate::style::{style_of_code, TimestampStyle};
use crate::text::{
    find_byte, index_of, lemma_ascii_boundaries, lemma_index_of, lemma_str_is_utf8, slice_str, AMP,
    AT, BANG, COLON, GT, HASH, LOWER_A, LOWER_T, LT, MINUS,
};

verus! {

/// The span starts with `<` and ends with `>`.
pub open spec fn bracketed(tag: Seq<u8>) -> bool {
    tag.len() >= 2 && tag[0] == LT && tag[tag.len() - 1] == GT
}

/// The bytes of a tag from position `from` up to its closing bracket.
pub open spec fn body(tag: Seq<u8>, from: int) -> Seq<u8> {
    tag.subrange(from, tag.len() - 1)
}

/// `<@!ID>` or `<@ID>`.
pub open spec fn user_mention(tag: Seq<u8>) -> Option<PartView> {
    if tag.len() >= 4 && bracketed(tag) && tag[1] == AT && tag[2] == BANG {
        match parse_id(body(tag, 3)) {
            Some(user) => Some(PartView::UserMention { user, nickname_mention: true }),
            None => None,
        }
    } else if tag.len() >= 3 && bracketed(tag) && tag[1] == AT {
        match parse_id(body(tag, 2)) {
            Some(user) => Some(PartView::UserMention { user, nickname_mention: false }),
            None => None,
        }
    } else {
        None
    }
}

/// `<#ID>`.
pub open spec fn channel_mention(tag: Seq<u8>) -> Option<PartView> {
    if tag.len() >= 3 && bracketed(tag) && tag[1] == HASH {
        match parse_id(body(tag, 2)) {
            Some(channel) => Some(PartView::ChannelMention(channel)),
            None => None,
        }
    } else {
        None
    }
}

/// `<@&ID>`.
pub open spec fn role_mention(tag: Seq<u8>) -> Option<PartView> {
    if tag.len() >= 4 && bracketed(tag) && tag[1] == AT && tag[2] == AMP {
        match parse_id(body(tag, 3)) {
            Some(role) => Some(PartView::RoleMention(role)),
            None => None,
        }
    } else {
        None
    }
}

/// `NAME:ID>` from position `from` of the tag on.
pub open spec fn emoji_fields(tag: Seq<u8>, from: int, animated: bool) -> Option<PartView> {
    let colon = index_of(tag, COLON, from);
    if from < colon < tag.len() - 1 {
        match parse_id(body(tag, colon + 1)) {
            Some(id) => Some(PartView::CustomEmoji { name: tag.subrange(from, colon), id, animated }),
            None => None,
        }
    } else {
        None
    }
}

/// `<:NAME:ID>` or `<a:NAME:ID>`.
pub open spec fn custom_emoji(tag: Seq<u8>) -> Option<PartView> {
    if tag.len() >= 3 && bracketed(tag) && tag[1] == COLON {
        emoji_fields(tag, 2, false)
    } else if tag.len() >= 4 && bracketed(tag) && tag[1] == LOWER_A && tag[2] == COLON {
        emoji_fields(tag, 3, true)
    } else {
        None
    }
}

/// The span starts with `<t:` and ends with `>`.
pub open spec fn timestamp_bracketed(tag: Seq<u8>) -> bool {
    tag.len() >= 4 && bracketed(tag) && tag[1] == LOWER_T && tag[2] == COLON
}

/// `<t:SECONDS>`.
pub open spec fn plain_timestamp(tag: Seq<u8>) -> Option<PartView> {
    if timestamp_bracketed(tag) {
        match parse_seconds(body(tag, 3)) {
            Some(instant) => Some(PartView::Timestamp { instant, style: None }),
            None => None,
        }
    } else {
        None
    }
}

/// `<t:SECONDS:STYLE>`.
pub open spec fn styled_timestamp(tag: Seq<u8>) -> Option<PartView> {
    if tag.len() >= 6 && timestamp_bracketed(tag) && tag[tag.len() - 3] == COLON {
        match (parse_seconds(tag.subrange(3, tag.len() - 3)), style_of_code(tag[tag.len() - 2])) {
            (Some(instant), Some(style)) => Some(
                PartView::Timestamp { instant, style: Some(style) },
            ),
            _ => None,
        }
    } else {
        None
    }
}

/// What each of the six rules makes of a tag, in the order of their
/// priority.
pub open spec fn rules(tag: Seq<u8>) -> Seq<Option<PartView>> {
    seq![
        user_mention(tag),
        channel_mention(tag),
        role_mention(tag),
        custom_emoji(tag),
        plain_timestamp(tag),
        styled_timestamp(tag),
    ]
}

/// The reading of a tag: that of the first rule that accepts it.
pub open spec fn classify(tag: Seq<u8>) -> Option<PartView> {
    if user_mention(tag) is Some {
        user_mention(tag)
    } else if channel_mention(tag) is Some {
        channel_mention(tag)
    } else if role_mention(tag) is Some {
        role_mention(tag)
    } else if custom_emoji(tag) is Some {
        custom_emoji(tag)
    } else if plain_timestamp(tag) is Some {
        plain_timestamp(tag)
    } else {
        styled_timestamp(tag)
    }
}

/// A tag that several rules accept is read by the one that comes first:
/// `classify` answers with rule `i` whenever rule `i` accepts the tag and no
/// rule before it does.
pub proof fn law_priority(tag: Seq<u8>, i: int)
    requires
        0 <= i < rules(tag).len(),
        rules(tag)[i] is Some,
        forall|j: int| 0 <= j < i ==> rules(tag)[j] is None,
    ensures
        classify(tag) == rules(tag)[i],
{
    let r: Seq<Option<PartView>> = rules(tag);
    assert(r[0] == user_mention(tag));
    assert(r[1] == channel_mention(tag));
    assert(r[2] == role_mention(tag));
    assert(r[3] == custom_emoji(tag));
    assert(r[4] == plain_timestamp(tag));
    assert(r[5] == styled_timestamp(tag));
}

/// A tag is unreadable exactly when all six rules reject it.
pub proof fn law_unreadable(tag: Seq<u8>)
    ensures
        classify(tag) is None <==> forall|i: int| 0 <= i < rules(tag).len() ==> rules(tag)[i] is None,
        classify(tag) matches Some(part) ==> part.is_single(),
{
    let r: Seq<Option<PartView>> = rules(tag);
    assert(r[0] == user_mention(tag));
    assert(r[1] == channel_mention(tag));
    assert(r[2] == role_mention(tag));
    assert(r[3] == custom_emoji(tag));
    assert(r[4] == plain_timestamp(tag));
    assert(r[5] == styled_timestamp(tag));
}

/// The six forms keep out of each other's way: no tag is accepted by two
/// rules.
pub proof fn law_one_rule(tag: Seq<u8>, i: int, j: int)
    requires
        0 <= i < rules(tag).len(),
        0 <= j < rules(tag).len(),
        rules(tag)[i] is Some,
        rules(tag)[j] is Some,
    ensures
        i == j,
{
    let n: int = tag.len() as int;
    if user_mention(tag) is Some && !(n >= 4 && tag[2] == BANG) {
        assert(is_digit(body(tag, 2)[0]));
    }
    if plain_timestamp(tag) is Some && styled_timestamp(tag) is Some {
        let field: Seq<u8> = body(tag, 3);
        assert(field[n - 6] == COLON);
        if field[0] == MINUS {
            assert(n - 6 > 0);
            assert(is_digit(field.subrange(1, field.len() as int)[n - 7]));
        } else {
            assert(is_digit(field[n - 6]));
        }
    }
}

/// `<@ID>` is read as a mention of the user `ID`.
pub proof fn law_user_mention_form(id: Seq<u8>)
    requires
        parse_id(id) is Some,
    ensures
        classify(seq![LT, AT] + id + seq![GT]) == Some(
            PartView::UserMention { user: parse_id(id).unwrap(), nickname_mention: false },
        ),
{
    let tag: Seq<u8> = seq![LT, AT] + id + seq![GT];
    assert(is_digit(id[0]));
    assert(body(tag, 2) =~= id);
}

/// `<@!ID>` is read as a nickname mention of the user `ID`.
pub proof fn law_nickname_mention_form(id: Seq<u8>)
    requires
        parse_id(id) is Some,
    ensures
        classify(seq![LT, AT, BANG] + id + seq![GT]) == Some(
            PartView::UserMention { user: parse_id(id).unwrap(), nickname_mention: true },
        ),
{
    let tag: Seq<u8> = seq![LT, AT, BANG] + id + seq![GT];
    assert(body(tag, 3) =~= id);
}

/// `<#ID>` is read as a mention of the channel `ID`.
pub proof fn law_channel_mention_form(id: Seq<u8>)
    requires
        parse_id(id) is Some,
    ensures
        classify(seq![LT, HASH] + id + seq![GT]) == Some(
            PartView::ChannelMention(parse_id(id).unwrap()),
        ),
{
    let tag: Seq<u8> = seq![LT, HASH] + id + seq![GT];
    assert(body(tag, 2) =~= id);
    assert(channel_mention(tag) is Some);
    assert(user_mention(tag) is None);
}

/// `<@&ID>` is read as a mention of the role `ID`.
pub proof fn law_role_mention_form(id: Seq<u8>)
    requires
        parse_id(id) is Some,
    ensures
        classify(seq![LT, AT, AMP] + id + seq![GT]) == Some(
            PartView::RoleMention(parse_id(id).unwrap()),
        ),
{
    let tag: Seq<u8> = seq![LT, AT, AMP] + id + seq![GT];
    assert(body(tag, 3) =~= id);
    assert(role_mention(tag) is Some);
    assert(body(tag, 2)[0] == AMP);
    assert(user_mention(tag) is None);
    assert(channel_mention(tag) is None);
}

/// `<:NAME:ID>` is read as the custom emoji `ID` under the name `NAME`.
pub proof fn law_custom_emoji_form(name: Seq<u8>, id: Seq<u8>)
    requires
        name.len() > 0,
        !name.contains(COLON),
        parse_id(id) is Some,
    ensures
        classify(seq![LT, COLON] + name + seq![COLON] + id + seq![GT]) == Some(
            PartView::CustomEmoji { name, id: parse_id(id).unwrap(), animated: false },
        ),
{
    let tag: Seq<u8> = seq![LT, COLON] + name + seq![COLON] + id + seq![GT];
    let colon: int = 2 + name.len() as int;
    assert(tag.subrange(2, colon) =~= name);
    assert(tag.subrange(colon + 1, tag.len() - 1) =~= id);
    lemma_emoji_fields(tag, 2, name, id, false);
    assert(custom_emoji(tag) == emoji_fields(tag, 2, false));
    assert(user_mention(tag) is None);
    assert(channel_mention(tag) is None);
    assert(role_mention(tag) is None);
}

/// `<a:NAME:ID>` is read as the animated custom emoji `ID` under the name
/// `NAME`.
pub proof fn law_animated_emoji_form(name: Seq<u8>, id: Seq<u8>)
    requires
        name.len() > 0,
        !name.contains(COLON),
        parse_id(id) is Some,
    ensures
        classify(seq![LT, LOWER_A, COLON] + name + seq![COLON] + id + seq![GT]) == Some(
            PartView::CustomEmoji { name, id: parse_id(id).unwrap(), animated: true },
        ),
{
    let tag: Seq<u8> = seq![LT, LOWER_A, COLON] + name + seq![COLON] + id + seq![GT];
    let colon: int = 3 + name.len() as int;
    assert(tag.subrange(3, colon) =~= name);
    assert(tag.subrange(colon + 1, tag.len() - 1) =~= id);
    lemma_emoji_fields(tag, 3, name, id, true);
    assert(custom_emoji(tag) == emoji_fields(tag, 3, true));
    assert(user_mention(tag) is None);
    assert(channel_mention(tag) is None);
    assert(role_mention(tag) is None);
}

/// `<t:SECONDS>` is read as the instant `SECONDS`, without a style.
pub proof fn law_timestamp_form(seconds: Seq<u8>)
    requires
        parse_seconds(seconds) is Some,
    ensures
        classify(seq![LT, LOWER_T, COLON] + seconds + seq![GT]) == Some(
            PartView::Timestamp { instant: parse_seconds(seconds).unwrap(), style: None },
        ),
{
    let tag: Seq<u8> = seq![LT, LOWER_T, COLON] + seconds + seq![GT];
    assert(body(tag, 3) =~= seconds);
    assert(plain_timestamp(tag) is Some);
    assert(user_mention(tag) is None);
    assert(channel_mention(tag) is None);
    assert(role_mention(tag) is None);
    assert(custom_emoji(tag) is None);
}

/// `<t:SECONDS:STYLE>` is read as the instant `SECONDS` in the style of the
/// code `STYLE`.
pub proof fn law_styled_timestamp_form(seconds: Seq<u8>, style: TimestampStyle)
    requires
        parse_seconds(seconds) is Some,
    ensures
        classify(seq![LT, LOWER_T, COLON] + seconds + seq![COLON, style.spec_code(), GT]) == Some(
            PartView::Timestamp { instant: parse_seconds(seconds).unwrap(), style: Some(style) },
        ),
{
    let tag: Seq<u8> = seq![LT, LOWER_T, COLON] + seconds + seq![COLON, style.spec_code(), GT];
    let n: int = tag.len() as int;
    assert(tag.subrange(3, n - 3) =~= seconds);
    assert(tag[n - 3] == COLON);
    assert(tag[n - 2] == style.spec_code());
    assert(style_of_code(style.spec_code()) == Some(style));
    assert(styled_timestamp(tag) is Some);
    assert(user_mention(tag) is None);
    assert(channel_mention(tag) is None);
    assert(role_mention(tag) is None);
    assert(custom_emoji(tag) is None);
    if plain_timestamp(tag) is Some {
        assert(rules(tag)[4] == plain_timestamp(tag));
        assert(rules(tag)[5] == styled_timestamp(tag));
        law_one_rule(tag, 4, 5);
    }
}

/// The fields of a custom emoji are found again in the tag that was put
/// together from them.
proof fn lemma_emoji_fields(tag: Seq<u8>, from: int, name: Seq<u8>, id: Seq<u8>, animated: bool)
    requires
        from >= 1,
        tag.len() == from + name.len() + 1 + id.len() + 1,
        tag.subrange(from, from + name.len()) == name,
        tag[from + name.len()] == COLON,
        tag.subrange(from + name.len() + 1, tag.len() - 1) == id,
        name.len() > 0,
        !name.contains(COLON),
        parse_id(id) is Some,
    ensures
        emoji_fields(tag, from, animated) == Some(
            PartView::CustomEmoji { name, id: parse_id(id).unwrap(), animated },
        ),
{
    let colon: int = from + name.len();
    lemma_index_of(tag, COLON, from);
    let found: int = index_of(tag, COLON, from);
    if found < colon {
        assert(name[found - from] == tag[found]);
        assert(name.contains(COLON));
    }
    assert(found == colon);
    assert(body(tag, colon + 1) =~= id);
}

fn read_user_mention<'a>(tag: &'a str) -> (r: Option<MessagePart<'a>>)
    ensures
        r matches Some(part) ==> user_mention(tag.spec_bytes()) == Some(part@),
        r is None ==> user_mention(tag.spec_bytes()) is None,
{
    let bytes: &[u8] = tag.as_bytes();
    let n: usize = bytes.len();
    if n >= 4 && bytes[0] == LT && bytes[n - 1] == GT && bytes[1] == AT && bytes[2] == BANG {
        match read_id(slice_subrange(bytes, 3, n - 1)) {
            Some(user) => Some(MessagePart::UserMention { user, nickname_mention: true }),
            None => None,
        }
    } else if n >= 3 && bytes[0] == LT && bytes[n - 1] == GT && bytes[1] == AT {
        match read_id(slice_subrange(bytes, 2, n - 1)) {
            Some(user) => Some(MessagePart::UserMention { user, nickname_mention: false }),
            None => None,
        }
    } else {
        None
    }
}

fn read_channel_mention<'a>(tag: &'a str) -> (r: Option<MessagePart<'a>>)
    ensures
        r matches Some(part) ==> channel_mention(tag.spec_bytes()) == Some(part@),
        r is None ==> channel_mention(tag.spec_bytes()) is None,
{
    let bytes: &[u8] = tag.as_bytes();
    let n: usize = bytes.len();
    if n >= 3 && bytes[0] == LT && bytes[n - 1] == GT && bytes[1] == HASH {
        match read_id(slice_subrange(bytes, 2, n - 1)) {
            Some(channel) => Some(MessagePart::ChannelMention(channel)),
            None => None,
        }
    } else {
        None
    }
}

fn read_role_mention<'a>(tag: &'a str) -> (r: Option<MessagePart<'a>>)
    ensures
        r matches Some(part) ==> role_mention(tag.spec_bytes()) == Some(part@),
        r is None ==> role_mention(tag.spec_bytes()) is None,
{
    let bytes: &[u8] = tag.as_bytes();
    let n: usize = bytes.len();
    if n >= 4 && bytes[0] == LT && bytes[n - 1] == GT && bytes[1] == AT && bytes[2] == AMP {
        match read_id(slice_subrange(bytes, 3, n - 1)) {
            Some(role) => Some(MessagePart::RoleMention(role)),
            None => None,
        }
    } else {
        None
    }
}

fn read_emoji_fields<'a>(tag: &'a str, from: usize, animated: bool) -> (r: Option<MessagePart<'a>>)
    requires
        1 <= from < tag.spec_bytes().len(),
        tag.spec_bytes()[from - 1] == COLON,
    ensures
        r matches Some(part) ==> emoji_fields(tag.spec_bytes(), from as int, animated) == Some(
            part@,
        ),
        r is None ==> emoji_fields(tag.spec_bytes(), from as int, animated) is None,
{
    let bytes: &[u8] = tag.as_bytes();
    let n: usize = bytes.len();
    let colon: usize = find_byte(bytes, COLON, from);
    proof {
        lemma_index_of(bytes@, COLON, from as int);
    }
    if from < colon && colon < n - 1 {
        match read_id(slice_subrange(bytes, colon + 1, n - 1)) {
            Some(id) => {
                proof {
                    lemma_str_is_utf8(tag);
                    lemma_ascii_boundaries(bytes@, from - 1);
                    lemma_ascii_boundaries(bytes@, colon as int);
                }
                let name: &'a str = slice_str(tag, from, colon);
                Some(MessagePart::CustomEmoji { name, id, animated })
            },
            None => None,
        }
    } else {
        None
    }
}

fn read_custom_emoji<'a>(tag: &'a str) -> (r: Option<MessagePart<'a>>)
    ensures
        r matches Some(part) ==> custom_emoji(tag.spec_bytes()) == Some(part@),
        r is None ==> custom_emoji(tag.spec_bytes()) is None,
{
    let bytes: &[u8] = tag.as_bytes();
    let n: usize = bytes.len();
    if n >= 3 && bytes[0] == LT && bytes[n - 1] == GT && bytes[1] == COLON {
        read_emoji_fields(tag, 2, false)
    } else if n >= 4 && bytes[0] == LT && bytes[n - 1] == GT && bytes[1] == LOWER_A && bytes[2]
        == COLON {
        read_emoji_fields(tag, 3, true)
    } else {
        None
    }
}

fn read_plain_timestamp<'a>(tag: &'a str) -> (r: Option<MessagePart<'a>>)
    ensures
        r matches Some(part) ==> plain_timestamp(tag.spec_bytes()) == Some(part@),
        r is None ==> plain_timestamp(tag.spec_bytes()) is None,
{
    let bytes: &[u8] = tag.as_bytes();
    let n: usize = bytes.len();
    if n >= 4 && bytes[0] == LT && bytes[n - 1] == GT && bytes[1] == LOWER_T && bytes[2] == COLON {
        match read_seconds(slice_subrange(bytes, 3, n - 1)) {
            Some(instant) => Some(MessagePart::Timestamp { instant, style: None }),
            None => None,
        }
    } else {
        None
    }
}

fn read_styled_timestamp<'a>(tag: &'a str) -> (r: Option<MessagePart<'a>>)
    ensures
        r matches Some(part) ==> styled_timestamp(tag.spec_bytes()) == Some(part@),
        r is None ==> styled_timestamp(tag.spec_bytes()) is None,
{
    let bytes: &[u8] = tag.as_bytes();
    let n: usize = bytes.len();
    if n >= 6 && bytes[0] == LT && bytes[n - 1] == GT && bytes[1] == LOWER_T && bytes[2] == COLON
        && bytes[n - 3] == COLON {
        match read_seconds(slice_subrange(bytes, 3, n - 3)) {
            Some(instant) => match TimestampStyle::from_code(bytes[n - 2]) {
                Some(style) => Some(MessagePart::Timestamp { instant, style: Some(style) }),
                None => None,
            },
            None => None,
        }
    } else {
        None
    }
}

/// Reads one tag, brackets included. `None` means that the tag is
/// unreadable and stands as plain text.
pub fn classify_tag<'a>(tag: &'a str) -> (r: Option<MessagePart<'a>>)
    ensures
        r matches Some(part) ==> classify(tag.spec_bytes()) == Some(part@),
        r is None ==> classify(tag.spec_bytes()) is None,
{
    if let Some(part) = read_user_mention(tag) {
        return Some(part);
    }
    if let Some(part) = read_channel_mention(tag) {
        return Some(part);
    }
    if let Some(part) = read_role_mention(tag) {
        return Some(part);
    }
    if let Some(part) = read_custom_emoji(tag) {
        return Some(part);
    }
    if let Some(part) = read_plain_timestamp(tag) {
        return Some(part);
    }
    read_styled_timestamp(tag)
}

} // verus!
