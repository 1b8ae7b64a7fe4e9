//! The message assembler: runs the tag scanner, the tag classifier and the
//! emoji matcher over a whole message and folds the parts into one value.

use vstd::prelude::*;
use vstd::string::*;
use vstd::utf8::*;
use crate::emoji::{
    lemma_literal_from_covers, lemma_literal_from_nonempty, literal_segments, parse_unicode,
    EmojiTable,
};
use crate::part::{lemma_nested_view, lemma_part_views_push, part_views, MessagePart, PartView};
use crate::scan::{find_tag, is_tag, lemma_next_tag, next_tag};
use crate::segment::{
    lemma_segment_parts_add, lemma_sources_add, lemma_sources_one, segment_parts, sources, Segment,
};
use crate::tag::{classify, classify_tag, law_unreadable, rules};
use crate::text::{lemma_ascii_boundaries, lemma_str_is_utf8, slice_str};

verus! {

/// The segments of `text` from position `from` on: the literal run up to
/// the next tag, the tag, and so on behind it.
pub open spec fn segments_from(table: Seq<Seq<u8>>, text: Seq<u8>, from: nat) -> Seq<Segment>
    decreases text.len() - from,
    via segments_from_decreases
{
    match next_tag(text, from as int) {
        Some((start, end)) => literal_segments(table, text.subrange(from as int, start)) + seq![
            Segment::Tag(text.subrange(start, end)),
        ] + segments_from(table, text, end as nat),
        None => literal_segments(table, text.subrange(from as int, text.len() as int)),
    }
}

#[via_fn]
proof fn segments_from_decreases(table: Seq<Seq<u8>>, text: Seq<u8>, from: nat) {
    lemma_next_tag(text, from as int);
}

/// The segments of a message.
pub open spec fn message_segments(table: Seq<Seq<u8>>, text: Seq<u8>) -> Seq<Segment> {
    segments_from(table, text, 0)
}

/// The parts of a message, in the order in which they occur in it.
pub open spec fn message_parts(table: Seq<Seq<u8>>, text: Seq<u8>) -> Seq<PartView> {
    segment_parts(message_segments(table, text))
}

/// A list of parts as one value: `Empty` for no part, the part itself for
/// one, `Nested` for more.
pub open spec fn collapse(parts: Seq<PartView>) -> PartView {
    if parts.len() == 0 {
        PartView::Empty
    } else if parts.len() == 1 {
        parts[0]
    } else {
        PartView::Nested(parts)
    }
}

/// What a message parses to.
pub open spec fn message(table: Seq<Seq<u8>>, text: Seq<u8>) -> PartView {
    collapse(message_parts(table, text))
}

/// The segments from `from` on cover the text from `from` on, none of them
/// is empty, and every part that they become is a part of its own.
pub proof fn lemma_segments_from(table: Seq<Seq<u8>>, text: Seq<u8>, from: nat)
    requires
        from <= text.len(),
    ensures
        sources(segments_from(table, text, from)) == text.subrange(
            from as int,
            text.len() as int,
        ),
        forall|i: int|
            0 <= i < segments_from(table, text, from).len() ==> (#[trigger] segments_from(
                table,
                text,
                from,
            )[i]).source().len() > 0,
        forall|i: int|
            0 <= i < segments_from(table, text, from).len() ==> (#[trigger] segments_from(
                table,
                text,
                from,
            )[i]).part().is_single(),
    decreases text.len() - from,
{
    let n: int = text.len() as int;
    lemma_next_tag(text, from as int);
    match next_tag(text, from as int) {
        Some((start, end)) => {
            let run: Seq<u8> = text.subrange(from as int, start);
            let literal: Seq<Segment> = literal_segments(table, run);
            let tag: Segment = Segment::Tag(text.subrange(start, end));
            let behind: Seq<Segment> = segments_from(table, text, end as nat);
            lemma_literal_from_covers(table, run, 0, 0);
            lemma_literal_from_nonempty(table, run, 0, 0);
            lemma_segments_from(table, text, end as nat);
            lemma_sources_add(literal + seq![tag], behind);
            lemma_sources_add(literal, seq![tag]);
            lemma_sources_one(tag);
            law_unreadable(tag.source());
            assert(run.subrange(0, run.len() as int) =~= run);
            assert(run + text.subrange(start, end) + text.subrange(end, n) =~= text.subrange(
                from as int,
                n,
            ));
            let all: Seq<Segment> = literal + seq![tag] + behind;
            assert forall|i: int| 0 <= i < all.len() implies (#[trigger] all[i]).source().len() > 0
                && all[i].part().is_single() by {
                if i < literal.len() {
                    assert(all[i] == literal[i]);
                } else if i == literal.len() {
                    assert(all[i] == tag);
                } else {
                    assert(all[i] == behind[i - literal.len() - 1]);
                }
            }
        },
        None => {
            let run: Seq<u8> = text.subrange(from as int, n);
            lemma_literal_from_covers(table, run, 0, 0);
            lemma_literal_from_nonempty(table, run, 0, 0);
            assert(run.subrange(0, run.len() as int) =~= run);
        },
    }
}

/// Coverage: the stretches of text that the parts of a message stand for,
/// one after the other, are the message, byte for byte.
pub proof fn law_coverage(table: Seq<Seq<u8>>, text: Seq<u8>)
    ensures
        sources(message_segments(table, text)) == text,
        message_parts(table, text).len() == message_segments(table, text).len(),
        forall|i: int|
            0 <= i < message_segments(table, text).len() ==> message_parts(table, text)[i]
                == message_segments(table, text)[i].part(),
{
    lemma_segments_from(table, text, 0);
    assert(text.subrange(0, text.len() as int) =~= text);
}

/// No part stands for an empty stretch of text.
pub proof fn law_no_empty_part(table: Seq<Seq<u8>>, text: Seq<u8>, i: int)
    requires
        0 <= i < message_segments(table, text).len(),
    ensures
        message_segments(table, text)[i].source().len() > 0,
{
    lemma_segments_from(table, text, 0);
}

/// Collapse: a message without parts is `Empty`, and only the empty text
/// has no parts; a message of one part is that part, not a `Nested` around
/// it; a message of more parts is the `Nested` of them; and no part of a
/// message is itself `Empty` or `Nested`.
pub proof fn law_collapse(table: Seq<Seq<u8>>, text: Seq<u8>)
    ensures
        message(table, text) is Empty <==> message_parts(table, text).len() == 0,
        message_parts(table, text).len() == 0 <==> text.len() == 0,
        message_parts(table, text).len() == 1 ==> message(table, text) == message_parts(
            table,
            text,
        )[0],
        message(table, text) is Nested <==> message_parts(table, text).len() >= 2,
        message_parts(table, text).len() >= 2 ==> message(table, text) == PartView::Nested(
            message_parts(table, text),
        ),
        forall|i: int|
            0 <= i < message_parts(table, text).len() ==> (#[trigger] message_parts(
                table,
                text,
            )[i]).is_single(),
{
    let segments: Seq<Segment> = message_segments(table, text);
    let parts: Seq<PartView> = message_parts(table, text);
    lemma_segments_from(table, text, 0);
    assert(text.subrange(0, text.len() as int) =~= text);
    assert forall|i: int| 0 <= i < parts.len() implies (#[trigger] parts[i]).is_single() by {
        assert(parts[i] == segments[i].part());
    }
    if parts.len() == 1 {
        assert(parts[0].is_single());
    }
    if segments.len() == 0 {
        assert(sources(segments) =~= Seq::<u8>::empty());
    } else {
        assert(segments.last().source().len() > 0);
        assert(sources(segments).len() > 0);
    }
}

/// Plain fallback: a tag that none of the six rules accepts becomes exactly
/// one `PlainText` part, which holds the whole tag, brackets included. It
/// stands between the parts of the literal text before it and the parts of
/// what follows it.
pub proof fn law_plain_fallback(table: Seq<Seq<u8>>, text: Seq<u8>, from: nat, start: int, end: int)
    requires
        from <= text.len(),
        next_tag(text, from as int) == Some((start, end)),
        forall|i: int| 0 <= i < rules(text.subrange(start, end)).len() ==> rules(
            text.subrange(start, end),
        )[i] is None,
    ensures
        segment_parts(segments_from(table, text, from)) == segment_parts(
            literal_segments(table, text.subrange(from as int, start)),
        ) + seq![PartView::PlainText(text.subrange(start, end))] + segment_parts(
            segments_from(table, text, end as nat),
        ),
{
    let tag: Seq<u8> = text.subrange(start, end);
    let literal: Seq<Segment> = literal_segments(table, text.subrange(from as int, start));
    let behind: Seq<Segment> = segments_from(table, text, end as nat);
    law_unreadable(tag);
    lemma_segment_parts_add(literal + seq![Segment::Tag(tag)], behind);
    lemma_segment_parts_add(literal, seq![Segment::Tag(tag)]);
    assert(segment_parts(seq![Segment::Tag(tag)]) =~= seq![PartView::PlainText(tag)]);
}

/// A message that is one unreadable tag and nothing else parses to the
/// plain text of the tag.
pub proof fn law_lone_unreadable_tag(table: Seq<Seq<u8>>, text: Seq<u8>)
    requires
        is_tag(text, 0, text.len() as int),
        classify(text) is None,
    ensures
        message(table, text) == PartView::PlainText(text),
{
    let n: int = text.len() as int;
    lemma_next_tag(text, 0);
    crate::scan::lemma_tag_end(text, 0, n);
    assert(next_tag(text, 0) == Some((0int, n)));
    assert(text.subrange(0, n) =~= text);
    let run: Seq<u8> = text.subrange(0, 0);
    assert(literal_segments(table, run) =~= Seq::<Segment>::empty());
    lemma_next_tag(text, n);
    assert(next_tag(text, n) is None);
    let tail: Seq<u8> = text.subrange(n, n);
    assert(literal_segments(table, tail) =~= Seq::<Segment>::empty());
    assert(segments_from(table, text, n as nat) =~= Seq::<Segment>::empty());
    assert(message_segments(table, text) =~= seq![Segment::Tag(text)]);
    assert(message_parts(table, text) =~= seq![PartView::PlainText(text)]);
}

impl<'a> MessagePart<'a> {
    /// Parses a message: tags become mentions, custom emoji and timestamps,
    /// the sequences of `table` become Unicode emoji, and everything else,
    /// unreadable tags included, becomes plain text.
    pub fn parse(s: &'a str, table: &EmojiTable) -> (r: MessagePart<'a>)
        ensures
            r@ == message(table@, s.spec_bytes()),
    {
        let bytes: &[u8] = s.as_bytes();
        let n: usize = bytes.len();
        let ghost text: Seq<u8> = s.spec_bytes();
        let ghost done: Seq<Segment> = Seq::empty();
        let mut parts: Vec<MessagePart<'a>> = Vec::new();
        let mut from: usize = 0;
        let mut more: bool = true;
        proof {
            lemma_str_is_utf8(s);
            is_char_boundary_start_end_of_seq(text);
            assert(part_views(parts@) =~= segment_parts(done));
            assert(done + segments_from(table@, text, 0) =~= message_segments(table@, text));
        }
        while more
            invariant
                n == text.len(),
                text == s.spec_bytes(),
                bytes@ == text,
                valid_utf8(text),
                from <= n,
                part_views(parts@) == segment_parts(done),
                more ==> is_char_boundary(text, from as int),
                more ==> done + segments_from(table@, text, from as nat) == message_segments(
                    table@,
                    text,
                ),
                !more ==> done == message_segments(table@, text),
            decreases
                    (if more {
                        n - from + 1
                    } else {
                        0
                    }),
        {
            proof {
                lemma_next_tag(text, from as int);
            }
            match find_tag(bytes, from) {
                Some((start, end)) => {
                    proof {
                        lemma_ascii_boundaries(text, start as int);
                        lemma_ascii_boundaries(text, end - 1);
                    }
                    let run: &'a str = slice_str(s, from, start);
                    let span: &'a str = slice_str(s, start, end);
                    let ghost literal: Seq<Segment> = literal_segments(table@, run.spec_bytes());
                    let ghost tag: Segment = Segment::Tag(span.spec_bytes());
                    parse_unicode(table, &mut parts, run);
                    proof {
                        lemma_segment_parts_add(done, literal);
                    }
                    let part: MessagePart<'a> = match classify_tag(span) {
                        Some(part) => part,
                        None => MessagePart::PlainText(span),
                    };
                    proof {
                        assert(part@ == tag.part());
                        lemma_part_views_push(parts@, part);
                    }
                    parts.push(part);
                    proof {
                        assert(part_views(parts@) =~= segment_parts(done + literal + seq![tag]));
                        assert((done + literal + seq![tag]) + segments_from(
                            table@,
                            text,
                            end as nat,
                        ) =~= done + (literal + seq![tag] + segments_from(table@, text, end as nat)));
                        done = done + literal + seq![tag];
                    }
                    from = end;
                },
                None => {
                    proof {
                        is_char_boundary_start_end_of_seq(text);
                    }
                    let run: &'a str = slice_str(s, from, n);
                    let ghost literal: Seq<Segment> = literal_segments(table@, run.spec_bytes());
                    parse_unicode(table, &mut parts, run);
                    proof {
                        lemma_segment_parts_add(done, literal);
                        done = done + literal;
                    }
                    more = false;
                },
            }
        }
        assert(part_views(parts@) == message_parts(table@, text));
        if parts.len() == 0 {
            MessagePart::Empty
        } else if parts.len() == 1 {
            let ghost only: MessagePart<'a> = parts@[0];
            match parts.pop() {
                Some(part) => {
                    assert(part@ == part_views(seq![only])[0]);
                    part
                },
                None => MessagePart::Empty,
            }
        } else {
            let ghost views: Seq<PartView> = part_views(parts@);
            let r: MessagePart<'a> = MessagePart::Nested(parts);
            proof {
                lemma_nested_view(r);
            }
            r
        }
    }
}

impl<'a> From<&'a str> for MessagePart<'a> {
    /// Parses a message without looking for Unicode emoji.
    fn from(s: &'a str) -> (r: MessagePart<'a>)
        ensures
            r@ == message(Seq::empty(), s.spec_bytes()),
    {
        let table: EmojiTable = EmojiTable::new();
        assert(table@ =~= Seq::<Seq<u8>>::empty());
        MessagePart::parse(s, &table)
    }
}

/// The conversion is specified by the `ensures` of `from`, over [`message`]:
/// a `MessagePart` cannot be written down in a specification, so there is
/// no `from_spec` that `from` could be held to.
impl<'a> vstd::std_specs::convert::FromSpecImpl<&'a str> for MessagePart<'a> {
    open spec fn obeys_from_spec() -> bool {
        false
    }

    open spec fn from_spec(s: &'a str) -> MessagePart<'a> {
        MessagePart::Empty
    }
}

/// Parsing for values that hold the text of a message.
pub trait MessageExt {
    /// The text of the message.
    spec fn content(&self) -> Seq<u8>;

    /// Parses the contents of this message, without looking for Unicode
    /// emoji.
    fn parse<'a>(&'a self) -> (r: MessagePart<'a>)
        ensures
            r@ == message(Seq::empty(), self.content()),
    ;
}

impl MessageExt for str {
    open spec fn content(&self) -> Seq<u8> {
        self.spec_bytes()
    }

    fn parse<'a>(&'a self) -> (r: MessagePart<'a>) {
        MessagePart::from(self)
    }
}

impl MessageExt for String {
    open spec fn content(&self) -> Seq<u8> {
        encode_utf8(self@)
    }

    fn parse<'a>(&'a self) -> (r: MessagePart<'a>) {
        MessagePart::from(self.as_str())
    }
}

} // verus!
