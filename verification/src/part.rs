//! The parts of a parsed message and their mathematical model.

use vstd::prelude::*;
use vstd::string::*;
use crate::style::TimestampStyle;

verus! {

/// A parsed Discord message, or one part of it.
///
/// Text is borrowed from the message that was parsed and never copied.
#[derive(Debug, PartialEq, Eq)]
pub enum MessagePart<'a> {
    /// An empty message.
    Empty,
    /// A message that consists of two or more parts, in the order in which
    /// they occur in the text.
    Nested(Vec<MessagePart<'a>>),
    /// Plain text without any recognized formatting.
    PlainText(&'a str),
    /// A tag referring to a user.
    UserMention {
        /// The user in question.
        user: u64,
        /// Whether the tag was written `<@!...>` rather than `<@...>`. Both
        /// forms mean the same.
        nickname_mention: bool,
    },
    /// A tag referring to a channel or channel group.
    ChannelMention(u64),
    /// A tag referring to a role.
    RoleMention(u64),
    /// A Unicode emoji from the table that the message was parsed with.
    UnicodeEmoji(&'a str),
    /// A custom (i.e. non-Unicode) emoji.
    CustomEmoji {
        /// The name that the tag gives the emoji.
        name: &'a str,
        /// The emoji in question.
        id: u64,
        /// Whether the tag was written `<a:...>` rather than `<:...>`.
        animated: bool,
    },
    /// A timestamp tag.
    Timestamp {
        /// The instant, in seconds since the UNIX epoch.
        instant: i64,
        /// `None` if omitted, which behaves like `Some(ShortDateTime)`.
        style: Option<TimestampStyle>,
    },
}

/// What a [`MessagePart`] says, with text as UTF-8 bytes.
pub enum PartView {
    Empty,
    Nested(Seq<PartView>),
    PlainText(Seq<u8>),
    UserMention { user: u64, nickname_mention: bool },
    ChannelMention(u64),
    RoleMention(u64),
    UnicodeEmoji(Seq<u8>),
    CustomEmoji { name: Seq<u8>, id: u64, animated: bool },
    Timestamp { instant: i64, style: Option<TimestampStyle> },
}

/// What a part says. The parts of a `Nested` value are taken in order.
pub open spec fn part_view(part: MessagePart<'_>) -> PartView
    decreases part,
{
    match part {
        MessagePart::Empty => PartView::Empty,
        MessagePart::Nested(parts) => PartView::Nested(
            Seq::new(
                parts@.len(),
                |i: int|
                    if 0 <= i < parts@.len() {
                        part_view(parts@[i])
                    } else {
                        PartView::Empty
                    },
            ),
        ),
        MessagePart::PlainText(text) => PartView::PlainText(text.spec_bytes()),
        MessagePart::UserMention { user, nickname_mention } => PartView::UserMention {
            user,
            nickname_mention,
        },
        MessagePart::ChannelMention(channel) => PartView::ChannelMention(channel),
        MessagePart::RoleMention(role) => PartView::RoleMention(role),
        MessagePart::UnicodeEmoji(text) => PartView::UnicodeEmoji(text.spec_bytes()),
        MessagePart::CustomEmoji { name, id, animated } => PartView::CustomEmoji {
            name: name.spec_bytes(),
            id,
            animated,
        },
        MessagePart::Timestamp { instant, style } => PartView::Timestamp { instant, style },
    }
}

impl<'a> View for MessagePart<'a> {
    type V = PartView;

    open spec fn view(&self) -> PartView {
        part_view(*self)
    }
}

/// The views of a list of parts, in order.
pub open spec fn part_views(parts: Seq<MessagePart<'_>>) -> Seq<PartView> {
    Seq::new(parts.len(), |i: int| parts[i]@)
}

/// Adding a part to a list adds its view to the list's views.
pub proof fn lemma_part_views_push(parts: Seq<MessagePart<'_>>, part: MessagePart<'_>)
    ensures
        part_views(parts.push(part)) == part_views(parts).push(part@),
{
    assert(part_views(parts.push(part)) =~= part_views(parts).push(part@));
}

/// A `Nested` value says what its parts say, in order.
pub proof fn lemma_nested_view(nested: MessagePart<'_>)
    requires
        nested is Nested,
    ensures
        nested@ == PartView::Nested(part_views(nested->Nested_0@)),
{
    let parts: Seq<MessagePart<'_>> = nested->Nested_0@;
    let got: PartView = nested@;
    assert(got is Nested);
    let list: Seq<PartView> = got->Nested_0;
    assert(list.len() == parts.len());
    assert forall|i: int| 0 <= i < list.len() implies list[i] == parts[i]@ by {}
    assert(list =~= part_views(parts));
}

impl PartView {
    /// Whether this is one part rather than a whole message: neither
    /// `Empty` nor `Nested`.
    pub open spec fn is_single(self) -> bool {
        !(self is Empty) && !(self is Nested)
    }
}

} // verus!
