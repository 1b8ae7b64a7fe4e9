//! Segments: the stretches of a message that become one part each.
//!
//! A message is cut into segments without gaps or overlaps, so the parts of
//! a parsed message account for every byte of it exactly once.

use vstd::prelude::*;
use crate::part::PartView;
use crate::tag::classify;

verus! {

/// A stretch of message text that becomes one part.
pub enum Segment {
    /// Literal text.
    Text(Seq<u8>),
    /// A Unicode emoji from the table.
    Emoji(Seq<u8>),
    /// A tag, brackets included.
    Tag(Seq<u8>),
}

impl Segment {
    /// The part that the segment becomes: literal text and emoji as they
    /// are, a tag as what the classifier reads in it, and an unreadable tag
    /// as the plain text of the whole tag, brackets included.
    pub open spec fn part(self) -> PartView {
        match self {
            Segment::Text(text) => PartView::PlainText(text),
            Segment::Emoji(text) => PartView::UnicodeEmoji(text),
            Segment::Tag(text) => match classify(text) {
                Some(part) => part,
                None => PartView::PlainText(text),
            },
        }
    }

    /// The bytes of the message that the segment stands for.
    pub open spec fn source(self) -> Seq<u8> {
        match self {
            Segment::Text(text) => text,
            Segment::Emoji(text) => text,
            Segment::Tag(text) => text,
        }
    }
}

/// The bytes that a list of segments stands for, in order.
pub open spec fn sources(segments: Seq<Segment>) -> Seq<u8>
    decreases segments.len(),
{
    if segments.len() == 0 {
        Seq::empty()
    } else {
        sources(segments.drop_last()) + segments.last().source()
    }
}

/// The bytes of two lists of segments, one after the other, are the bytes
/// of the first followed by the bytes of the second.
pub proof fn lemma_sources_add(a: Seq<Segment>, b: Seq<Segment>)
    ensures
        sources(a + b) == sources(a) + sources(b),
    decreases b.len(),
{
    if b.len() == 0 {
        assert(a + b =~= a);
        assert(sources(a) + sources(b) =~= sources(a));
    } else {
        lemma_sources_add(a, b.drop_last());
        assert((a + b).drop_last() =~= a + b.drop_last());
        assert((a + b).last() == b.last());
        assert(sources(a + b) =~= sources(a) + sources(b));
    }
}

/// The bytes of a single segment are its own.
pub proof fn lemma_sources_one(segment: Segment)
    ensures
        sources(seq![segment]) == segment.source(),
{
    let one: Seq<Segment> = seq![segment];
    assert(one.drop_last() =~= Seq::<Segment>::empty());
    assert(sources(one.drop_last()) =~= Seq::<u8>::empty());
    assert(sources(one) =~= segment.source());
}

/// The parts that a list of segments becomes, in order.
pub open spec fn segment_parts(segments: Seq<Segment>) -> Seq<PartView> {
    Seq::new(segments.len(), |i: int| segments[i].part())
}

/// The parts of two lists of segments, one after the other, are the parts
/// of the first followed by the parts of the second.
pub proof fn lemma_segment_parts_add(a: Seq<Segment>, b: Seq<Segment>)
    ensures
        segment_parts(a + b) == segment_parts(a) + segment_parts(b),
{
    assert(segment_parts(a + b) =~= segment_parts(a) + segment_parts(b));
}

} // verus!
