//! Message text as UTF-8 bytes: the delimiter bytes, borrowing a sub-range of
//! a `str`, and the facts about character boundaries that make it safe.
//!
//! Every position that the parser cuts at is next to an ASCII byte or at the
//! end of a well-formed piece of text, so it is a character boundary.

use vstd::prelude::*;
use vstd::string::*;
use vstd::utf8::*;

verus! {

/// `<`, which opens a tag.
pub const LT: u8 = 0x3c;

/// `>`, which closes a tag.
pub const GT: u8 = 0x3e;

/// `@`, which marks a user or role mention.
pub const AT: u8 = 0x40;

/// `!`, which marks the nickname form of a user mention.
pub const BANG: u8 = 0x21;

/// `#`, which marks a channel mention.
pub const HASH: u8 = 0x23;

/// `&`, which marks a role mention.
pub const AMP: u8 = 0x26;

/// `:`, which separates the fields of emoji and timestamp tags.
pub const COLON: u8 = 0x3a;

/// `-`, the sign of a negative number of seconds.
pub const MINUS: u8 = 0x2d;

/// `a`, which marks an animated custom emoji.
pub const LOWER_A: u8 = 0x61;

/// `t`, which marks a timestamp.
pub const LOWER_T: u8 = 0x74;

/// The first position at or after `from` that holds `byte`, or the length
/// of the text where none does.
pub open spec fn index_of(text: Seq<u8>, byte: u8, from: int) -> int
    decreases text.len() - from,
{
    if from >= text.len() {
        text.len() as int
    } else if from >= 0 && text[from] == byte {
        from
    } else {
        index_of(text, byte, from + 1)
    }
}

/// `index_of` is the least position at or after `from` that holds `byte`.
pub proof fn lemma_index_of(text: Seq<u8>, byte: u8, from: int)
    requires
        0 <= from,
    ensures
        from <= index_of(text, byte, from) || index_of(text, byte, from) == text.len(),
        index_of(text, byte, from) <= text.len(),
        index_of(text, byte, from) < text.len() ==> text[index_of(text, byte, from)] == byte,
        forall|k: int| from <= k < index_of(text, byte, from) ==> text[k] != byte,
    decreases text.len() - from,
{
    if from < text.len() && text[from] != byte {
        lemma_index_of(text, byte, from + 1);
    }
}

/// Finds the first position at or after `from` that holds `byte`.
pub fn find_byte(bytes: &[u8], byte: u8, from: usize) -> (r: usize)
    ensures
        r == index_of(bytes@, byte, from as int),
        r <= bytes@.len(),
{
    let n: usize = bytes.len();
    if from >= n {
        return n;
    }
    let mut i: usize = from;
    while i < n && bytes[i] != byte
        invariant
            n == bytes@.len(),
            from <= i <= n,
            index_of(bytes@, byte, from as int) == index_of(bytes@, byte, i as int),
        decreases n - i,
    {
        i = i + 1;
    }
    i
}

/// The bytes of a `str` are well-formed UTF-8.
pub proof fn lemma_str_is_utf8(s: &str)
    ensures
        valid_utf8(s.spec_bytes()),
{
    encode_utf8_valid_utf8(s@);
}

/// What is left of well-formed text after its first character is well-formed.
pub proof fn lemma_rest_is_utf8(bytes: Seq<u8>)
    requires
        valid_utf8(bytes),
        bytes.len() > 0,
    ensures
        valid_first_scalar(bytes),
        1 <= length_of_first_scalar(bytes) <= bytes.len(),
        valid_utf8(pop_first_scalar(bytes)),
        pop_first_scalar(bytes).len() == bytes.len() - length_of_first_scalar(bytes),
{
}

/// An ASCII byte is a character of its own: the text can be cut before it
/// and after it.
pub proof fn lemma_ascii_boundaries(bytes: Seq<u8>, i: int)
    requires
        valid_utf8(bytes),
        0 <= i < bytes.len(),
        bytes[i] < 0x80,
    ensures
        is_char_boundary(bytes, i),
        is_char_boundary(bytes, i + 1),
    decreases bytes.len(),
{
    is_char_boundary_iff_not_is_continuation_byte(bytes, i);
    lemma_rest_is_utf8(bytes);
    let width: int = length_of_first_scalar(bytes);
    let rest: Seq<u8> = pop_first_scalar(bytes);
    if i == 0 {
        assert(width == 1);
        assert(is_char_boundary(rest, 0));
        assert(is_char_boundary(bytes, 1));
    } else {
        assert(is_char_boundary(rest, i - width));
        if i < width {
            // A boundary other than 0 lies at or past the first character.
            assert(false) by {
                reveal_with_fuel(is_char_boundary, 2);
            }
        }
        assert(rest[i - width] == bytes[i]);
        lemma_ascii_boundaries(rest, i - width);
        assert(is_char_boundary(bytes, i + 1));
    }
}

/// Well-formed text that begins with a well-formed piece can be cut where
/// the piece ends.
pub proof fn lemma_prefix_boundary(piece: Seq<u8>, bytes: Seq<u8>)
    requires
        valid_utf8(piece),
        valid_utf8(bytes),
        piece.is_prefix_of(bytes),
    ensures
        is_char_boundary(bytes, piece.len() as int),
    decreases piece.len(),
{
    if piece.len() > 0 {
        lemma_rest_is_utf8(piece);
        lemma_rest_is_utf8(bytes);
        let width: int = length_of_first_scalar(piece);
        assert(bytes[0] == piece[0]);
        assert(length_of_first_scalar(bytes) == width);
        let piece_rest: Seq<u8> = pop_first_scalar(piece);
        let bytes_rest: Seq<u8> = pop_first_scalar(bytes);
        assert(piece_rest.is_prefix_of(bytes_rest)) by {
            assert(piece_rest.len() <= bytes_rest.len());
            assert forall|k: int| 0 <= k < piece_rest.len() implies piece_rest[k] == bytes_rest[k] by {
                assert(piece_rest[k] == piece[k + width]);
                assert(bytes_rest[k] == bytes[k + width]);
            }
            assert(piece_rest =~= bytes_rest.subrange(0, piece_rest.len() as int));
        }
        lemma_prefix_boundary(piece_rest, bytes_rest);
    }
}

/// A cut of the whole text is also a cut of the part before a later cut.
pub proof fn lemma_boundary_in_head(bytes: Seq<u8>, from: int, to: int)
    requires
        valid_utf8(bytes),
        0 <= from <= to <= bytes.len(),
        is_char_boundary(bytes, from),
        is_char_boundary(bytes, to),
    ensures
        valid_utf8(bytes.subrange(0, to)),
        is_char_boundary(bytes.subrange(0, to), from),
{
    let head: Seq<u8> = bytes.subrange(0, to);
    valid_utf8_split(bytes, to);
    if from == to {
        is_char_boundary_start_end_of_seq(head);
    } else {
        is_char_boundary_iff_not_is_continuation_byte(bytes, from);
        is_char_boundary_iff_not_is_continuation_byte(head, from);
    }
}

/// A cut of the part after an earlier cut is a cut of the whole text.
pub proof fn lemma_boundary_in_tail(bytes: Seq<u8>, from: int, to: int)
    requires
        valid_utf8(bytes),
        0 <= from <= to <= bytes.len(),
        is_char_boundary(bytes, from),
        is_char_boundary(bytes.subrange(from, bytes.len() as int), to - from),
    ensures
        is_char_boundary(bytes, to),
{
    let tail: Seq<u8> = bytes.subrange(from, bytes.len() as int);
    valid_utf8_split(bytes, from);
    if to == bytes.len() {
        is_char_boundary_start_end_of_seq(bytes);
    } else {
        is_char_boundary_iff_not_is_continuation_byte(tail, to - from);
        is_char_boundary_iff_not_is_continuation_byte(bytes, to);
    }
}

/// Borrows the bytes `from..to` of `s`.
pub(crate) fn slice_str<'a>(s: &'a str, from: usize, to: usize) -> (r: &'a str)
    requires
        from <= to <= s.spec_bytes().len(),
        is_char_boundary(s.spec_bytes(), from as int),
        is_char_boundary(s.spec_bytes(), to as int),
    ensures
        r.spec_bytes() == s.spec_bytes().subrange(from as int, to as int),
{
    proof {
        lemma_str_is_utf8(s);
        lemma_boundary_in_head(s.spec_bytes(), from as int, to as int);
    }
    let (head, _) = s.split_at(to);
    let (_, mid) = head.split_at(from);
    proof {
        assert(head.spec_bytes().subrange(from as int, head.spec_bytes().len() as int)
            =~= s.spec_bytes().subrange(from as int, to as int));
    }
    mid
}

} // verus!
