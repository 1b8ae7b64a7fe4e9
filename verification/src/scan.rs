//! The tag scanner: finds the next `<...>` span of a message.
//!
//! A tag is `<`, then one or more bytes other than `>`, then `>`. Tags are
//! taken leftmost first and never overlap: the search for the next one
//! resumes where the last one ended.

use vstd::prelude::*;
use crate::text::{find_byte, index_of, lemma_index_of, GT, LT};

verus! {

/// `text[start..end]` is a tag.
pub open spec fn is_tag(text: Seq<u8>, start: int, end: int) -> bool {
    &&& 0 <= start
    &&& start + 3 <= end <= text.len()
    &&& text[start] == LT
    &&& text[end - 1] == GT
    &&& forall|k: int| start < k < end - 1 ==> text[k] != GT
}

/// Where the tag that starts at `start` ends, if a tag starts there.
pub open spec fn tag_end(text: Seq<u8>, start: int) -> Option<int> {
    if 0 <= start < text.len() && text[start] == LT {
        let close = index_of(text, GT, start + 1);
        if start + 1 < close < text.len() {
            Some(close + 1)
        } else {
            None
        }
    } else {
        None
    }
}

/// The first tag that starts at or after `from`, as its start and end.
pub open spec fn next_tag(text: Seq<u8>, from: int) -> Option<(int, int)>
    decreases text.len() - from,
{
    if from >= text.len() {
        None
    } else {
        match tag_end(text, from) {
            Some(end) => Some((from, end)),
            None => next_tag(text, from + 1),
        }
    }
}

/// A tag starts at `start` and ends at `end` exactly when `tag_end` says so.
pub proof fn lemma_tag_end(text: Seq<u8>, start: int, end: int)
    ensures
        tag_end(text, start) == Some(end) <==> is_tag(text, start, end),
{
    if 0 <= start < text.len() && text[start] == LT {
        lemma_index_of(text, GT, start + 1);
        let close: int = index_of(text, GT, start + 1);
        if is_tag(text, start, end) {
            // The tag's own `>` is the first one after its `<`.
            if close < end - 1 {
                assert(text[close] == GT);
            }
            if close > end - 1 {
                assert(text[end - 1] != GT);
            }
        }
    }
}

/// The scanner is leftmost-first: what it returns is a tag, and no tag
/// starts between `from` and it; where it returns nothing, no tag starts at
/// or after `from`.
pub proof fn lemma_next_tag(text: Seq<u8>, from: int)
    requires
        0 <= from,
    ensures
        match next_tag(text, from) {
            Some((start, end)) => {
                &&& from <= start
                &&& is_tag(text, start, end)
                &&& forall|s: int, e: int| from <= s < start ==> !is_tag(text, s, e)
            },
            None => forall|s: int, e: int| from <= s ==> !is_tag(text, s, e),
        },
    decreases text.len() - from,
{
    if from < text.len() {
        match tag_end(text, from) {
            Some(end) => {
                lemma_tag_end(text, from, end);
            },
            None => {
                lemma_next_tag(text, from + 1);
                assert forall|e: int| !is_tag(text, from, e) by {
                    lemma_tag_end(text, from, e);
                }
            },
        }
    }
}

/// Where no `>` follows, no tag follows.
pub proof fn lemma_no_close_no_tag(text: Seq<u8>, from: int)
    requires
        0 <= from,
        index_of(text, GT, from + 1) == text.len(),
    ensures
        next_tag(text, from) is None,
    decreases text.len() - from,
{
    if from < text.len() {
        lemma_index_of(text, GT, from + 1);
        lemma_index_of(text, GT, from + 2);
        if index_of(text, GT, from + 2) < text.len() {
            assert(text[index_of(text, GT, from + 2)] == GT);
        }
        lemma_no_close_no_tag(text, from + 1);
    }
}

/// Finds the first tag that starts at or after `from`.
pub fn find_tag(bytes: &[u8], from: usize) -> (r: Option<(usize, usize)>)
    ensures
        r matches Some((start, end)) ==> next_tag(bytes@, from as int) == Some(
            (start as int, end as int),
        ),
        r is None ==> next_tag(bytes@, from as int) is None,
{
    let n: usize = bytes.len();
    let mut i: usize = from;
    while i < n
        invariant
            n == bytes@.len(),
            from <= i,
            next_tag(bytes@, from as int) == next_tag(bytes@, i as int),
        decreases n - i,
    {
        if bytes[i] == LT {
            let j: usize = find_byte(bytes, GT, i + 1);
            if j >= n {
                proof {
                    lemma_no_close_no_tag(bytes@, i as int);
                }
                return None;
            }
            if j > i + 1 {
                return Some((i, j + 1));
            }
        }
        i = i + 1;
    }
    None
}

} // verus!
