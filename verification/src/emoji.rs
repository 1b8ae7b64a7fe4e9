//! The emoji matcher: a table of known Unicode emoji sequences, and the
//! splitting of literal text into emoji and the text between them.
//!
//! The table keeps its sequences in order, and also grouped by their first
//! code point. At a position of the text the first sequence, in table
//! order, that the text continues with is the match. Where every sequence
//! stands before its own prefixes the longest sequence therefore wins.
//! [`EmojiTable::from_sequences`] keeps the order that it is given;
//! [`EmojiTable::sorted`] puts the sequences in such an order itself.

use std::collections::HashMap;
use vstd::prelude::*;
use vstd::string::*;
use vstd::utf8::*;
use crate::order::{descending, lemma_descending_prefixes, sequence_bytes, sort_descending};
use crate::part::{lemma_part_views_push, part_views, MessagePart};
use crate::segment::{lemma_sources_add, lemma_sources_one, segment_parts, sources, Segment};
use crate::text::{lemma_boundary_in_tail, lemma_prefix_boundary, lemma_str_is_utf8, slice_str};

verus! {

/// The text `rest` starts with the sequence `entry`. The empty sequence
/// starts nothing.
pub open spec fn starts_with(rest: Seq<u8>, entry: Seq<u8>) -> bool {
    entry.len() > 0 && entry.is_prefix_of(rest)
}

/// The first sequence of the table, at or after index `from`, that `rest`
/// starts with.
pub open spec fn first_match(table: Seq<Seq<u8>>, rest: Seq<u8>, from: int) -> Option<int>
    decreases table.len() - from,
{
    if from >= table.len() {
        None
    } else if from >= 0 && starts_with(rest, table[from]) {
        Some(from)
    } else {
        first_match(table, rest, from + 1)
    }
}

/// The length of the emoji that `rest` starts with, if it starts with one.
pub open spec fn emoji_len(table: Seq<Seq<u8>>, rest: Seq<u8>) -> Option<nat> {
    match first_match(table, rest, 0) {
        Some(k) => Some(table[k].len()),
        None => None,
    }
}

/// The text from `start` up to `at`, where there is any.
pub open spec fn text_between(run: Seq<u8>, start: int, at: int) -> Seq<Segment> {
    if start < at {
        seq![Segment::Text(run.subrange(start, at))]
    } else {
        Seq::empty()
    }
}

/// The segments of `run` from `start` on, where the positions from `start`
/// up to `at` are known to start no emoji: plain text up to the next emoji,
/// the emoji, and so on behind it.
pub open spec fn literal_from(table: Seq<Seq<u8>>, run: Seq<u8>, start: nat, at: nat) -> Seq<
    Segment,
>
    decreases run.len() - at,
    via literal_from_decreases
{
    if at >= run.len() {
        text_between(run, start as int, run.len() as int)
    } else {
        match emoji_len(table, run.subrange(at as int, run.len() as int)) {
            Some(len) => text_between(run, start as int, at as int) + seq![
                Segment::Emoji(run.subrange(at as int, (at + len) as int)),
            ] + literal_from(table, run, at + len, at + len),
            None => literal_from(table, run, start, at + 1),
        }
    }
}

#[via_fn]
proof fn literal_from_decreases(table: Seq<Seq<u8>>, run: Seq<u8>, start: nat, at: nat) {
    if at < run.len() {
        lemma_first_match(table, run.subrange(at as int, run.len() as int), 0);
    }
}

/// The segments of a literal run of text.
pub open spec fn literal_segments(table: Seq<Seq<u8>>, run: Seq<u8>) -> Seq<Segment> {
    literal_from(table, run, 0, 0)
}

/// `first_match` is the least index at or after `from` of a sequence that
/// `rest` starts with.
pub proof fn lemma_first_match(table: Seq<Seq<u8>>, rest: Seq<u8>, from: int)
    requires
        0 <= from,
    ensures
        match first_match(table, rest, from) {
            Some(k) => {
                &&& from <= k < table.len()
                &&& starts_with(rest, table[k])
                &&& forall|j: int| from <= j < k ==> !starts_with(rest, table[j])
            },
            None => forall|j: int| from <= j < table.len() ==> !starts_with(rest, table[j]),
        },
    decreases table.len() - from,
{
    if from < table.len() && !starts_with(rest, table[from]) {
        lemma_first_match(table, rest, from + 1);
    }
}

/// No sequence of the table begins a sequence that comes later in the
/// table: every sequence stands before all of its proper prefixes.
pub open spec fn longest_first(table: Seq<Seq<u8>>) -> bool {
    forall|i: int, j: int|
        0 <= i < j < table.len() && 0 < table[i].len() < table[j].len() ==> !table[i].is_prefix_of(
            table[j],
        )
}

/// A table in descending order stands longest first.
pub proof fn lemma_descending_longest_first(table: Seq<Seq<u8>>)
    requires
        descending(table),
    ensures
        longest_first(table),
{
    assert forall|i: int, j: int|
        0 <= i < j < table.len() && 0 < table[i].len() < table[j].len() implies !table[i].is_prefix_of(
        table[j],
    ) by {
        lemma_descending_prefixes(table, i, j);
    }
}

/// Where the table stands longest first, the first sequence that the text
/// starts with is also the longest one that it starts with.
pub proof fn law_longest_match(table: Seq<Seq<u8>>, rest: Seq<u8>, k: int, j: int)
    requires
        longest_first(table),
        first_match(table, rest, 0) == Some(k),
        0 <= j < table.len(),
        starts_with(rest, table[j]),
    ensures
        table[j].len() <= table[k].len(),
{
    lemma_first_match(table, rest, 0);
    if table[j].len() > table[k].len() {
        assert(k < j);
        assert(table[k] =~= table[j].subrange(0, table[k].len() as int));
        assert(table[k].is_prefix_of(table[j]));
    }
}

/// The segments that the matcher cuts a run into cover the run: their bytes,
/// one after the other, are the bytes of the run from `start` on.
pub proof fn lemma_literal_from_covers(table: Seq<Seq<u8>>, run: Seq<u8>, start: nat, at: nat)
    requires
        start <= at <= run.len(),
    ensures
        sources(literal_from(table, run, start, at)) == run.subrange(
            start as int,
            run.len() as int,
        ),
    decreases run.len() - at,
{
    let n: int = run.len() as int;
    if at >= run.len() {
        if start < n {
            lemma_sources_one(Segment::Text(run.subrange(start as int, n)));
        } else {
            assert(run.subrange(start as int, n) =~= Seq::<u8>::empty());
        }
    } else {
        let rest: Seq<u8> = run.subrange(at as int, n);
        lemma_first_match(table, rest, 0);
        match emoji_len(table, rest) {
            Some(len) => {
                let end: nat = at + len;
                let text: Seq<Segment> = text_between(run, start as int, at as int);
                let emoji: Segment = Segment::Emoji(run.subrange(at as int, end as int));
                let behind: Seq<Segment> = literal_from(table, run, end, end);
                lemma_literal_from_covers(table, run, end, end);
                lemma_sources_add(text + seq![emoji], behind);
                lemma_sources_add(text, seq![emoji]);
                lemma_sources_one(emoji);
                if start < at {
                    lemma_sources_one(Segment::Text(run.subrange(start as int, at as int)));
                }
                assert(sources(text) =~= run.subrange(start as int, at as int));
                assert(run.subrange(start as int, at as int) + run.subrange(at as int, end as int)
                    + run.subrange(end as int, n) =~= run.subrange(start as int, n));
            },
            None => {
                lemma_literal_from_covers(table, run, start, at + 1);
            },
        }
    }
}

/// No segment that the matcher cuts is empty: two emoji next to each other
/// have no plain text between them.
pub proof fn lemma_literal_from_nonempty(table: Seq<Seq<u8>>, run: Seq<u8>, start: nat, at: nat)
    requires
        start <= at <= run.len(),
    ensures
        forall|i: int|
            0 <= i < literal_from(table, run, start, at).len() ==> (#[trigger] literal_from(
                table,
                run,
                start,
                at,
            )[i]).source().len() > 0,
        forall|i: int|
            0 <= i < literal_from(table, run, start, at).len() ==> !((#[trigger] literal_from(
                table,
                run,
                start,
                at,
            )[i]) is Tag),
    decreases run.len() - at,
{
    let n: int = run.len() as int;
    if at < run.len() {
        let rest: Seq<u8> = run.subrange(at as int, n);
        lemma_first_match(table, rest, 0);
        match emoji_len(table, rest) {
            Some(len) => {
                let end: nat = at + len;
                lemma_literal_from_nonempty(table, run, end, end);
            },
            None => {
                lemma_literal_from_nonempty(table, run, start, at + 1);
            },
        }
    }
}

/// The code point that `text` begins with, read off its first byte and as
/// many bytes behind it as the first byte announces. `None` where the text
/// is empty, begins in the middle of a character, or ends too early.
pub open spec fn leading_code_point(text: Seq<u8>) -> Option<u32> {
    if text.len() == 0 || is_continuation_byte(text[0]) || text[0] > 0xf7 {
        None
    } else if text.len() < length_of_first_codepoint(text) {
        None
    } else {
        Some(decode_first_codepoint(text))
    }
}

/// Text that starts with a sequence of the table begins with the code point
/// that the sequence begins with.
pub proof fn lemma_leading_code_point(rest: Seq<u8>, entry: Seq<u8>)
    requires
        valid_utf8(entry),
        starts_with(rest, entry),
    ensures
        leading_code_point(entry) is Some,
        leading_code_point(rest) == leading_code_point(entry),
        !is_continuation_byte(rest[0]),
{
    assert(valid_first_scalar(entry));
    assert(rest[0] == entry[0]);
    let width: int = length_of_first_codepoint(entry);
    assert(entry.len() >= width);
    assert(rest.len() >= width);
    assert forall|k: int| 0 <= k < width implies rest[k] == entry[k] by {}
}

/// Reads the code point that the bytes from position `at` on begin with.
fn leading_code_point_at(bytes: &[u8], at: usize) -> (r: Option<u32>)
    requires
        at <= bytes@.len(),
    ensures
        r == leading_code_point(bytes@.subrange(at as int, bytes@.len() as int)),
{
    let n: usize = bytes.len();
    let ghost rest: Seq<u8> = bytes@.subrange(at as int, n as int);
    if at >= n {
        return None;
    }
    let b0: u8 = bytes[at];
    assert(rest[0] == b0);
    if b0 < 0x80 {
        Some((b0 & 0x7f) as u32)
    } else if b0 < 0xc0 || b0 > 0xf7 {
        None
    } else if b0 < 0xe0 {
        if n - at < 2 {
            None
        } else {
            let b1: u8 = bytes[at + 1];
            assert(rest[1] == b1);
            Some((((b0 & 0x1f) as u32) << 6) | ((b1 & 0x3f) as u32))
        }
    } else if b0 < 0xf0 {
        if n - at < 3 {
            None
        } else {
            let b1: u8 = bytes[at + 1];
            let b2: u8 = bytes[at + 2];
            assert(rest[1] == b1 && rest[2] == b2);
            Some(
                (((b0 & 0x0f) as u32) << 12) | (((b1 & 0x3f) as u32) << 6) | ((b2 & 0x3f) as u32),
            )
        }
    } else {
        if n - at < 4 {
            None
        } else {
            let b1: u8 = bytes[at + 1];
            let b2: u8 = bytes[at + 2];
            let b3: u8 = bytes[at + 3];
            assert(rest[1] == b1 && rest[2] == b2 && rest[3] == b3);
            Some(
                (((b0 & 0x07) as u32) << 18) | (((b1 & 0x3f) as u32) << 12) | (((b2 & 0x3f) as u32)
                    << 6) | ((b3 & 0x3f) as u32),
            )
        }
    }
}

/// Whether the bytes from position `at` on start with `entry`.
fn starts_with_at(bytes: &[u8], at: usize, entry: &[u8]) -> (r: bool)
    requires
        at <= bytes@.len(),
    ensures
        r == starts_with(bytes@.subrange(at as int, bytes@.len() as int), entry@),
{
    let n: usize = bytes.len();
    let len: usize = entry.len();
    let ghost rest: Seq<u8> = bytes@.subrange(at as int, n as int);
    if len == 0 || len > n - at {
        return false;
    }
    let mut i: usize = 0;
    while i < len
        invariant
            n == bytes@.len(),
            len == entry@.len(),
            at + len <= n,
            i <= len,
            rest == bytes@.subrange(at as int, n as int),
            forall|k: int| 0 <= k < i ==> entry@[k] == rest[k],
        decreases len - i,
    {
        if bytes[at + i] != entry[i] {
            assert(rest[i as int] != entry@[i as int]);
            return false;
        }
        i = i + 1;
    }
    assert(entry@ =~= rest.subrange(0, len as int));
    true
}

/// `group` lists, in ascending order, exactly those of the first `n`
/// sequences of the table that begin with the code point `key`.
spec fn is_group(table: Seq<Seq<u8>>, key: u32, group: Seq<usize>, n: int) -> bool {
    &&& forall|a: int, b: int| 0 <= a < b < group.len() ==> group[a] < group[b]
    &&& forall|a: int|
        0 <= a < group.len() ==> (#[trigger] group[a]) < n && leading_code_point(
            table[group[a] as int],
        ) == Some(key)
    &&& forall|i: int|
        0 <= i < n && leading_code_point(#[trigger] table[i]) == Some(key) ==> exists|a: int|
            0 <= a < group.len() && #[trigger] group[a] == i
}

/// `groups` holds the first `n` sequences of the table by the code point
/// that they begin with.
spec fn is_grouping(table: Seq<Seq<u8>>, groups: Map<u32, Vec<usize>>, n: int) -> bool {
    &&& 0 <= n <= table.len()
    &&& forall|key: u32| #[trigger]
        groups.contains_key(key) ==> is_group(table, key, groups[key]@, n)
    &&& forall|i: int|
        0 <= i < n ==> (leading_code_point(#[trigger] table[i]) matches Some(key)
            ==> groups.contains_key(key))
}

/// A list of known Unicode emoji sequences, in the order of their priority.
pub struct EmojiTable {
    entries: Vec<String>,
    groups: HashMap<u32, Vec<usize>>,
}

impl View for EmojiTable {
    type V = Seq<Seq<u8>>;

    /// The sequences of the table as UTF-8 bytes, in table order.
    closed spec fn view(&self) -> Seq<Seq<u8>> {
        sequence_bytes(self.entries@)
    }
}

impl EmojiTable {
    #[verifier::type_invariant]
    spec fn grouped(&self) -> bool {
        is_grouping(sequence_bytes(self.entries@), self.groups@, self.entries@.len() as int)
    }

    /// A table without any sequence: no text holds an emoji.
    pub fn new() -> (table: EmojiTable)
        ensures
            table@.len() == 0,
    {
        EmojiTable { entries: Vec::new(), groups: HashMap::new() }
    }

    /// A table of the given sequences. A sequence that comes earlier in the
    /// list has priority over a later one. The empty sequence is never
    /// found in any text.
    pub fn from_sequences(sequences: Vec<String>) -> (table: EmojiTable)
        ensures
            table@ == sequence_bytes(sequences@),
    {
        let ghost table: Seq<Seq<u8>> = sequence_bytes(sequences@);
        let mut groups: HashMap<u32, Vec<usize>> = HashMap::new();
        let mut i: usize = 0;
        while i < sequences.len()
            invariant
                i <= sequences@.len(),
                table == sequence_bytes(sequences@),
                is_grouping(table, groups@, i as int),
            decreases sequences@.len() - i,
        {
            let bytes: &[u8] = sequences[i].as_str().as_bytes();
            assert(bytes@ == table[i as int]);
            assert(bytes@.subrange(0, bytes@.len() as int) =~= bytes@);
            let ghost before: Map<u32, Vec<usize>> = groups@;
            match leading_code_point_at(bytes, 0) {
                Some(key) => {
                    let mut group: Vec<usize> = match groups.remove(&key) {
                        Some(group) => group,
                        None => Vec::new(),
                    };
                    let ghost old_group: Seq<usize> = group@;
                    assert(is_group(table, key, old_group, i as int)) by {
                        if before.contains_key(key) {
                            assert(is_group(table, key, before[key]@, i as int));
                        }
                    }
                    group.push(i);
                    assert(is_group(table, key, group@, i + 1)) by {
                        assert(group@[old_group.len() as int] == i);
                        assert forall|j: int|
                            0 <= j < i + 1 && leading_code_point(#[trigger] table[j]) == Some(
                                key,
                            ) implies exists|a: int|
                            0 <= a < group@.len() && #[trigger] group@[a] == j by {
                            if j < i {
                                let a: int = choose|a: int|
                                    0 <= a < old_group.len() && #[trigger] old_group[a] == j;
                                assert(group@[a] == j);
                            }
                        }
                    }
                    groups.insert(key, group);
                    assert(is_grouping(table, groups@, i + 1)) by {
                        assert forall|k: u32| #[trigger] groups@.contains_key(k) implies is_group(
                            table,
                            k,
                            groups@[k]@,
                            i + 1,
                        ) by {
                            if k != key {
                                assert(before.contains_key(k));
                                assert(is_group(table, k, before[k]@, i as int));
                            }
                        }
                    }
                },
                None => {
                    assert(is_grouping(table, groups@, i + 1)) by {
                        assert forall|k: u32| #[trigger] groups@.contains_key(k) implies is_group(
                            table,
                            k,
                            groups@[k]@,
                            i + 1,
                        ) by {
                            assert(is_group(table, k, before[k]@, i as int));
                        }
                    }
                },
            }
            i = i + 1;
        }
        EmojiTable { entries: sequences, groups }
    }

    /// A table of the given sequences in descending order and without
    /// duplicates, whatever the order in which they are given. In such a
    /// table every sequence stands before the sequences that it begins
    /// with, so the longest sequence that fits is the one that is found.
    pub fn sorted(sequences: Vec<String>) -> (table: EmojiTable)
        ensures
            descending(table@),
            longest_first(table@),
            forall|s: Seq<u8>| table@.contains(s) <==> sequence_bytes(sequences@).contains(s),
    {
        let table: EmojiTable = EmojiTable::from_sequences(sort_descending(sequences));
        proof {
            lemma_descending_longest_first(table@);
        }
        table
    }

    /// The number of sequences in the table.
    pub fn len(&self) -> (n: usize)
        ensures
            n == self@.len(),
    {
        self.entries.len()
    }

    /// Finds the first sequence of the table that the bytes from position
    /// `at` on start with, and returns its index in the table.
    fn match_at(&self, bytes: &[u8], at: usize) -> (r: Option<usize>)
        requires
            at <= bytes@.len(),
        ensures
            r matches Some(k) ==> first_match(
                self@,
                bytes@.subrange(at as int, bytes@.len() as int),
                0,
            ) == Some(k as int),
            r matches Some(k) ==> k < self.entries@.len(),
            r is None ==> first_match(self@, bytes@.subrange(at as int, bytes@.len() as int), 0)
                is None,
    {
        proof {
            use_type_invariant(self);
        }
        let ghost table: Seq<Seq<u8>> = self@;
        let ghost rest: Seq<u8> = bytes@.subrange(at as int, bytes@.len() as int);
        proof {
            lemma_first_match(table, rest, 0);
            assert forall|i: int| 0 <= i < table.len() implies valid_utf8(#[trigger] table[i]) by {
                encode_utf8_valid_utf8(self.entries@[i]@);
            }
        }
        let key: u32 = match leading_code_point_at(bytes, at) {
            Some(key) => key,
            None => {
                proof {
                    assert forall|i: int| 0 <= i < table.len() implies !starts_with(
                        rest,
                        #[trigger] table[i],
                    ) by {
                        if starts_with(rest, table[i]) {
                            lemma_leading_code_point(rest, table[i]);
                        }
                    }
                }
                return None;
            },
        };
        let group: &Vec<usize> = match self.groups.get(&key) {
            Some(group) => group,
            None => {
                proof {
                    assert forall|i: int| 0 <= i < table.len() implies !starts_with(
                        rest,
                        #[trigger] table[i],
                    ) by {
                        if starts_with(rest, table[i]) {
                            lemma_leading_code_point(rest, table[i]);
                        }
                    }
                }
                return None;
            },
        };
        assert(is_group(table, key, group@, table.len() as int));
        let mut j: usize = 0;
        while j < group.len()
            invariant
                j <= group@.len(),
                at <= bytes@.len(),
                table == self@,
                table.len() == self.entries@.len(),
                rest == bytes@.subrange(at as int, bytes@.len() as int),
                leading_code_point(rest) == Some(key),
                is_group(table, key, group@, table.len() as int),
                forall|i: int| 0 <= i < table.len() ==> valid_utf8(#[trigger] table[i]),
                forall|a: int| 0 <= a < j ==> !starts_with(rest, table[(#[trigger] group@[a]) as int]),
            decreases group@.len() - j,
        {
            let k: usize = group[j];
            let entry: &[u8] = self.entries[k].as_str().as_bytes();
            assert(entry@ == table[k as int]);
            if starts_with_at(bytes, at, entry) {
                proof {
                    assert forall|i: int| 0 <= i < k implies !starts_with(
                        rest,
                        #[trigger] table[i],
                    ) by {
                        if starts_with(rest, table[i]) {
                            lemma_leading_code_point(rest, table[i]);
                            let a: int = choose|a: int|
                                0 <= a < group@.len() && #[trigger] group@[a] == i;
                            if a >= j {
                                assert(group@[j as int] <= group@[a]);
                            }
                        }
                    }
                    lemma_first_match(table, rest, 0);
                }
                return Some(k);
            }
            j = j + 1;
        }
        proof {
            assert forall|i: int| 0 <= i < table.len() implies !starts_with(
                rest,
                #[trigger] table[i],
            ) by {
                if starts_with(rest, table[i]) {
                    lemma_leading_code_point(rest, table[i]);
                    let a: int = choose|a: int| 0 <= a < group@.len() && #[trigger] group@[a] == i;
                }
            }
            lemma_first_match(table, rest, 0);
        }
        None
    }

    /// The length in bytes of the emoji that `text` holds at byte position
    /// `at`, if it holds one there: that of the first sequence of the table
    /// that the text continues with from there.
    pub fn find_at(&self, text: &str, at: usize) -> (r: Option<usize>)
        ensures
            at <= text.spec_bytes().len() ==> match r {
                Some(len) => emoji_len(
                    self@,
                    text.spec_bytes().subrange(at as int, text.spec_bytes().len() as int),
                ) == Some(len as nat),
                None => emoji_len(
                    self@,
                    text.spec_bytes().subrange(at as int, text.spec_bytes().len() as int),
                ) is None,
            },
            at > text.spec_bytes().len() ==> r is None,
    {
        let bytes: &[u8] = text.as_bytes();
        if at > bytes.len() {
            return None;
        }
        match self.match_at(bytes, at) {
            Some(k) => {
                proof {
                    lemma_first_match(self@, bytes@.subrange(at as int, bytes@.len() as int), 0);
                }
                Some(self.entries[k].as_str().len())
            },
            None => None,
        }
    }
}

/// Splits a literal run of text into emoji and the text between them, and
/// appends the parts to `parts`: each emoji as a `UnicodeEmoji`, each
/// non-empty stretch between emoji as a `PlainText`.
pub fn parse_unicode<'a>(table: &EmojiTable, parts: &mut Vec<MessagePart<'a>>, s: &'a str)
    ensures
        part_views(final(parts)@) == part_views(old(parts)@) + segment_parts(
            literal_segments(table@, s.spec_bytes()),
        ),
{
    let bytes: &[u8] = s.as_bytes();
    let n: usize = bytes.len();
    let ghost run: Seq<u8> = s.spec_bytes();
    let ghost done: Seq<Segment> = Seq::empty();
    let mut start: usize = 0;
    let mut at: usize = 0;
    proof {
        lemma_str_is_utf8(s);
        is_char_boundary_start_end_of_seq(run);
        assert(part_views(parts@) + segment_parts(done) =~= part_views(parts@));
        assert(done + literal_from(table@, run, 0, 0) =~= literal_segments(table@, run));
    }
    while at < n
        invariant
            start <= at <= n,
            n == run.len(),
            run == s.spec_bytes(),
            bytes@ == run,
            valid_utf8(run),
            is_char_boundary(run, start as int),
            part_views(parts@) == part_views(old(parts)@) + segment_parts(done),
            done + literal_from(table@, run, start as nat, at as nat) == literal_segments(
                table@,
                run,
            ),
        decreases n - at,
    {
        let ghost rest: Seq<u8> = run.subrange(at as int, n as int);
        match table.match_at(bytes, at) {
            Some(k) => {
                let len: usize = table.entries[k].as_str().len();
                let ghost entry: Seq<u8> = table@[k as int];
                let ghost emoji: Segment = Segment::Emoji(run.subrange(at as int, at + len));
                let ghost text: Seq<Segment> = text_between(run, start as int, at as int);
                proof {
                    lemma_first_match(table@, rest, 0);
                    encode_utf8_valid_utf8(table.entries@[k as int]@);
                    assert(starts_with(rest, entry));
                    assert(emoji_len(table@, rest) == Some(len as nat));
                    // The emoji begins and ends between characters.
                    lemma_leading_code_point(rest, entry);
                    assert(rest[0] == run[at as int]);
                    is_char_boundary_iff_not_is_continuation_byte(run, at as int);
                    valid_utf8_split(run, at as int);
                    lemma_prefix_boundary(entry, rest);
                    lemma_boundary_in_tail(run, at as int, at + len);
                    assert(literal_from(table@, run, start as nat, at as nat) == text + seq![emoji]
                        + literal_from(table@, run, (at + len) as nat, (at + len) as nat));
                }
                if start < at {
                    let plain: &'a str = slice_str(s, start, at);
                    proof {
                        lemma_part_views_push(parts@, MessagePart::PlainText(plain));
                    }
                    parts.push(MessagePart::PlainText(plain));
                }
                assert(part_views(parts@) =~= part_views(old(parts)@) + segment_parts(done + text));
                let found: &'a str = slice_str(s, at, at + len);
                proof {
                    lemma_part_views_push(parts@, MessagePart::UnicodeEmoji(found));
                }
                parts.push(MessagePart::UnicodeEmoji(found));
                proof {
                    assert(part_views(parts@) =~= part_views(old(parts)@) + segment_parts(
                        done + text + seq![emoji],
                    ));
                    assert((done + text + seq![emoji]) + literal_from(
                        table@,
                        run,
                        (at + len) as nat,
                        (at + len) as nat,
                    ) =~= done + (text + seq![emoji] + literal_from(
                        table@,
                        run,
                        (at + len) as nat,
                        (at + len) as nat,
                    )));
                    done = done + text + seq![emoji];
                }
                start = at + len;
                at = start;
            },
            None => {
                proof {
                    assert(emoji_len(table@, rest) is None);
                }
                at = at + 1;
            },
        }
    }
    let ghost text: Seq<Segment> = text_between(run, start as int, n as int);
    proof {
        assert(literal_from(table@, run, start as nat, at as nat) == text);
        is_char_boundary_start_end_of_seq(run);
    }
    if start < n {
        let plain: &'a str = slice_str(s, start, n);
        proof {
            lemma_part_views_push(parts@, MessagePart::PlainText(plain));
        }
        parts.push(MessagePart::PlainText(plain));
    }
    proof {
        assert(part_views(parts@) =~= part_views(old(parts)@) + segment_parts(done + text));
    }
}

} // verus!
