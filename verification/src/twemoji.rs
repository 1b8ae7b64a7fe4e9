//! Emoji sequences from the names of Twemoji image files.
//!
//! A file is named after the code points of its emoji, in lower-case
//! hexadecimal with `-` between them, as in `1f468-200d-1f469.svg`.

use vstd::prelude::*;
use vstd::slice::slice_subrange;
use vstd::string::*;
use vstd::utf8::{char_u32_cast, encode_utf8, is_scalar};
use crate::emoji::{longest_first, EmojiTable};
use crate::order::{descending, sequence_bytes};
use crate::text::{find_byte, index_of, lemma_index_of};

verus! {

/// `-`, which separates the code points of a file name.
pub const DASH: u8 = 0x2d;

/// A lower-case hexadecimal digit.
pub open spec fn is_hex(b: u8) -> bool {
    0x30 <= b <= 0x39 || 0x61 <= b <= 0x66
}

/// The value of a hexadecimal digit.
pub open spec fn hex_digit(b: u8) -> nat {
    if b <= 0x39 {
        (b - 0x30) as nat
    } else {
        (b - 0x61 + 10) as nat
    }
}

/// Every byte of `s` is a hexadecimal digit.
pub open spec fn all_hex(s: Seq<u8>) -> bool {
    forall|i: int| 0 <= i < s.len() ==> is_hex(#[trigger] s[i])
}

/// The number that the hexadecimal digits of `s` denote.
pub open spec fn hex_value(s: Seq<u8>) -> nat
    decreases s.len(),
{
    if s.len() == 0 {
        0
    } else {
        hex_value(s.drop_last()) * 16 + hex_digit(s.last())
    }
}

/// The code point that one to six hexadecimal digits denote, where they
/// denote one.
pub open spec fn code_point(group: Seq<u8>) -> Option<char> {
    if 1 <= group.len() <= 6 && all_hex(group) && is_scalar(hex_value(group) as u32) {
        Some(hex_value(group) as u32 as char)
    } else {
        None
    }
}

/// The code points that `stem` names from position `from` on, with `-`
/// between them.
pub open spec fn code_points(stem: Seq<u8>, from: nat) -> Option<Seq<char>>
    decreases stem.len() - from,
    via code_points_decreases
{
    let dash = index_of(stem, DASH, from as int);
    if from > stem.len() {
        None
    } else {
        match code_point(stem.subrange(from as int, dash)) {
            None => None,
            Some(first) => if dash >= stem.len() {
                Some(seq![first])
            } else {
                match code_points(stem, (dash + 1) as nat) {
                    Some(rest) => Some(seq![first] + rest),
                    None => None,
                }
            },
        }
    }
}

#[via_fn]
proof fn code_points_decreases(stem: Seq<u8>, from: nat) {
    lemma_index_of(stem, DASH, from as int);
}

/// The sequence that a file name stands for: the code points that the name
/// lists in front of `.svg`.
pub open spec fn file_name_sequence(name: Seq<u8>) -> Option<Seq<char>> {
    if name.len() >= 4 && name.subrange(name.len() - 4, name.len() as int) == seq![
        0x2eu8,
        0x73u8,
        0x76u8,
        0x67u8,
    ] {
        code_points(name.subrange(0, name.len() - 4), 0)
    } else {
        None
    }
}

/// What `char::from_u32` returns, as its documentation says it: the `char`
/// of the number, for every number that is a Unicode scalar value, and
/// `None` for every other.
pub assume_specification[ char::from_u32 ](i: u32) -> (r: Option<char>)
    ensures
        r is Some <==> is_scalar(i),
        r matches Some(c) ==> c as u32 == i,
;

/// What `String::push` does, as its documentation says it: it appends the
/// `char` to the end of the string.
pub assume_specification[ String::push ](s: &mut String, ch: char)
    ensures
        final(s)@ == old(s)@.push(ch),
;

/// The power of 16 that lies above every number of `digits` hexadecimal
/// digits.
pub open spec fn hex_limit(digits: nat) -> nat
    decreases digits,
{
    if digits == 0 {
        1
    } else {
        16 * hex_limit((digits - 1) as nat)
    }
}

/// A hexadecimal number lies below the limit of its number of digits.
proof fn lemma_hex_value_bound(s: Seq<u8>)
    requires
        all_hex(s),
    ensures
        hex_value(s) < hex_limit(s.len()),
    decreases s.len(),
{
    if s.len() > 0 {
        assert(is_hex(s[s.len() - 1]));
        assert forall|i: int| 0 <= i < s.drop_last().len() implies is_hex(
            #[trigger] s.drop_last()[i],
        ) by {
            assert(s.drop_last()[i] == s[i]);
        }
        lemma_hex_value_bound(s.drop_last());
    }
}

/// Reads the bytes `from..to` as the hexadecimal number of a code point.
fn read_code_point(bytes: &[u8], from: usize, to: usize) -> (r: Option<char>)
    requires
        from <= to <= bytes@.len(),
    ensures
        r == code_point(bytes@.subrange(from as int, to as int)),
{
    let ghost group: Seq<u8> = bytes@.subrange(from as int, to as int);
    if to - from < 1 || to - from > 6 {
        return None;
    }
    let mut value: u32 = 0;
    let mut i: usize = from;
    while i < to
        invariant
            from <= i <= to <= bytes@.len(),
            to - from <= 6,
            group == bytes@.subrange(from as int, to as int),
            all_hex(group.subrange(0, i - from)),
            value == hex_value(group.subrange(0, i - from)),
        decreases to - i,
    {
        let b: u8 = bytes[i];
        let ghost seen: Seq<u8> = group.subrange(0, i - from);
        let ghost next: Seq<u8> = group.subrange(0, i + 1 - from);
        proof {
            assert(group[i - from] == b);
            assert(next.drop_last() =~= seen);
            assert(next.last() == b);
            lemma_hex_value_bound(seen);
            reveal_with_fuel(hex_limit, 7);
            assert(seen.len() <= 5);
            assert(hex_limit(seen.len()) <= 0x10_0000);
        }
        let digit: u32 = if 0x30 <= b && b <= 0x39 {
            (b - 0x30) as u32
        } else if 0x61 <= b && b <= 0x66 {
            (b - 0x61) as u32 + 10
        } else {
            return None;
        };
        value = value * 16 + digit;
        i = i + 1;
    }
    proof {
        assert(group.subrange(0, to - from) =~= group);
    }
    let r: Option<char> = char::from_u32(value);
    proof {
        if let Some(c) = r {
            char_u32_cast(c, value);
        }
    }
    r
}

/// Reads the name of an image file as the emoji sequence that it stands
/// for. `None` where the name is not a list of code points followed by
/// `.svg`.
pub fn sequence_of_file_name(name: &str) -> (r: Option<String>)
    ensures
        r matches Some(sequence) ==> file_name_sequence(name.spec_bytes()) == Some(sequence@),
        r is None ==> file_name_sequence(name.spec_bytes()) is None,
{
    let bytes: &[u8] = name.as_bytes();
    let len: usize = bytes.len();
    if len < 4 || bytes[len - 4] != 0x2e || bytes[len - 3] != 0x73 || bytes[len - 2] != 0x76
        || bytes[len - 1] != 0x67 {
        proof {
            if len >= 4 {
                let ending: Seq<u8> = bytes@.subrange(len - 4, len as int);
                assert(ending[0] == bytes@[len - 4] && ending[1] == bytes@[len - 3] && ending[2]
                    == bytes@[len - 2] && ending[3] == bytes@[len - 1]);
            }
        }
        return None;
    }
    proof {
        assert(bytes@.subrange(len - 4, len as int) =~= seq![0x2eu8, 0x73u8, 0x76u8, 0x67u8]);
    }
    let stem: &[u8] = slice_subrange(bytes, 0, len - 4);
    let n: usize = stem.len();
    let mut out: String = String::new();
    let mut from: usize = 0;
    loop
        invariant
            from <= n,
            n == stem@.len(),
            match code_points(stem@, from as nat) {
                Some(rest) => code_points(stem@, 0) == Some(out@ + rest),
                None => code_points(stem@, 0) is None,
            },
            file_name_sequence(name.spec_bytes()) == code_points(stem@, 0),
        decreases n - from,
    {
        let dash: usize = find_byte(stem, DASH, from);
        proof {
            lemma_index_of(stem@, DASH, from as int);
        }
        match read_code_point(stem, from, dash) {
            None => {
                return None;
            },
            Some(first) => {
                let ghost before: Seq<char> = out@;
                out.push(first);
                if dash >= n {
                    proof {
                        assert(before + seq![first] =~= out@);
                    }
                    return Some(out);
                }
                proof {
                    match code_points(stem@, (dash + 1) as nat) {
                        Some(rest) => {
                            assert(before + (seq![first] + rest) =~= out@ + rest);
                        },
                        None => {},
                    }
                }
                from = dash + 1;
            },
        }
    }
}

/// The bytes of the sequence that a file name stands for.
pub open spec fn named_bytes(name: String) -> Option<Seq<u8>> {
    match file_name_sequence(encode_utf8(name@)) {
        Some(sequence) => Some(encode_utf8(sequence)),
        None => None,
    }
}

/// The table of the emoji that a list of image files shows, longest
/// sequence first. `None` where one of the names does not read as a
/// sequence.
pub fn table_of_file_names(names: &Vec<String>) -> (r: Option<EmojiTable>)
    ensures
        r is Some <==> forall|k: int| 0 <= k < names@.len() ==> named_bytes(names@[k]) is Some,
        r matches Some(table) ==> {
            &&& descending(table@)
            &&& longest_first(table@)
            &&& forall|s: Seq<u8>|
                table@.contains(s) <==> exists|k: int|
                    0 <= k < names@.len() && #[trigger] named_bytes(names@[k]) == Some(s)
        },
{
    let mut sequences: Vec<String> = Vec::new();
    let mut i: usize = 0;
    while i < names.len()
        invariant
            i <= names@.len(),
            sequences@.len() == i,
            forall|k: int|
                0 <= k < i ==> #[trigger] named_bytes(names@[k]) == Some(
                    encode_utf8(sequences@[k]@),
                ),
        decreases names@.len() - i,
    {
        match sequence_of_file_name(names[i].as_str()) {
            Some(sequence) => {
                sequences.push(sequence);
            },
            None => {
                assert(named_bytes(names@[i as int]) is None);
                return None;
            },
        }
        i = i + 1;
    }
    let ghost listed: Seq<Seq<u8>> = sequence_bytes(sequences@);
    let table: EmojiTable = EmojiTable::sorted(sequences);
    proof {
        assert forall|s: Seq<u8>| table@.contains(s) <==> exists|k: int|
            0 <= k < names@.len() && #[trigger] named_bytes(names@[k]) == Some(s) by {
            if table@.contains(s) {
                let k: int = choose|k: int| 0 <= k < listed.len() && listed[k] == s;
                assert(named_bytes(names@[k]) == Some(s));
            }
            if exists|k: int| 0 <= k < names@.len() && #[trigger] named_bytes(names@[k]) == Some(s) {
                let k: int = choose|k: int|
                    0 <= k < names@.len() && #[trigger] named_bytes(names@[k]) == Some(s);
                assert(listed[k] == s);
            }
        }
    }
    Some(table)
}

} // verus!
