//! Decimal numbers: reading the numeric fields of a tag, and writing counts
//! and clock fields into rendered text.

use vstd::prelude::*;
use vstd::slice::slice_subrange;
use vstd::string::*;
use crate::text::MINUS;

verus! {

/// An ASCII decimal digit.
pub open spec fn is_digit(b: u8) -> bool {
    0x30 <= b <= 0x39
}

/// Every byte of `s` is a decimal digit.
pub open spec fn all_digits(s: Seq<u8>) -> bool {
    forall|i: int| 0 <= i < s.len() ==> is_digit(#[trigger] s[i])
}

/// The number that the digits of `s` denote, most significant digit first.
pub open spec fn decimal_value(s: Seq<u8>) -> nat
    decreases s.len(),
{
    if s.len() == 0 {
        0
    } else {
        decimal_value(s.drop_last()) * 10 + (s.last() - 0x30) as nat
    }
}

/// A number of at most `limit`, written as one or more digits.
pub open spec fn parse_bounded(s: Seq<u8>, limit: nat) -> Option<nat> {
    if s.len() > 0 && all_digits(s) && decimal_value(s) <= limit {
        Some(decimal_value(s))
    } else {
        None
    }
}

/// An identifier: one or more digits whose value fits in 64 bits.
pub open spec fn parse_id(s: Seq<u8>) -> Option<u64> {
    match parse_bounded(s, u64::MAX as nat) {
        Some(v) => Some(v as u64),
        None => None,
    }
}

/// A number of seconds: one or more digits, with `-` in front for a negative
/// number, whose value fits in a signed 64-bit integer.
pub open spec fn parse_seconds(s: Seq<u8>) -> Option<i64> {
    if s.len() > 0 && s[0] == MINUS {
        match parse_bounded(s.subrange(1, s.len() as int), 0x8000_0000_0000_0000) {
            Some(v) => Some((-(v as int)) as i64),
            None => None,
        }
    } else {
        match parse_bounded(s, i64::MAX as nat) {
            Some(v) => Some(v as i64),
            None => None,
        }
    }
}

/// Digits in front of a number never denote more than the whole number.
pub proof fn lemma_decimal_value_grows(s: Seq<u8>, k: int)
    requires
        0 <= k <= s.len(),
    ensures
        decimal_value(s.subrange(0, k)) <= decimal_value(s),
    decreases s.len() - k,
{
    if k == s.len() {
        assert(s.subrange(0, k) =~= s);
    } else {
        lemma_decimal_value_grows(s.drop_last(), k);
        assert(s.drop_last().subrange(0, k) =~= s.subrange(0, k));
    }
}

/// Reads the digits of `field` as a number of at most `limit`.
pub fn read_bounded(field: &[u8], limit: u64) -> (r: Option<u64>)
    ensures
        r matches Some(v) ==> parse_bounded(field@, limit as nat) == Some(v as nat),
        r is None ==> parse_bounded(field@, limit as nat) is None,
{
    let n: usize = field.len();
    if n == 0 {
        return None;
    }
    let mut value: u64 = 0;
    let mut i: usize = 0;
    while i < n
        invariant
            i <= n,
            n == field@.len(),
            all_digits(field@.subrange(0, i as int)),
            value == decimal_value(field@.subrange(0, i as int)),
            value <= limit,
        decreases n - i,
    {
        let b: u8 = field[i];
        let ghost seen: Seq<u8> = field@.subrange(0, i as int);
        let ghost next: Seq<u8> = field@.subrange(0, i + 1);
        proof {
            assert(next.drop_last() =~= seen);
            assert(next.last() == b);
            lemma_decimal_value_grows(field@, i + 1);
        }
        if b < 0x30 || b > 0x39 {
            return None;
        }
        let digit: u64 = (b - 0x30) as u64;
        if value > limit / 10 {
            return None;
        }
        if digit > limit - value * 10 {
            return None;
        }
        value = value * 10 + digit;
        i = i + 1;
    }
    proof {
        assert(field@.subrange(0, n as int) =~= field@);
    }
    Some(value)
}

/// Reads `field` as an identifier.
pub fn read_id(field: &[u8]) -> (r: Option<u64>)
    ensures
        r == parse_id(field@),
{
    read_bounded(field, u64::MAX)
}

/// Reads `field` as a signed number of seconds.
pub fn read_seconds(field: &[u8]) -> (r: Option<i64>)
    ensures
        r == parse_seconds(field@),
{
    if field.len() > 0 && field[0] == MINUS {
        match read_bounded(slice_subrange(field, 1, field.len()), 0x8000_0000_0000_0000) {
            Some(v) => {
                if v == 0x8000_0000_0000_0000 {
                    Some(i64::MIN)
                } else {
                    Some(-(v as i64))
                }
            },
            None => None,
        }
    } else {
        match read_bounded(field, 0x7fff_ffff_ffff_ffff) {
            Some(v) => Some(v as i64),
            None => None,
        }
    }
}

/// The character of a digit.
pub open spec fn digit_char(d: nat) -> char {
    if d == 0 {
        '0'
    } else if d == 1 {
        '1'
    } else if d == 2 {
        '2'
    } else if d == 3 {
        '3'
    } else if d == 4 {
        '4'
    } else if d == 5 {
        '5'
    } else if d == 6 {
        '6'
    } else if d == 7 {
        '7'
    } else if d == 8 {
        '8'
    } else {
        '9'
    }
}

/// A number in decimal, without leading zeros.
pub open spec fn decimal_text(n: nat) -> Seq<char>
    decreases n,
{
    if n < 10 {
        seq![digit_char(n)]
    } else {
        decimal_text(n / 10).push(digit_char(n % 10))
    }
}

/// A run of `count` zeros.
pub open spec fn zeros(count: nat) -> Seq<char> {
    Seq::new(count, |i: int| '0')
}

/// A number in decimal, with zeros in front up to `width` digits.
pub open spec fn zero_padded(n: nat, width: nat) -> Seq<char> {
    let digits = decimal_text(n);
    if digits.len() >= width {
        digits
    } else {
        zeros((width - digits.len()) as nat) + digits
    }
}

fn digit_str(d: u64) -> (r: &'static str)
    requires
        d < 10,
    ensures
        r@ == seq![digit_char(d as nat)],
{
    proof {
        reveal_strlit("0");
        reveal_strlit("1");
        reveal_strlit("2");
        reveal_strlit("3");
        reveal_strlit("4");
        reveal_strlit("5");
        reveal_strlit("6");
        reveal_strlit("7");
        reveal_strlit("8");
        reveal_strlit("9");
    }
    let r: &'static str = if d == 0 {
        "0"
    } else if d == 1 {
        "1"
    } else if d == 2 {
        "2"
    } else if d == 3 {
        "3"
    } else if d == 4 {
        "4"
    } else if d == 5 {
        "5"
    } else if d == 6 {
        "6"
    } else if d == 7 {
        "7"
    } else if d == 8 {
        "8"
    } else {
        "9"
    };
    assert(r@ =~= seq![digit_char(d as nat)]);
    r
}

/// Appends `n` in decimal to `out`.
pub fn push_decimal(out: &mut String, n: u64)
    ensures
        final(out)@ == old(out)@ + decimal_text(n as nat),
    decreases n,
{
    if n >= 10 {
        push_decimal(out, n / 10);
    }
    out.append(digit_str(n % 10));
    proof {
        if n >= 10 {
            assert(final(out)@ =~= old(out)@ + decimal_text(n as nat));
        } else {
            assert(final(out)@ =~= old(out)@ + decimal_text(n as nat));
        }
    }
}

/// The number of digits of `n` in decimal.
pub fn decimal_len(n: u64) -> (r: usize)
    ensures
        r == decimal_text(n as nat).len(),
        1 <= r <= 20,
    decreases n,
{
    if n >= 10 {
        let rest: usize = decimal_len(n / 10);
        proof {
            lemma_decimal_len_bound(n as nat);
        }
        rest + 1
    } else {
        1
    }
}

/// A number below `10^k` has at most `k` digits; a 64-bit number has at most 20.
pub proof fn lemma_decimal_len_bound(n: nat)
    requires
        n <= u64::MAX,
    ensures
        decimal_text(n).len() <= 20,
{
    reveal_with_fuel(decimal_text, 21);
}

/// Appends `n` in decimal to `out`, with zeros in front up to `width` digits.
pub fn push_zero_padded(out: &mut String, n: u64, width: usize)
    ensures
        final(out)@ == old(out)@ + zero_padded(n as nat, width as nat),
{
    let len: usize = decimal_len(n);
    let mut i: usize = len;
    while i < width
        invariant
            len <= i,
            i == len || i <= width,
            out@ == old(out)@ + zeros((i - len) as nat),
        decreases width - i,
    {
        proof {
            reveal_strlit("0");
        }
        out.append("0");
        i = i + 1;
        proof {
            assert(out@ =~= old(out)@ + zeros((i - len) as nat));
        }
    }
    let ghost fill: Seq<char> = zeros((i - len) as nat);
    push_decimal(out, n);
    proof {
        let digits: Seq<char> = decimal_text(n as nat);
        assert(out@ == (old(out)@ + fill) + digits);
        if digits.len() >= width {
            assert(fill =~= Seq::<char>::empty());
            assert(old(out)@ + fill =~= old(out)@);
        } else {
            assert(zero_padded(n as nat, width as nat) == fill + digits);
            assert((old(out)@ + fill) + digits =~= old(out)@ + (fill + digits));
        }
    }
}

} // verus!
