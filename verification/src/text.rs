//! Text that the protocol writes and reads: decimal numbers, hex digests
//! and the characters of a string.

use vstd::prelude::*;
use crate::KEY_LEN;

verus! {

/// Assumed of `String::push`: it appends the character and changes
/// nothing else.
pub assume_specification[ String::push ](s: &mut String, ch: char)
    ensures
        final(s)@ == old(s)@.push(ch),
;

/// Assumed of `str::to_ascii_uppercase`: it returns the string with the
/// ASCII letters `a` to `z` replaced by `A` to `Z` and every other
/// character kept.
pub assume_specification[ str::to_ascii_uppercase ](s: &str) -> (upper: String)
    ensures
        upper@ == to_upper(s@),
;

/// A character with the ASCII letters `a` to `z` turned to upper case.
pub open spec fn ascii_upper(c: char) -> char {
    if 97 <= c as u32 <= 122 {
        ((c as u32 - 32) as u8) as char
    } else {
        c
    }
}

/// A text with its ASCII letters turned to upper case.
pub open spec fn to_upper(s: Seq<char>) -> Seq<char> {
    Seq::new(s.len(), |i: int| ascii_upper(s[i]))
}

/// The lower-case hex digit for a value below 16.
pub open spec fn hex_digit_lower(n: u8) -> char {
    if n < 10 {
        ((48 + n) as u8) as char
    } else {
        ((87 + n) as u8) as char
    }
}

/// Bytes in lower-case hex: two digits a byte, the high half first.
pub open spec fn hex_lower(bytes: Seq<u8>) -> Seq<char> {
    Seq::new(
        2 * bytes.len(),
        |i: int|
            if i % 2 == 0 {
                hex_digit_lower(bytes[i / 2] >> 4)
            } else {
                hex_digit_lower(bytes[i / 2] & 0x0f)
            },
    )
}

/// Calls `hex::encode`. Trusted, not proved: the text returned holds two
/// lower-case hex digits for each byte, in order, the high half of a byte
/// first.
#[verifier::external_body]
pub(crate) fn hex_encode(bytes: &[u8; KEY_LEN]) -> (text: String)
    ensures
        text@ == hex_lower(bytes@),
{
    hex::encode(bytes)
}

/// The characters of a string, in order.
pub fn chars_of(s: &str) -> (v: Vec<char>)
    ensures
        v@ == s@,
{
    let mut v: Vec<char> = Vec::new();
    for c in it: s.chars()
        invariant
            v@ == it.seq().take(it.index() as int),
            it.seq() == s@,
    {
        v.push(c);
    }
    v
}

/// The character that writes the digit `d`.
pub open spec fn digit_char(d: nat) -> char {
    ((48 + d) as u8) as char
}

/// A number in decimal, without sign or leading zeros.
pub open spec fn decimal(n: nat) -> Seq<char>
    decreases n,
{
    if n < 10 {
        seq![digit_char(n)]
    } else {
        decimal(n / 10).push(digit_char(n % 10))
    }
}

/// Appends `n` in decimal.
pub fn push_decimal(s: &mut String, n: u16)
    ensures
        final(s)@ == old(s)@ + decimal(n as nat),
    decreases n,
{
    if n >= 10 {
        push_decimal(s, n / 10);
    }
    let digit: u8 = (n % 10) as u8;
    s.push((48u8 + digit) as char);
}

/// The character that writes a digit below 16, letters in upper case.
pub open spec fn upper_digit(d: nat) -> char {
    if d < 10 {
        ((48 + d) as u8) as char
    } else {
        ((55 + d) as u8) as char
    }
}

/// A number in upper-case hex where `hex` holds, else in binary, without
/// leading zeros.
pub open spec fn digits(n: nat, hex: bool) -> Seq<char>
    decreases n,
{
    if hex {
        if n < 16 {
            seq![upper_digit(n)]
        } else {
            digits(n / 16, hex).push(upper_digit(n % 16))
        }
    } else {
        if n < 2 {
            seq![upper_digit(n)]
        } else {
            digits(n / 2, hex).push(upper_digit(n % 2))
        }
    }
}

/// Bytes written one after the other, in hex or in binary, each without
/// leading zeros and with nothing between them.
pub open spec fn bytes_written(bytes: Seq<u8>, hex: bool) -> Seq<char>
    decreases bytes.len(),
{
    if bytes.len() == 0 {
        Seq::empty()
    } else {
        bytes_written(bytes.drop_last(), hex) + digits(bytes.last() as nat, hex)
    }
}

/// Appends `n`, in hex or in binary.
pub fn push_digits(s: &mut String, n: u8, hex: bool)
    ensures
        final(s)@ == old(s)@ + digits(n as nat, hex),
    decreases n,
{
    let radix: u8 = if hex {
        16
    } else {
        2
    };
    if n >= radix {
        push_digits(s, n / radix, hex);
    }
    let digit: u8 = n % radix;
    if digit < 10 {
        s.push((48u8 + digit) as char);
    } else {
        s.push((55u8 + digit) as char);
    }
}

/// Writes 32 bytes one after the other, in hex or in binary.
pub fn write_bytes(bytes: &[u8; KEY_LEN], hex: bool) -> (text: String)
    ensures
        text@ == bytes_written(bytes@, hex),
{
    let mut text = String::new();
    let mut i: usize = 0;
    while i < KEY_LEN
        invariant
            i <= KEY_LEN,
            text@ == bytes_written(bytes@.take(i as int), hex),
        decreases KEY_LEN - i,
    {
        assert(bytes@.take(i + 1).drop_last() =~= bytes@.take(i as int));
        push_digits(&mut text, bytes[i], hex);
        i += 1;
    }
    assert(bytes@.take(KEY_LEN as int) =~= bytes@);
    text
}

/// Whether a character is one of `0` to `9`.
pub open spec fn is_digit(c: char) -> bool {
    48 <= c as u32 <= 57
}

/// Whether a text holds nothing but digits.
pub open spec fn all_digits(t: Seq<char>) -> bool {
    forall|i: int| 0 <= i < t.len() ==> is_digit(#[trigger] t[i])
}

/// The number that a string of digits writes; leading zeros count for nothing.
pub open spec fn decimal_value(t: Seq<char>) -> nat
    decreases t.len(),
{
    if t.len() == 0 {
        0
    } else {
        decimal_value(t.drop_last()) * 10 + (t.last() as u32 - 48) as nat
    }
}

/// A text without the `+` that it may start with.
pub open spec fn strip_plus(t: Seq<char>) -> Seq<char> {
    if t.len() > 0 && t[0] == '+' {
        t.drop_first()
    } else {
        t
    }
}

/// What a text denotes as a 16-bit number: an optional `+`, then at least
/// one digit, the whole at most 65535.
pub open spec fn parse_u16(t: Seq<char>) -> Option<u16> {
    let digits = strip_plus(t);
    if digits.len() > 0 && all_digits(digits) && decimal_value(digits) <= u16::MAX {
        Some(decimal_value(digits) as u16)
    } else {
        None
    }
}

/// More digits never write a smaller number.
pub proof fn lemma_decimal_value_grows(t: Seq<char>, k: int)
    requires
        all_digits(t),
        0 <= k <= t.len(),
    ensures
        decimal_value(t.take(k)) <= decimal_value(t),
    decreases t.len(),
{
    if k == t.len() {
        assert(t.take(k) =~= t);
    } else {
        lemma_decimal_value_grows(t.drop_last(), k);
        assert(t.drop_last().take(k) =~= t.take(k));
    }
}

/// A number in decimal is digits, at least one, and reads back as the
/// number.
pub proof fn lemma_decimal_reads_back(n: nat)
    ensures
        decimal(n).len() >= 1,
        all_digits(decimal(n)),
        decimal_value(decimal(n)) == n,
    decreases n,
{
    if n < 10 {
        let s = decimal(n);
        assert(decimal_value(s.drop_last()) == 0);
    } else {
        lemma_decimal_reads_back(n / 10);
        let init = decimal(n / 10);
        let s = decimal(n);
        assert(s.drop_last() =~= init);
    }
}

/// A port in decimal reads back as the port.
pub proof fn lemma_port_reads_back(port: u16)
    ensures
        parse_u16(decimal(port as nat)) == Some(port),
{
    lemma_decimal_reads_back(port as nat);
}

/// Reads the characters from `from` up to `to` as a 16-bit number.
pub fn parse_port(chars: &Vec<char>, from: usize, to: usize) -> (r: Option<u16>)
    requires
        from <= to <= chars.len(),
    ensures
        r == parse_u16(chars@.subrange(from as int, to as int)),
{
    let mut i: usize = from;
    if from < to && chars[from] == '+' {
        i = from + 1;
    }
    let start = i;
    let ghost digits = chars@.subrange(start as int, to as int);
    if start == to {
        return None;
    }
    let mut acc: u32 = 0;
    while i < to
        invariant
            start <= i <= to <= chars.len(),
            from <= start < to,
            digits == chars@.subrange(start as int, to as int),
            digits == strip_plus(chars@.subrange(from as int, to as int)),
            all_digits(digits.take(i - start)),
            acc == decimal_value(digits.take(i - start)),
            acc <= u16::MAX,
        decreases to - i,
    {
        let c = chars[i] as u32;
        let ghost next = digits.take(i - start + 1);
        assert(next.drop_last() =~= digits.take(i - start));
        assert(next.last() == chars@[i as int]);
        if c < 48 || c > 57 {
            return None;
        }
        acc = acc * 10 + (c - 48);
        if acc > 65535 {
            proof {
                if all_digits(digits) {
                    lemma_decimal_value_grows(digits, i - start + 1);
                }
            }
            return None;
        }
        i += 1;
    }
    assert(digits.take(to - start) =~= digits);
    Some(acc as u16)
}

} // verus!
