//! Hexadecimal text for object ids.
//!
//! An id is a digest written as lowercase hexadecimal, two characters for each
//! byte. This module writes and reads such text, and proves that reading
//! undoes writing.

use crate::text::ascii_text;
use crate::text::is_ascii_bytes;
use crate::text::lemma_ascii_utf8;
use crate::text::text_of_utf8;
use crate::text::to_chars;
use vstd::prelude::*;
use vstd::string::*;

verus! {

/// The lowercase hexadecimal digit for `n`, where `n < 16`.
pub open spec fn hex_digit(n: int) -> char {
    if n < 10 {
        ((48 + n) as u8) as char
    } else {
        ((87 + n) as u8) as char
    }
}

/// Whether `c` is a hexadecimal digit of either case.
pub open spec fn is_hex_char(c: char) -> bool {
    ('0' <= c && c <= '9') || ('a' <= c && c <= 'f') || ('A' <= c && c <= 'F')
}

/// Whether `c` is a digit or a lowercase letter from `a` to `f`.
pub open spec fn is_lower_hex_char(c: char) -> bool {
    ('0' <= c && c <= '9') || ('a' <= c && c <= 'f')
}

/// The value of the hexadecimal digit `c`.
pub open spec fn hex_value(c: char) -> int {
    if '0' <= c && c <= '9' {
        c as int - 48
    } else if 'a' <= c && c <= 'f' {
        c as int - 87
    } else {
        c as int - 55
    }
}

/// `bytes` written as lowercase hexadecimal.
pub open spec fn hex_string(bytes: Seq<u8>) -> Seq<char> {
    Seq::new(
        2 * bytes.len(),
        |i: int|
            if i % 2 == 0 {
                hex_digit(bytes[i / 2] as int / 16)
            } else {
                hex_digit(bytes[i / 2] as int % 16)
            },
    )
}

/// Whether `s` is hexadecimal text for whole bytes: digits only, an even number of them.
pub open spec fn is_hex_string(s: Seq<char>) -> bool {
    s.len() % 2 == 0 && forall|i: int| 0 <= i < s.len() ==> is_hex_char(#[trigger] s[i])
}

/// Whether `s` is what `hex_string` writes: lowercase digits only, an even number of them.
pub open spec fn is_lower_hex_string(s: Seq<char>) -> bool {
    s.len() % 2 == 0 && forall|i: int| 0 <= i < s.len() ==> is_lower_hex_char(#[trigger] s[i])
}

/// The bytes that the hexadecimal text `s` stands for.
pub open spec fn hex_bytes(s: Seq<char>) -> Seq<u8> {
    Seq::new(s.len() / 2, |i: int| (hex_value(s[2 * i]) * 16 + hex_value(s[2 * i + 1])) as u8)
}

/// One digit read back gives its value.
pub proof fn lemma_hex_digit_value(n: int)
    requires
        0 <= n < 16,
    ensures
        is_lower_hex_char(hex_digit(n)),
        is_hex_char(hex_digit(n)),
        hex_value(hex_digit(n)) == n,
{
}

/// One lowercase digit written again is itself.
pub proof fn lemma_hex_value_digit(c: char)
    requires
        is_lower_hex_char(c),
    ensures
        0 <= hex_value(c) < 16,
        hex_digit(hex_value(c)) == c,
{
}

/// What `hex_string` writes is lowercase hexadecimal, and reading it gives the bytes back.
pub proof fn lemma_hex_round_trip(bytes: Seq<u8>)
    ensures
        hex_string(bytes).len() == 2 * bytes.len(),
        is_lower_hex_string(hex_string(bytes)),
        is_hex_string(hex_string(bytes)),
        hex_bytes(hex_string(bytes)) == bytes,
{
    let s = hex_string(bytes);
    assert forall|i: int| 0 <= i < s.len() implies is_lower_hex_char(#[trigger] s[i])
        && is_hex_char(s[i]) by {
        let b = bytes[i / 2] as int;
        lemma_hex_digit_value(b / 16);
        lemma_hex_digit_value(b % 16);
    }
    assert forall|i: int| 0 <= i < bytes.len() implies hex_bytes(s)[i] == bytes[i] by {
        let b = bytes[i] as int;
        lemma_hex_digit_value(b / 16);
        lemma_hex_digit_value(b % 16);
        assert(s[2 * i] == hex_digit(b / 16));
        assert(s[2 * i + 1] == hex_digit(b % 16));
    }
    assert(hex_bytes(s) =~= bytes);
}

/// Lowercase hexadecimal text read and written again is itself.
pub proof fn lemma_hex_text_round_trip(s: Seq<char>)
    requires
        is_lower_hex_string(s),
    ensures
        hex_bytes(s).len() * 2 == s.len(),
        hex_string(hex_bytes(s)) == s,
{
    let b = hex_bytes(s);
    let t = hex_string(b);
    assert forall|i: int| 0 <= i < s.len() implies t[i] == s[i] by {
        let k = i / 2;
        lemma_hex_value_digit(s[2 * k]);
        lemma_hex_value_digit(s[2 * k + 1]);
        let v = hex_value(s[2 * k]) * 16 + hex_value(s[2 * k + 1]);
        assert(b[k] == v as u8);
        assert(v / 16 == hex_value(s[2 * k]));
        assert(v % 16 == hex_value(s[2 * k + 1]));
    }
    assert(t =~= s);
}

/// The ASCII code of the lowercase hexadecimal digit for `n`.
fn digit_code(n: u8) -> (code: u8)
    requires
        n < 16,
    ensures
        code < 128,
        code as char == hex_digit(n as int),
{
    if n < 10 {
        48 + n
    } else {
        87 + n
    }
}

/// The value of the hexadecimal digit `c`, of either case, or `None` where `c` is no such digit.
pub fn digit_value(c: char) -> (value: Option<u8>)
    ensures
        value is Some <==> is_hex_char(c),
        value matches Some(v) ==> v == hex_value(c) && v < 16,
{
    let code: u32 = c as u32;
    if 48 <= code && code <= 57 {
        Some((code - 48) as u8)
    } else if 97 <= code && code <= 102 {
        Some((code - 87) as u8)
    } else if 65 <= code && code <= 70 {
        Some((code - 55) as u8)
    } else {
        None
    }
}

/// `bytes` written as lowercase hexadecimal: for each byte in turn the digit
/// of its high four bits, then the digit of its low four bits.
pub fn encode(bytes: &[u8]) -> (text: String)
    ensures
        text@ == hex_string(bytes@),
{
    let mut codes: Vec<u8> = Vec::new();
    let mut i: usize = 0;
    while i < bytes.len()
        invariant
            i <= bytes@.len(),
            codes@.len() == 2 * i,
            is_ascii_bytes(codes@),
            forall|j: int| 0 <= j < 2 * i ==> codes@[j] as char == hex_string(bytes@)[j],
        decreases bytes@.len() - i,
    {
        let b = bytes[i];
        codes.push(digit_code(b / 16));
        codes.push(digit_code(b % 16));
        proof {
            assert(hex_string(bytes@)[2 * i] == hex_digit(b as int / 16));
            assert(hex_string(bytes@)[2 * i + 1] == hex_digit(b as int % 16));
        }
        i += 1;
    }
    proof {
        lemma_ascii_utf8(codes@);
        assert(ascii_text(codes@) =~= hex_string(bytes@));
    }
    match text_of_utf8(codes.as_slice()) {
        Some(text) => text,
        None => String::new(),
    }
}

/// The bytes that the hexadecimal text `text` stands for. Digits of either
/// case are read. Text of odd length, and text with a character that is no
/// hexadecimal digit, stands for nothing.
pub fn decode(text: &str) -> (out: Option<Vec<u8>>)
    ensures
        out is Some <==> is_hex_string(text@),
        out matches Some(bytes) ==> bytes@ == hex_bytes(text@),
{
    let chars = to_chars(text);
    let n = chars.len();
    let mut bytes: Vec<u8> = Vec::new();
    let mut i: usize = 0;
    while i < n
        invariant
            i <= n,
            i % 2 == 0,
            n == chars@.len(),
            chars@ == text@,
            bytes@.len() == i / 2,
            forall|j: int| 0 <= j < i ==> is_hex_char(#[trigger] chars@[j]),
            forall|k: int| 0 <= k < i / 2 ==> bytes@[k] == hex_bytes(text@)[k],
        decreases n - i,
    {
        if n - i < 2 {
            return None;
        }
        let high = match digit_value(chars[i]) {
            Some(v) => v,
            None => {
                return None;
            },
        };
        let low = match digit_value(chars[i + 1]) {
            Some(v) => v,
            None => {
                return None;
            },
        };
        bytes.push(high * 16 + low);
        i += 2;
    }
    assert(bytes@ =~= hex_bytes(text@));
    Some(bytes)
}

/// The id that a digest is written as: the digest in lowercase hexadecimal.
pub fn id_of_digest(digest: &[u8]) -> (id: String)
    ensures
        id@ == hex_string(digest@),
        id@.len() == 2 * digest@.len(),
        is_lower_hex_string(id@),
{
    proof {
        lemma_hex_round_trip(digest@);
    }
    encode(digest)
}

} // verus!
