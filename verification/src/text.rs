//! Small verified operations on text that the codecs share.

use crate::bytes::decimal;
use crate::bytes::lemma_decimal_digits;
use crate::bytes::push_decimal;
use vstd::prelude::*;
use vstd::string::*;
use vstd::utf8::*;

verus! {

/// Two texts with the same UTF-8 encoding are the same.
pub proof fn lemma_encode_utf8_injective(a: Seq<char>, b: Seq<char>)
    requires
        encode_utf8(a) == encode_utf8(b),
    ensures
        a == b,
{
    encode_utf8_decode_utf8(a);
    encode_utf8_decode_utf8(b);
}

/// The texts of `items`, in the same order.
pub open spec fn texts_of(items: Seq<String>) -> Seq<Seq<char>> {
    items.map_values(|s: String| s@)
}

/// Whether two strings hold the same text.
pub fn str_eq(a: &str, b: &str) -> (same: bool)
    ensures
        same == (a@ == b@),
{
    let same = crate::bytes::bytes_eq(a.as_bytes(), b.as_bytes());
    proof {
        if same {
            lemma_encode_utf8_injective(a@, b@);
        }
    }
    same
}

/// The characters of `s` as a vector.
pub fn to_chars(s: &str) -> (chars: Vec<char>)
    ensures
        chars@ == s@,
{
    let mut chars: Vec<char> = Vec::new();
    for c in it: s.chars()
        invariant
            chars@ == it.seq().take(it.index()),
    {
        chars.push(c);
    }
    chars
}

/// The text whose characters are the given ASCII bytes.
pub open spec fn ascii_text(bytes: Seq<u8>) -> Seq<char> {
    Seq::new(bytes.len(), |i: int| bytes[i] as char)
}

/// Whether every byte is below 128.
pub open spec fn is_ascii_bytes(bytes: Seq<u8>) -> bool {
    forall|i: int| 0 <= i < bytes.len() ==> #[trigger] bytes[i] < 128
}

/// ASCII bytes are valid UTF-8, and they encode the text of the same characters.
pub proof fn lemma_ascii_utf8(bytes: Seq<u8>)
    requires
        is_ascii_bytes(bytes),
    ensures
        valid_utf8(bytes),
        encode_utf8(ascii_text(bytes)) == bytes,
        decode_utf8(bytes) == ascii_text(bytes),
{
    let chars = ascii_text(bytes);
    assert(is_ascii_chars(chars)) by {
        assert forall|i: int| 0 <= i < chars.len() implies 0 <= #[trigger] (chars[i] as nat)
            < 128 by {
            assert(bytes[i] < 128);
        }
    }
    is_ascii_chars_encode_utf8(chars);
    assert(encode_utf8(chars) =~= bytes) by {
        assert forall|i: int| 0 <= i < bytes.len() implies (chars[i] as u8) == bytes[i] by {
            assert(bytes[i] < 128);
        }
    }
    encode_utf8_valid_utf8(chars);
    encode_utf8_decode_utf8(chars);
}

/// `std::str::from_utf8`, with its error dropped. It gives the bytes back as
/// text where they are a valid UTF-8 encoding, and nothing otherwise.
#[verifier::external_body]
pub(crate) fn utf8_str(bytes: &[u8]) -> (text: Option<&str>)
    ensures
        text is Some <==> valid_utf8(bytes@),
        text matches Some(s) ==> s.spec_bytes() == bytes@,
{
    std::str::from_utf8(bytes).ok()
}

/// The text that `bytes` encode, where they are valid UTF-8.
pub fn text_of_utf8(bytes: &[u8]) -> (text: Option<String>)
    ensures
        text is Some <==> valid_utf8(bytes@),
        text matches Some(s) ==> s@ == decode_utf8(bytes@),
{
    match utf8_str(bytes) {
        Some(s) => {
            proof {
                encode_utf8_decode_utf8(s@);
            }
            Some(s.to_string())
        },
        None => None,
    }
}

/// Whether `a` comes strictly before `b` in the lexicographic order of their
/// characters. This is the order of the texts' UTF-8 bytes, by which
/// strings compare.
pub open spec fn text_less(a: Seq<char>, b: Seq<char>) -> bool
    decreases a.len(),
{
    if b.len() == 0 {
        false
    } else if a.len() == 0 {
        true
    } else if a[0] != b[0] {
        a[0] < b[0]
    } else {
        text_less(a.drop_first(), b.drop_first())
    }
}

/// No text comes before itself.
pub proof fn lemma_text_less_irreflexive(a: Seq<char>)
    ensures
        !text_less(a, a),
    decreases a.len(),
{
    if a.len() > 0 {
        lemma_text_less_irreflexive(a.drop_first());
    }
}

/// Of two texts that differ, one comes before the other.
pub proof fn lemma_text_less_total(a: Seq<char>, b: Seq<char>)
    ensures
        a == b || text_less(a, b) || text_less(b, a),
    decreases a.len(),
{
    if a.len() > 0 && b.len() > 0 && a[0] == b[0] {
        lemma_text_less_total(a.drop_first(), b.drop_first());
        if a.drop_first() == b.drop_first() {
            assert(a =~= seq![a[0]] + a.drop_first());
            assert(b =~= seq![b[0]] + b.drop_first());
        }
    } else if a.len() == 0 && b.len() == 0 {
        assert(a =~= b);
    }
}

/// The order is transitive.
pub proof fn lemma_text_less_transitive(a: Seq<char>, b: Seq<char>, c: Seq<char>)
    requires
        text_less(a, b),
        text_less(b, c),
    ensures
        text_less(a, c),
    decreases a.len(),
{
    if a.len() > 0 && a[0] == b[0] && b[0] == c[0] {
        lemma_text_less_transitive(a.drop_first(), b.drop_first(), c.drop_first());
    }
}

/// No two texts come before each other.
pub proof fn lemma_text_less_asymmetric(a: Seq<char>, b: Seq<char>)
    requires
        text_less(a, b),
    ensures
        !text_less(b, a),
        a != b,
{
    lemma_text_less_irreflexive(a);
    if text_less(b, a) {
        lemma_text_less_transitive(a, b, a);
    }
}

/// Whether `a` comes strictly before `b`.
pub fn chars_less(a: &[char], b: &[char]) -> (less: bool)
    ensures
        less == text_less(a@, b@),
{
    let mut i: usize = 0;
    assert(a@.skip(0) =~= a@ && b@.skip(0) =~= b@);
    while i < a.len() && i < b.len() && a[i] == b[i]
        invariant
            i <= a.len(),
            i <= b.len(),
            text_less(a@, b@) == text_less(a@.skip(i as int), b@.skip(i as int)),
        decreases a.len() - i,
    {
        proof {
            let x = a@.skip(i as int);
            let y = b@.skip(i as int);
            assert(x[0] == y[0]);
            assert(x.drop_first() =~= a@.skip(i + 1));
            assert(y.drop_first() =~= b@.skip(i + 1));
        }
        i += 1;
    }
    proof {
        let x = a@.skip(i as int);
        let y = b@.skip(i as int);
        if i < a.len() && i < b.len() {
            assert(x[0] == a@[i as int]);
            assert(y[0] == b@[i as int]);
        }
    }
    if i >= b.len() {
        false
    } else if i >= a.len() {
        true
    } else {
        a[i] < b[i]
    }
}

/// Whether the text of `a` comes strictly before the text of `b`.
pub fn str_less(a: &str, b: &str) -> (less: bool)
    ensures
        less == text_less(a@, b@),
{
    let x = to_chars(a);
    let y = to_chars(b);
    chars_less(x.as_slice(), y.as_slice())
}

/// The whole number `n` in decimal, with a minus sign where it is negative.
pub open spec fn int_text(n: int) -> Seq<char> {
    if n < 0 {
        seq!['-'] + ascii_text(decimal((-n) as nat))
    } else {
        ascii_text(decimal(n as nat))
    }
}

/// The text of a number holds a minus sign and digits only.
pub proof fn lemma_int_text_chars(n: int)
    ensures
        int_text(n).len() >= 1,
        forall|i: int|
            0 <= i < int_text(n).len() ==> {
                let c = #[trigger] int_text(n)[i];
                c == '-' || ('0' <= c && c <= '9')
            },
{
    if n < 0 {
        lemma_decimal_digits((-n) as nat);
        let d = decimal((-n) as nat);
        assert forall|i: int| 0 <= i < int_text(n).len() implies {
            let c = #[trigger] int_text(n)[i];
            c == '-' || ('0' <= c && c <= '9')
        } by {
            if i > 0 {
                assert(int_text(n)[i] == d[i - 1] as char);
                assert(48 <= d[i - 1] <= 57);
            }
        }
    } else {
        lemma_decimal_digits(n as nat);
        let d = decimal(n as nat);
        assert forall|i: int| 0 <= i < int_text(n).len() implies {
            let c = #[trigger] int_text(n)[i];
            c == '-' || ('0' <= c && c <= '9')
        } by {
            assert(int_text(n)[i] == d[i] as char);
            assert(48 <= d[i] <= 57);
        }
    }
}

/// The number `n` in decimal.
pub fn int_to_string(n: i64) -> (text: String)
    ensures
        text@ == int_text(n as int),
{
    let mut bytes: Vec<u8> = Vec::new();
    if n < 0 {
        bytes.push(45u8);
        let magnitude: u64 = if n == i64::MIN {
            9223372036854775808u64
        } else {
            (-n) as u64
        };
        push_decimal(&mut bytes, magnitude);
        proof {
            lemma_decimal_digits((-n) as nat);
            assert(ascii_text(bytes@) =~= int_text(n as int));
        }
    } else {
        push_decimal(&mut bytes, n as u64);
        proof {
            lemma_decimal_digits(n as nat);
            assert(bytes@ =~= decimal(n as nat));
        }
    }
    proof {
        assert(is_ascii_bytes(bytes@));
        lemma_ascii_utf8(bytes@);
    }
    match text_of_utf8(bytes.as_slice()) {
        Some(text) => text,
        None => String::new(),
    }
}

/// Whether `c` is white space, as Unicode defines it.
pub open spec fn is_space(c: char) -> bool {
    let u = c as u32;
    (9 <= u && u <= 13) || u == 0x20 || u == 0x85 || u == 0xA0 || u == 0x1680 || (0x2000 <= u && u
        <= 0x200A) || u == 0x2028 || u == 0x2029 || u == 0x202F || u == 0x205F || u == 0x3000
}

/// Whether `c` is white space.
pub fn char_is_space(c: char) -> (space: bool)
    ensures
        space == is_space(c),
{
    let u: u32 = c as u32;
    (9 <= u && u <= 13) || u == 0x20 || u == 0x85 || u == 0xA0 || u == 0x1680 || (0x2000 <= u && u
        <= 0x200A) || u == 0x2028 || u == 0x2029 || u == 0x202F || u == 0x205F || u == 0x3000
}

/// The length of `text` without the white space at its end.
pub open spec fn trimmed_len(text: Seq<char>) -> int
    decreases text.len(),
{
    if text.len() == 0 {
        0
    } else if is_space(text.last()) {
        trimmed_len(text.drop_last())
    } else {
        text.len() as int
    }
}

/// `text` without the white space at its end.
pub open spec fn trim_end(text: Seq<char>) -> Seq<char> {
    text.take(trimmed_len(text))
}

/// The trimmed length lies within the text; what follows it is white space,
/// and what stands just before it is not.
pub proof fn lemma_trimmed_len(text: Seq<char>)
    ensures
        0 <= trimmed_len(text) <= text.len(),
        forall|i: int| trimmed_len(text) <= i < text.len() ==> is_space(#[trigger] text[i]),
        trimmed_len(text) > 0 ==> !is_space(text[trimmed_len(text) - 1]),
    decreases text.len(),
{
    if text.len() > 0 && is_space(text.last()) {
        let front = text.drop_last();
        lemma_trimmed_len(front);
        assert forall|i: int| trimmed_len(text) <= i < text.len() implies is_space(
            #[trigger] text[i],
        ) by {
            if i < front.len() {
                assert(text[i] == front[i]);
            }
        }
    }
}

/// A length after which all is white space, and before which stands none, is the trimmed length.
pub proof fn lemma_trimmed_len_unique(text: Seq<char>, k: int)
    requires
        0 <= k <= text.len(),
        forall|i: int| k <= i < text.len() ==> is_space(#[trigger] text[i]),
        k > 0 ==> !is_space(text[k - 1]),
    ensures
        trimmed_len(text) == k,
    decreases text.len(),
{
    if text.len() > 0 && is_space(text.last()) {
        let front = text.drop_last();
        assert(k < text.len());
        assert forall|i: int| k <= i < front.len() implies is_space(#[trigger] front[i]) by {
            assert(front[i] == text[i]);
        }
        lemma_trimmed_len_unique(front, k);
    }
}

/// Searches back from `end` for the end of `text[start..end]` without the
/// white space at its end.
pub fn trim_end_index(text: &[char], start: usize, end: usize) -> (stop: usize)
    requires
        start <= end <= text.len(),
    ensures
        start <= stop <= end,
        stop == start + trimmed_len(text@.subrange(start as int, end as int)),
{
    let mut stop: usize = end;
    while stop > start && char_is_space(text[stop - 1])
        invariant
            start <= stop <= end <= text.len(),
            forall|i: int| stop <= i < end ==> is_space(#[trigger] text@[i]),
        decreases stop,
    {
        stop -= 1;
    }
    proof {
        let part = text@.subrange(start as int, end as int);
        assert forall|i: int| stop - start <= i < part.len() implies is_space(
            #[trigger] part[i],
        ) by {
            assert(part[i] == text@[start + i]);
        }
        lemma_trimmed_len_unique(part, stop - start);
    }
    stop
}

/// Whether `text[start..end]` begins with `prefix`.
pub fn has_prefix_at(text: &[char], start: usize, end: usize, prefix: &[char]) -> (yes: bool)
    requires
        start <= end <= text.len(),
    ensures
        yes == prefix@.is_prefix_of(text@.subrange(start as int, end as int)),
{
    if prefix.len() > end - start {
        return false;
    }
    let mut i: usize = 0;
    while i < prefix.len()
        invariant
            start <= end <= text.len(),
            prefix.len() <= end - start,
            i <= prefix.len(),
            forall|j: int| 0 <= j < i ==> text@[start + j] == prefix@[j],
        decreases prefix.len() - i,
    {
        if text[start + i] != prefix[i] {
            proof {
                let part = text@.subrange(start as int, end as int);
                assert(part[i as int] == text@[start + i]);
            }
            return false;
        }
        i += 1;
    }
    proof {
        let part = text@.subrange(start as int, end as int);
        assert(part.subrange(0, prefix@.len() as int) =~= prefix@);
    }
    true
}

/// The number of white-space characters at the start of `text`.
pub open spec fn leading_spaces(text: Seq<char>) -> int
    decreases text.len(),
{
    if text.len() == 0 {
        0
    } else if is_space(text[0]) {
        1 + leading_spaces(text.drop_first())
    } else {
        0
    }
}

/// `text` without the white space at its start and at its end.
pub open spec fn trim(text: Seq<char>) -> Seq<char> {
    trim_end(text.skip(leading_spaces(text)))
}

/// A position before which all is white space, and at which stands none, is
/// the number of leading spaces.
pub proof fn lemma_leading_spaces_unique(text: Seq<char>, k: int)
    requires
        0 <= k <= text.len(),
        forall|i: int| 0 <= i < k ==> is_space(#[trigger] text[i]),
        k < text.len() ==> !is_space(text[k]),
    ensures
        leading_spaces(text) == k,
    decreases text.len(),
{
    if k > 0 {
        let rest = text.drop_first();
        assert(is_space(text[0]));
        assert forall|i: int| 0 <= i < k - 1 implies is_space(#[trigger] rest[i]) by {
            assert(rest[i] == text[i + 1]);
        }
        if k < text.len() {
            assert(rest[k - 1] == text[k]);
        }
        lemma_leading_spaces_unique(rest, k - 1);
    }
}

/// Text that neither begins nor ends with white space is trimmed to itself.
pub proof fn lemma_trim_of_trimmed(text: Seq<char>)
    requires
        text.len() > 0 ==> !is_space(text[0]) && !is_space(text.last()),
    ensures
        trim(text) == text,
        trim_end(text) == text,
{
    lemma_leading_spaces_unique(text, 0);
    assert(text.skip(0) =~= text);
    lemma_trimmed_len_unique(text, text.len() as int);
    assert(text.take(text.len() as int) =~= text);
}

/// The bounds of `text` without the white space at its start and at its end.
pub fn trim_bounds(text: &[char]) -> (bounds: (usize, usize))
    ensures
        bounds.0 <= bounds.1 <= text.len(),
        trim(text@) == text@.subrange(bounds.0 as int, bounds.1 as int),
{
    let mut start: usize = 0;
    while start < text.len() && char_is_space(text[start])
        invariant
            start <= text.len(),
            forall|i: int| 0 <= i < start ==> is_space(#[trigger] text@[i]),
        decreases text.len() - start,
    {
        start += 1;
    }
    proof {
        lemma_leading_spaces_unique(text@, start as int);
    }
    let stop = trim_end_index(text, start, text.len());
    proof {
        let rest = text@.skip(start as int);
        assert(rest =~= text@.subrange(start as int, text@.len() as int));
        assert(trim_end(rest) =~= text@.subrange(start as int, stop as int));
    }
    (start, stop)
}

/// `text` without the white space at its start and at its end.
pub fn trimmed(text: &str) -> (out: String)
    ensures
        out@ == trim(text@),
{
    let chars = to_chars(text);
    let (start, stop) = trim_bounds(chars.as_slice());
    text.substring_char(start, stop).to_string()
}

/// Whether the text of `text` begins with that of `prefix`.
pub fn str_starts_with(text: &str, prefix: &str) -> (yes: bool)
    ensures
        yes == prefix@.is_prefix_of(text@),
{
    let chars = to_chars(text);
    let start = to_chars(prefix);
    let yes = has_prefix_at(chars.as_slice(), 0, chars.len(), start.as_slice());
    assert(chars@.subrange(0, chars@.len() as int) =~= chars@);
    yes
}

/// The text that `String::from_utf8_lossy` makes of `bytes`: where they are
/// valid UTF-8, the text that they encode; elsewhere, that text with a
/// replacement character for what is invalid.
pub uninterp spec fn utf8_lossy(bytes: Seq<u8>) -> Seq<char>;

/// `String::from_utf8_lossy`, made into a `String`. The text is a function
/// of the bytes, and valid UTF-8 is decoded as it is.
#[verifier::external_body]
pub(crate) fn lossy_text(bytes: &[u8]) -> (text: String)
    ensures
        text@ == utf8_lossy(bytes@),
        valid_utf8(bytes@) ==> text@ == decode_utf8(bytes@),
{
    String::from_utf8_lossy(bytes).into_owned()
}

/// The first position from `pos` on at which a white-space character stands
/// (with `space`) or any other character (without), or the length of `text`.
pub open spec fn next_index(text: Seq<char>, pos: int, space: bool) -> int
    decreases text.len() - pos,
{
    if pos < 0 || pos >= text.len() {
        text.len() as int
    } else if is_space(text[pos]) == space {
        pos
    } else {
        next_index(text, pos + 1, space)
    }
}

/// Whether `pattern` occurs in `text`.
pub open spec fn has_substring(text: Seq<char>, pattern: Seq<char>) -> bool {
    exists|i: int|
        0 <= i && i + pattern.len() <= text.len() && #[trigger] text.subrange(
            i,
            i + pattern.len(),
        ) == pattern
}

/// Whether the text of `pattern` occurs in that of `text`.
pub fn str_contains(text: &str, pattern: &str) -> (found: bool)
    ensures
        found == has_substring(text@, pattern@),
{
    let chars = to_chars(text);
    let want = to_chars(pattern);
    if want.len() > chars.len() {
        return false;
    }
    let last = chars.len() - want.len();
    let mut i: usize = 0;
    while i <= last
        invariant
            want@.len() <= chars@.len(),
            last == chars@.len() - want@.len(),
            i <= last + 1,
            chars@ == text@,
            want@ == pattern@,
            forall|j: int| 0 <= j < i ==> #[trigger] chars@.subrange(j, j + want@.len()) != want@,
        decreases last + 1 - i,
    {
        if has_prefix_at(chars.as_slice(), i, chars.len(), want.as_slice()) {
            proof {
                let tail = chars@.subrange(i as int, chars@.len() as int);
                assert(tail.subrange(0, want@.len() as int) =~= chars@.subrange(
                    i as int,
                    i + want@.len(),
                ));
            }
            return true;
        }
        proof {
            let tail = chars@.subrange(i as int, chars@.len() as int);
            assert(tail.subrange(0, want@.len() as int) =~= chars@.subrange(
                i as int,
                i + want@.len(),
            ));
        }
        i += 1;
    }
    false
}

/// The text of an optional string.
pub open spec fn option_text(s: Option<String>) -> Option<Seq<char>> {
    match s {
        Some(t) => Some(t@),
        None => None,
    }
}

/// Whether `text` ends with `suffix`.
pub open spec fn is_suffix_of(suffix: Seq<char>, text: Seq<char>) -> bool {
    suffix.len() <= text.len() && text.skip(text.len() - suffix.len()) == suffix
}

/// Whether the text of `text` ends with that of `suffix`.
pub fn str_ends_with(text: &str, suffix: &str) -> (yes: bool)
    ensures
        yes == is_suffix_of(suffix@, text@),
{
    let chars = to_chars(text);
    let end = to_chars(suffix);
    if end.len() > chars.len() {
        return false;
    }
    let start = chars.len() - end.len();
    let yes = has_prefix_at(chars.as_slice(), start, chars.len(), end.as_slice());
    proof {
        let tail = chars@.subrange(start as int, chars@.len() as int);
        assert(tail =~= chars@.skip(start as int));
        assert(tail.subrange(0, end@.len() as int) =~= tail);
    }
    yes
}

/// `text` without `prefix` at its start, as often as it stands there.
pub open spec fn without_prefixes(text: Seq<char>, prefix: Seq<char>) -> Seq<char>
    decreases text.len(),
{
    if prefix.len() > 0 && prefix.is_prefix_of(text) {
        without_prefixes(text.skip(prefix.len() as int), prefix)
    } else {
        text
    }
}

/// `text` without `suffix` at its end, as often as it stands there.
pub open spec fn without_suffixes(text: Seq<char>, suffix: Seq<char>) -> Seq<char>
    decreases text.len(),
{
    if suffix.len() > 0 && is_suffix_of(suffix, text) {
        without_suffixes(text.take(text.len() - suffix.len()), suffix)
    } else {
        text
    }
}

/// The position in `text[..end]` after the last `needle`, or 0 where there is none.
pub open spec fn after_last(text: Seq<char>, needle: char) -> int
    decreases text.len(),
{
    if text.len() == 0 {
        0
    } else if text.last() == needle {
        text.len() as int
    } else {
        after_last(text.drop_last(), needle)
    }
}

/// Where `text[start..]` begins once `prefix` is taken off its start as often as it stands there.
pub fn skip_prefixes(text: &[char], start: usize, prefix: &[char]) -> (pos: usize)
    requires
        start <= text.len(),
    ensures
        start <= pos <= text.len(),
        text@.skip(pos as int) == without_prefixes(text@.skip(start as int), prefix@),
{
    let mut pos: usize = start;
    if prefix.len() == 0 {
        return pos;
    }
    while has_prefix_at(text, pos, text.len(), prefix)
        invariant
            start <= pos <= text.len(),
            prefix@.len() > 0,
            without_prefixes(text@.skip(start as int), prefix@) == without_prefixes(
                text@.skip(pos as int),
                prefix@,
            ),
        decreases text.len() - pos,
    {
        proof {
            let tail = text@.skip(pos as int);
            assert(tail =~= text@.subrange(pos as int, text@.len() as int));
            assert(tail.skip(prefix@.len() as int) =~= text@.skip(pos + prefix@.len()));
        }
        pos += prefix.len();
    }
    proof {
        let tail = text@.skip(pos as int);
        assert(tail =~= text@.subrange(pos as int, text@.len() as int));
    }
    pos
}

/// Where `text[..end]` ends once `suffix` is taken off its end as often as it stands there.
pub fn skip_suffixes(text: &[char], end: usize, suffix: &[char]) -> (pos: usize)
    requires
        end <= text.len(),
    ensures
        pos <= end,
        text@.take(pos as int) == without_suffixes(text@.take(end as int), suffix@),
{
    let mut pos: usize = end;
    if suffix.len() == 0 {
        return pos;
    }
    while pos >= suffix.len() && has_prefix_at(text, pos - suffix.len(), pos, suffix)
        invariant
            pos <= end <= text.len(),
            suffix@.len() > 0,
            without_suffixes(text@.take(end as int), suffix@) == without_suffixes(
                text@.take(pos as int),
                suffix@,
            ),
        decreases pos,
    {
        proof {
            let head = text@.take(pos as int);
            let part = text@.subrange(pos - suffix@.len(), pos as int);
            assert(part =~= head.skip(head.len() - suffix@.len()));
            assert(part.subrange(0, suffix@.len() as int) =~= part);
            assert(head.take(head.len() - suffix@.len()) =~= text@.take(pos - suffix@.len()));
        }
        pos -= suffix.len();
    }
    proof {
        let head = text@.take(pos as int);
        if pos >= suffix.len() {
            let part = text@.subrange(pos - suffix@.len(), pos as int);
            assert(part =~= head.skip(head.len() - suffix@.len()));
            assert(part.subrange(0, suffix@.len() as int) =~= part);
        }
    }
    pos
}

/// The position in `text[..end]` after the last `needle`.
pub fn find_after_last(text: &[char], end: usize, needle: char) -> (pos: usize)
    requires
        end <= text.len(),
    ensures
        pos <= end,
        pos == after_last(text@.take(end as int), needle),
{
    let mut pos: usize = end;
    while pos > 0 && text[pos - 1] != needle
        invariant
            pos <= end <= text.len(),
            after_last(text@.take(end as int), needle) == after_last(
                text@.take(pos as int),
                needle,
            ),
        decreases pos,
    {
        proof {
            let head = text@.take(pos as int);
            assert(head.last() == text@[pos - 1]);
            assert(head.drop_last() =~= text@.take(pos - 1));
        }
        pos -= 1;
    }
    proof {
        let head = text@.take(pos as int);
        if pos > 0 {
            assert(head.last() == text@[pos - 1]);
        }
    }
    pos
}

/// The length of `text` without the line feeds at its end.
pub open spec fn unfed_len(text: Seq<char>) -> int
    decreases text.len(),
{
    if text.len() == 0 {
        0
    } else if text.last() == '\n' {
        unfed_len(text.drop_last())
    } else {
        text.len() as int
    }
}

/// `text` with exactly one line feed at its end: every line feed that it
/// ends in is taken off, and one is put on.
pub open spec fn closed_text(text: Seq<char>) -> Seq<char> {
    text.take(unfed_len(text)) + seq!['\n']
}

/// Past the length without line feeds stand line feeds only, and just before it stands none.
pub proof fn lemma_unfed_len(text: Seq<char>)
    ensures
        0 <= unfed_len(text) <= text.len(),
        forall|i: int| unfed_len(text) <= i < text.len() ==> #[trigger] text[i] == '\n',
        unfed_len(text) > 0 ==> text[unfed_len(text) - 1] != '\n',
    decreases text.len(),
{
    if text.len() > 0 && text.last() == '\n' {
        let front = text.drop_last();
        lemma_unfed_len(front);
        assert forall|i: int| unfed_len(text) <= i < text.len() implies #[trigger] text[i]
            == '\n' by {
            if i < front.len() {
                assert(text[i] == front[i]);
            }
        }
    }
}

/// A length past which stand line feeds only, and before which stands none, is
/// the length without line feeds.
pub proof fn lemma_unfed_len_unique(text: Seq<char>, k: int)
    requires
        0 <= k <= text.len(),
        forall|i: int| k <= i < text.len() ==> #[trigger] text[i] == '\n',
        k > 0 ==> text[k - 1] != '\n',
    ensures
        unfed_len(text) == k,
    decreases text.len(),
{
    if text.len() > 0 && text.last() == '\n' {
        let front = text.drop_last();
        assert(k < text.len());
        assert forall|i: int| k <= i < front.len() implies #[trigger] front[i] == '\n' by {
            assert(front[i] == text[i]);
        }
        lemma_unfed_len_unique(front, k);
    }
}

/// Closed text ends in one line feed and no more, and closing it again changes nothing.
pub proof fn lemma_closed_text(text: Seq<char>)
    ensures
        closed_text(text).len() == unfed_len(text) + 1,
        closed_text(text).last() == '\n',
        unfed_len(closed_text(text)) == unfed_len(text),
        closed_text(closed_text(text)) == closed_text(text),
{
    lemma_unfed_len(text);
    let closed = closed_text(text);
    let k = unfed_len(text);
    assert forall|i: int| k <= i < closed.len() implies #[trigger] closed[i] == '\n' by {}
    if k > 0 {
        assert(closed[k - 1] == text[k - 1]);
    }
    lemma_unfed_len_unique(closed, k);
    assert(closed.take(k) =~= text.take(k));
}

/// Closing a text leaves what it is trimmed to at its end, since a line feed is white space.
pub proof fn lemma_trim_closed_text(text: Seq<char>)
    ensures
        trim_end(closed_text(text)) == trim_end(text),
{
    lemma_unfed_len(text);
    lemma_trimmed_len(text);
    let closed = closed_text(text);
    let u = unfed_len(text);
    let k = trimmed_len(text);
    assert(is_space('\n'));
    if u < k {
        assert(text[k - 1] == '\n');
    }
    assert forall|i: int| k <= i < closed.len() implies is_space(#[trigger] closed[i]) by {
        if i < u {
            assert(closed[i] == text[i]);
        }
    }
    if k > 0 {
        assert(closed[k - 1] == text[k - 1]);
    }
    lemma_trimmed_len_unique(closed, k);
    assert(closed.take(k) =~= text.take(k));
}

/// `text` with exactly one line feed at its end.
pub fn closed(text: &str) -> (out: String)
    ensures
        out@ == closed_text(text@),
{
    proof {
        reveal_strlit("\n");
    }
    let chars = to_chars(text);
    let mut stop: usize = chars.len();
    while stop > 0 && chars[stop - 1] == '\n'
        invariant
            stop <= chars@.len(),
            forall|i: int| stop <= i < chars@.len() ==> #[trigger] chars@[i] == '\n',
        decreases stop,
    {
        stop -= 1;
    }
    proof {
        lemma_unfed_len_unique(text@, stop as int);
        assert(text@.take(stop as int) =~= text@.subrange(0, stop as int));
    }
    let mut out = text.substring_char(0, stop).to_string();
    out.append("\n");
    out
}

} // verus!
