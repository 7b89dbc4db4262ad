//! Small verified operations on byte strings that the codecs share.

use vstd::prelude::*;

verus! {

/// The position of the first `needle` in `s`, or the length of `s` where there is none.
pub open spec fn first_index<T>(s: Seq<T>, needle: T) -> int
    decreases s.len(),
{
    if s.len() == 0 {
        0
    } else if s[0] == needle {
        0
    } else {
        1 + first_index(s.drop_first(), needle)
    }
}

/// `first_index` is the least position that holds `needle`, and it lies
/// within `s` exactly where `needle` occurs.
pub proof fn lemma_first_index<T>(s: Seq<T>, needle: T)
    ensures
        0 <= first_index(s, needle) <= s.len(),
        first_index(s, needle) < s.len() ==> s[first_index(s, needle)] == needle,
        forall|j: int| 0 <= j < first_index(s, needle) ==> s[j] != needle,
        first_index(s, needle) < s.len() <==> s.contains(needle),
    decreases s.len(),
{
    if s.len() != 0 && s[0] != needle {
        let rest = s.drop_first();
        lemma_first_index(rest, needle);
        assert forall|j: int| 0 <= j < first_index(s, needle) implies s[j] != needle by {
            if j > 0 {
                assert(s[j] == rest[j - 1]);
            }
        }
        if s.contains(needle) {
            let i = choose|i: int| 0 <= i < s.len() && s[i] == needle;
            assert(rest[i - 1] == needle);
        }
        if rest.contains(needle) {
            let i = choose|i: int| 0 <= i < rest.len() && rest[i] == needle;
            assert(s[i + 1] == needle);
        }
    }
}

/// A position with no `needle` before it and `needle` at it (or at the end) is `first_index`.
pub proof fn lemma_first_index_unique<T>(s: Seq<T>, needle: T, k: int)
    requires
        0 <= k <= s.len(),
        forall|j: int| 0 <= j < k ==> s[j] != needle,
        k < s.len() ==> s[k] == needle,
    ensures
        first_index(s, needle) == k,
{
    lemma_first_index(s, needle);
    let f = first_index(s, needle);
    if f < k {
        assert(s[f] != needle);
    }
}

/// Searches `data` from `start` for `needle`. Returns the position found, or
/// the length of `data`.
pub fn find_byte(data: &[u8], start: usize, needle: u8) -> (pos: usize)
    requires
        start <= data.len(),
    ensures
        pos == start + first_index(data@.skip(start as int), needle),
        start <= pos <= data.len(),
{
    let mut i: usize = start;
    while i < data.len() && data[i] != needle
        invariant
            start <= i <= data.len(),
            forall|j: int| start <= j < i ==> data@[j] != needle,
        decreases data.len() - i,
    {
        i += 1;
    }
    proof {
        let tail = data@.skip(start as int);
        assert forall|j: int| 0 <= j < i - start implies tail[j] != needle by {
            assert(tail[j] == data@[start + j]);
        }
        lemma_first_index_unique(tail, needle, i - start);
    }
    i
}

/// Searches `text` from `start` for `needle`. Returns the position found, or
/// the length of `text`.
pub fn find_char(text: &[char], start: usize, needle: char) -> (pos: usize)
    requires
        start <= text.len(),
    ensures
        pos == start + first_index(text@.skip(start as int), needle),
        start <= pos <= text.len(),
{
    let mut i: usize = start;
    while i < text.len() && text[i] != needle
        invariant
            start <= i <= text.len(),
            forall|j: int| start <= j < i ==> text@[j] != needle,
        decreases text.len() - i,
    {
        i += 1;
    }
    proof {
        let tail = text@.skip(start as int);
        assert forall|j: int| 0 <= j < i - start implies tail[j] != needle by {
            assert(tail[j] == text@[start + j]);
        }
        lemma_first_index_unique(tail, needle, i - start);
    }
    i
}

/// Copies `data[from..to]` into a new vector.
pub fn copy_range(data: &[u8], from: usize, to: usize) -> (out: Vec<u8>)
    requires
        from <= to <= data.len(),
    ensures
        out@ == data@.subrange(from as int, to as int),
{
    let mut out: Vec<u8> = Vec::new();
    out.extend_from_slice(vstd::slice::slice_subrange(data, from, to));
    out
}

/// Whether two byte strings hold the same bytes.
pub fn bytes_eq(a: &[u8], b: &[u8]) -> (same: bool)
    ensures
        same == (a@ == b@),
{
    if a.len() != b.len() {
        return false;
    }
    let mut i: usize = 0;
    while i < a.len()
        invariant
            a.len() == b.len(),
            i <= a.len(),
            forall|j: int| 0 <= j < i ==> a@[j] == b@[j],
        decreases a.len() - i,
    {
        if a[i] != b[i] {
            return false;
        }
        i += 1;
    }
    assert(a@ =~= b@);
    true
}

/// The decimal digits of `n`, most significant first, as ASCII.
pub open spec fn decimal(n: nat) -> Seq<u8>
    decreases n,
{
    if n < 10 {
        seq![(48 + n) as u8]
    } else {
        decimal(n / 10).push((48 + n % 10) as u8)
    }
}

/// Every byte of `decimal(n)` is an ASCII digit, and there is at least one.
pub proof fn lemma_decimal_digits(n: nat)
    ensures
        decimal(n).len() >= 1,
        forall|i: int| 0 <= i < decimal(n).len() ==> 48 <= #[trigger] decimal(n)[i] <= 57,
    decreases n,
{
    if n >= 10 {
        lemma_decimal_digits(n / 10);
    }
}

/// Appends the decimal digits of `n` to `out`.
pub fn push_decimal(out: &mut Vec<u8>, n: u64)
    ensures
        final(out)@ == old(out)@ + decimal(n as nat),
    decreases n,
{
    if n < 10 {
        out.push(48u8 + n as u8);
        assert(final(out)@ =~= old(out)@ + decimal(n as nat));
    } else {
        push_decimal(out, n / 10);
        out.push(48u8 + (n % 10) as u8);
        assert(final(out)@ =~= old(out)@ + decimal(n as nat));
    }
}

} // verus!
