//! Byte classes and elementary spec functions over byte sequences.
//!
//! The whole grammar is modelled over `Seq<u8>`: the UTF-8 encoding of the
//! input text.  All delimiters the grammar cares about are ASCII, so byte
//! classes suffice.

use vstd::prelude::*;

verus! {

/// Bytes that may appear in a header key: letters, digits, `_` and `-`.
pub open spec fn is_key_byte(b: u8) -> bool {
    (0x30 <= b <= 0x39)  // 0-9
    || (0x41 <= b <= 0x5a)  // A-Z
    || (0x61 <= b <= 0x7a)  // a-z
    || b == 0x5f  // _
    || b == 0x2d  // -
}

/// ASCII whitespace as trimmed from header values: space, tab, line feed,
/// vertical tab, form feed and carriage return.
pub open spec fn is_space_byte(b: u8) -> bool {
    b == 0x20 || b == 0x09 || b == 0x0a || b == 0x0b || b == 0x0c || b == 0x0d
}

/// Printable ASCII, the class a boundary value is drawn from.
pub open spec fn is_print_byte(b: u8) -> bool {
    0x20 <= b <= 0x7e
}

/// A single or double quote, the delimiters of a boundary value.
pub open spec fn is_quote_byte(b: u8) -> bool {
    b == 0x22 || b == 0x27
}

/// ASCII lower-casing of one byte: `A`..`Z` map to `a`..`z`, everything else
/// is unchanged.
pub open spec fn lower_byte(b: u8) -> u8 {
    if 0x41 <= b <= 0x5a {
        (b + 0x20) as u8
    } else {
        b
    }
}

/// ASCII lower-casing of a byte sequence.
pub open spec fn lower_bytes(s: Seq<u8>) -> Seq<u8> {
    s.map_values(|b: u8| lower_byte(b))
}

/// The pattern `pat` occurs in `s` starting at position `p`.
pub open spec fn matches_at(s: Seq<u8>, pat: Seq<u8>, p: int) -> bool {
    0 <= p && p + pat.len() <= s.len() && s.subrange(p, p + pat.len()) == pat
}

/// First position in `[i, end)` holding a non-whitespace byte, or `end`.
pub open spec fn skip_spaces(s: Seq<u8>, i: int, end: int) -> int
    decreases end - i,
    when 0 <= i <= end <= s.len()
{
    if i < end && is_space_byte(s[i]) {
        skip_spaces(s, i + 1, end)
    } else {
        i
    }
}

/// Position after the last non-whitespace byte in `[start, i)`, or `start`.
pub open spec fn rskip_spaces(s: Seq<u8>, start: int, i: int) -> int
    decreases i - start,
    when 0 <= start <= i <= s.len()
{
    if i > start && is_space_byte(s[i - 1]) {
        rskip_spaces(s, start, i - 1)
    } else {
        i
    }
}

/// `t` with leading and trailing whitespace removed.
pub open spec fn trimmed(t: Seq<u8>) -> Seq<u8> {
    let a = skip_spaces(t, 0, t.len() as int);
    let b = rskip_spaces(t, a, t.len() as int);
    t.subrange(a, b)
}

/// Range and content facts about `skip_spaces`.
pub proof fn lemma_skip_spaces(s: Seq<u8>, i: int, end: int)
    requires
        0 <= i <= end <= s.len(),
    ensures
        i <= skip_spaces(s, i, end) <= end,
        forall|j: int| i <= j < skip_spaces(s, i, end) ==> is_space_byte(s[j]),
        skip_spaces(s, i, end) < end ==> !is_space_byte(s[skip_spaces(s, i, end)]),
    decreases end - i,
{
    if i < end && is_space_byte(s[i]) {
        lemma_skip_spaces(s, i + 1, end);
    }
}

/// Range and content facts about `rskip_spaces`.
pub proof fn lemma_rskip_spaces(s: Seq<u8>, start: int, i: int)
    requires
        0 <= start <= i <= s.len(),
    ensures
        start <= rskip_spaces(s, start, i) <= i,
        forall|j: int| rskip_spaces(s, start, i) <= j < i ==> is_space_byte(s[j]),
        rskip_spaces(s, start, i) > start ==> !is_space_byte(s[rskip_spaces(s, start, i) - 1]),
    decreases i - start,
{
    if i > start && is_space_byte(s[i - 1]) {
        lemma_rskip_spaces(s, start, i - 1);
    }
}

/// `skip_spaces` over a subrange agrees with `skip_spaces` over the whole,
/// shifted by the subrange offset.
pub proof fn lemma_skip_spaces_sub(s: Seq<u8>, a: int, c: int, i: int)
    requires
        0 <= a <= c <= s.len(),
        a <= i <= c,
    ensures
        skip_spaces(s.subrange(a, c), i - a, c - a) + a == skip_spaces(s, i, c),
    decreases c - i,
{
    let t = s.subrange(a, c);
    if i < c && is_space_byte(s[i]) {
        lemma_skip_spaces_sub(s, a, c, i + 1);
    }
}

/// `rskip_spaces` over a subrange agrees with `rskip_spaces` over the whole,
/// shifted by the subrange offset.
pub proof fn lemma_rskip_spaces_sub(s: Seq<u8>, a: int, c: int, start: int, i: int)
    requires
        0 <= a <= c <= s.len(),
        a <= start <= i <= c,
    ensures
        rskip_spaces(s.subrange(a, c), start - a, i - a) + a == rskip_spaces(s, start, i),
    decreases i - start,
{
    let t = s.subrange(a, c);
    if i > start && is_space_byte(s[i - 1]) {
        lemma_rskip_spaces_sub(s, a, c, start, i - 1);
    }
}

/// The trimmed form of `s.subrange(a, c)` is the subrange of `s` between the
/// whitespace scans run on `s` itself.
pub proof fn lemma_trimmed_sub(s: Seq<u8>, a: int, c: int)
    requires
        0 <= a <= c <= s.len(),
    ensures
        ({
            let ts = skip_spaces(s, a, c);
            let te = rskip_spaces(s, ts, c);
            trimmed(s.subrange(a, c)) == s.subrange(ts, te)
        }),
{
    let t = s.subrange(a, c);
    let ts = skip_spaces(s, a, c);
    lemma_skip_spaces(s, a, c);
    lemma_skip_spaces_sub(s, a, c, a);
    let te = rskip_spaces(s, ts, c);
    lemma_rskip_spaces(s, ts, c);
    lemma_rskip_spaces_sub(s, a, c, ts, c);
    assert(t.subrange(ts - a, te - a) =~= s.subrange(ts, te));
}

/// Executable `skip_spaces` over a byte slice.
pub fn skip_spaces_exec(b: &[u8], i: usize, end: usize) -> (r: usize)
    requires
        i <= end <= b@.len(),
    ensures
        r == skip_spaces(b@, i as int, end as int),
        i <= r <= end,
{
    let mut p = i;
    while p < end && space_byte(b[p])
        invariant
            i <= p <= end,
            end <= b@.len(),
            skip_spaces(b@, i as int, end as int) == skip_spaces(b@, p as int, end as int),
        decreases end - p,
    {
        p = p + 1;
    }
    proof {
        lemma_skip_spaces(b@, p as int, end as int);
    }
    p
}

/// Executable `rskip_spaces` over a byte slice.
pub fn rskip_spaces_exec(b: &[u8], start: usize, i: usize) -> (r: usize)
    requires
        start <= i,
        i <= b@.len(),
    ensures
        r == rskip_spaces(b@, start as int, i as int),
        start <= r <= i,
{
    let mut p = i;
    while p > start && space_byte(b[p - 1])
        invariant
            start <= p <= i,
            i <= b@.len(),
            rskip_spaces(b@, start as int, i as int) == rskip_spaces(b@, start as int, p as int),
        decreases p,
    {
        p = p - 1;
    }
    p
}

/// Executable test of `is_key_byte`.
pub fn key_byte(b: u8) -> (r: bool)
    ensures
        r == is_key_byte(b),
{
    (0x30 <= b && b <= 0x39) || (0x41 <= b && b <= 0x5a) || (0x61 <= b && b <= 0x7a) || b == 0x5f
        || b == 0x2d
}

/// Executable test of `is_space_byte`.
pub fn space_byte(b: u8) -> (r: bool)
    ensures
        r == is_space_byte(b),
{
    b == 0x20 || b == 0x09 || b == 0x0a || b == 0x0b || b == 0x0c || b == 0x0d
}

/// Executable test of `is_print_byte`.
pub fn print_byte(b: u8) -> (r: bool)
    ensures
        r == is_print_byte(b),
{
    0x20 <= b && b <= 0x7e
}

/// Executable test of `is_quote_byte`.
pub fn quote_byte(b: u8) -> (r: bool)
    ensures
        r == is_quote_byte(b),
{
    b == 0x22 || b == 0x27
}

} // verus!
