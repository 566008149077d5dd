//! The boundary detector: windowed heuristics answering "does this block
//! look like it has headers?", "does it declare a multipart boundary?", and
//! the extraction of a declared boundary value.
//!
//! The two windowed checks look only at the first `SCAN_WINDOW` bytes of the
//! text: headers and boundary declarations are assumed to appear early.
//! This is a deliberate correctness/performance trade-off — a document that
//! declares its boundary later is misclassified.

use vstd::prelude::*;
use vstd::utf8::{encode_utf8, is_ascii_chars, is_ascii_chars_encode_utf8};
use vstd::string::StringSliceAdditionalSpecFns;
use crate::bytes::{matches_at, is_quote_byte, is_print_byte, quote_byte, print_byte};
use crate::scan::sub_matches;

verus! {

/// How many leading bytes the windowed heuristics inspect.
pub const SCAN_WINDOW: usize = 3000;

/// The window the heuristics scan: the whole text, capped at `SCAN_WINDOW`.
pub open spec fn window(s: Seq<u8>) -> int {
    if s.len() <= SCAN_WINDOW {
        s.len() as int
    } else {
        SCAN_WINDOW as int
    }
}

/// `pat` occurs at `p`, followed by at least one byte other than a line
/// feed, with everything inside the first `w` bytes.
pub open spec fn pat_then_char_at(s: Seq<u8>, pat: Seq<u8>, p: int, w: int) -> bool {
    matches_at(s, pat, p) && p + pat.len() < w && s[p + pat.len()] != 0x0a
}

/// Some position of the first `w` bytes satisfies `pat_then_char_at`.
pub open spec fn has_pat_then_char(s: Seq<u8>, pat: Seq<u8>, w: int) -> bool {
    exists|p: int| pat_then_char_at(s, pat, p, w)
}

/// A `content-type:`-shaped key (in any of its three accepted spellings)
/// appears in the window.
pub open spec fn spec_has_headers(s: Seq<u8>) -> bool {
    ||| has_pat_then_char(s, encode_utf8("Content-Type: "@), window(s))
    ||| has_pat_then_char(s, encode_utf8("Content-type: "@), window(s))
    ||| has_pat_then_char(s, encode_utf8("content-type: "@), window(s))
}

/// A `boundary=` assignment (either casing) appears in the window.
pub open spec fn spec_has_boundary(s: Seq<u8>) -> bool {
    ||| has_pat_then_char(s, encode_utf8("boundary="@), window(s))
    ||| has_pat_then_char(s, encode_utf8("Boundary="@), window(s))
}

/// A `content-type:` header whose value begins with `multipart` appears
/// anywhere in the text (not window-limited).
pub open spec fn spec_is_multipart(s: Seq<u8>) -> bool {
    ||| has_pat_then_char(s, encode_utf8("Content-Type: multipart"@), s.len() as int)
    ||| has_pat_then_char(s, encode_utf8("Content-type: multipart"@), s.len() as int)
    ||| has_pat_then_char(s, encode_utf8("content-type: multipart"@), s.len() as int)
}

/// First position at or after `i` that closes a quoted boundary value: a
/// quote reached by walking over printable bytes only.
pub open spec fn capture_end_from(s: Seq<u8>, i: int) -> Option<int>
    decreases s.len() - i,
    when 0 <= i <= s.len()
{
    if i >= s.len() {
        None::<int>
    } else if is_quote_byte(s[i]) {
        Some(i)
    } else if !is_print_byte(s[i]) {
        None::<int>
    } else {
        capture_end_from(s, i + 1)
    }
}

/// A full quoted boundary declaration matches at `p`: `boundary=` (either
/// casing), an opening quote, at least one printable byte, and a closing
/// quote reached over printable bytes only.
pub open spec fn boundary_match_at(s: Seq<u8>, p: int) -> bool {
    &&& (matches_at(s, encode_utf8("boundary="@), p) || matches_at(
        s,
        encode_utf8("Boundary="@),
        p,
    ))
    &&& p + 10 < s.len()
    &&& is_quote_byte(s[p + 9])
    &&& is_print_byte(s[p + 10])
    &&& capture_end_from(s, p + 11) is Some
}

/// First position at or after `from` where a full quoted boundary
/// declaration matches.
pub open spec fn boundary_find_from(s: Seq<u8>, from: int) -> Option<int>
    decreases s.len() - from,
    when 0 <= from <= s.len()
{
    if from >= s.len() {
        None::<int>
    } else if boundary_match_at(s, from) {
        Some(from)
    } else {
        boundary_find_from(s, from + 1)
    }
}

/// The boundary value declared in `s`, if any: the bytes captured between
/// the quotes of the leftmost full declaration.
pub open spec fn extract_boundary_spec(s: Seq<u8>) -> Option<Seq<u8>> {
    match boundary_find_from(s, 0) {
        None => None,
        Some(p) => Some(s.subrange(p + 10, capture_end_from(s, p + 11)->Some_0)),
    }
}

/// Facts about `capture_end_from`: the result closes the capture, and
/// everything before it is printable and not a quote.
pub proof fn lemma_capture_end_from(s: Seq<u8>, i: int)
    requires
        0 <= i <= s.len(),
    ensures
        match capture_end_from(s, i) {
            Some(m) => i <= m < s.len() && is_quote_byte(s[m]) && forall|j: int|
                i <= j < m ==> is_print_byte(s[j]) && !is_quote_byte(s[j]),
            None => true,
        },
    decreases s.len() - i,
{
    if i >= s.len() {
    } else if is_quote_byte(s[i]) {
    } else if !is_print_byte(s[i]) {
    } else {
        lemma_capture_end_from(s, i + 1);
    }
}

/// Facts about `boundary_find_from`: what it returns is the leftmost match.
pub proof fn lemma_boundary_find_from(s: Seq<u8>, from: int)
    requires
        0 <= from <= s.len(),
    ensures
        match boundary_find_from(s, from) {
            Some(p) => from <= p < s.len() && boundary_match_at(s, p) && forall|q: int|
                from <= q < p ==> !boundary_match_at(s, q),
            None => forall|q: int| q >= from ==> !boundary_match_at(s, q),
        },
    decreases s.len() - from,
{
    if from >= s.len() {
    } else if boundary_match_at(s, from) {
    } else {
        lemma_boundary_find_from(s, from + 1);
    }
}

/// A nonempty character sequence encodes to a nonempty byte sequence.
pub proof fn lemma_encode_nonempty(chars: Seq<char>)
    requires
        chars.len() > 0,
    ensures
        encode_utf8(chars).len() > 0,
{
    vstd::utf8::char_is_scalar(chars[0]);
}

/// Executable search for `pat` followed by a non-line-feed byte within the
/// first `w` bytes.
pub fn find_pat_then_char(b: &[u8], pat: &[u8], w: usize) -> (r: bool)
    requires
        w <= b@.len(),
        pat@.len() > 0,
    ensures
        r == has_pat_then_char(b@, pat@, w as int),
{
    let plen = pat.len();
    if plen >= w {
        assert(forall|q: int| !pat_then_char_at(b@, pat@, q, w as int));
        return false;
    }
    let mut p: usize = 0;
    while p < w - plen
        invariant
            0 <= p <= w - plen,
            plen == pat@.len(),
            0 < plen < w <= b@.len(),
            forall|q: int| 0 <= q < p ==> !pat_then_char_at(b@, pat@, q, w as int),
        decreases w - plen - p,
    {
        if sub_matches(b, pat, p) && b[p + plen] != 0x0a {
            assert(pat_then_char_at(b@, pat@, p as int, w as int));
            return true;
        }
        p = p + 1;
    }
    assert forall|q: int| !pat_then_char_at(b@, pat@, q, w as int) by {
        if 0 <= q < p {
        } else {
            assert(!(q + pat@.len() < w)  || q < 0);
        }
    }
    false
}

/// The window as computed on a byte slice.
pub fn window_exec(b: &[u8]) -> (w: usize)
    ensures
        w == window(b@),
        w <= b@.len(),
{
    if b.len() > SCAN_WINDOW {
        SCAN_WINDOW
    } else {
        b.len()
    }
}

/// Does the text look like it carries headers?  True exactly when a
/// `content-type:`-shaped key appears in the scan window.
pub fn has_headers_bytes(b: &[u8]) -> (r: bool)
    ensures
        r == spec_has_headers(b@),
{
    let w = window_exec(b);
    proof {
        reveal_strlit("Content-Type: ");
        reveal_strlit("Content-type: ");
        reveal_strlit("content-type: ");
        lemma_encode_nonempty("Content-Type: "@);
        lemma_encode_nonempty("Content-type: "@);
        lemma_encode_nonempty("content-type: "@);
    }
    find_pat_then_char(b, "Content-Type: ".as_bytes(), w) || find_pat_then_char(
        b,
        "Content-type: ".as_bytes(),
        w,
    ) || find_pat_then_char(b, "content-type: ".as_bytes(), w)
}

/// Does the text declare a multipart boundary?  True exactly when a
/// `boundary=` assignment appears in the scan window.
pub fn has_boundary_bytes(b: &[u8]) -> (r: bool)
    ensures
        r == spec_has_boundary(b@),
{
    let w = window_exec(b);
    proof {
        reveal_strlit("boundary=");
        reveal_strlit("Boundary=");
        lemma_encode_nonempty("boundary="@);
        lemma_encode_nonempty("Boundary="@);
    }
    find_pat_then_char(b, "boundary=".as_bytes(), w) || find_pat_then_char(
        b,
        "Boundary=".as_bytes(),
        w,
    )
}

/// Is the whole document multipart?  True exactly when a `content-type:`
/// header whose value starts with `multipart` appears anywhere in it.
pub fn is_multipart_bytes(b: &[u8]) -> (r: bool)
    ensures
        r == spec_is_multipart(b@),
{
    let w = b.len();
    proof {
        reveal_strlit("Content-Type: multipart");
        reveal_strlit("Content-type: multipart");
        reveal_strlit("content-type: multipart");
        lemma_encode_nonempty("Content-Type: multipart"@);
        lemma_encode_nonempty("Content-type: multipart"@);
        lemma_encode_nonempty("content-type: multipart"@);
    }
    find_pat_then_char(b, "Content-Type: multipart".as_bytes(), w) || find_pat_then_char(
        b,
        "Content-type: multipart".as_bytes(),
        w,
    ) || find_pat_then_char(b, "content-type: multipart".as_bytes(), w)
}

/// Executable `capture_end_from`.
fn capture_end_exec(b: &[u8], i: usize) -> (r: Option<usize>)
    requires
        i <= b@.len(),
    ensures
        match r {
            Some(m) => capture_end_from(b@, i as int) == Some(m as int) && i <= m < b@.len(),
            None => capture_end_from(b@, i as int) is None,
        },
{
    let mut m = i;
    while m < b.len()
        invariant
            i <= m <= b@.len(),
            capture_end_from(b@, i as int) == capture_end_from(b@, m as int),
        decreases b@.len() - m,
    {
        if quote_byte(b[m]) {
            return Some(m);
        }
        if !print_byte(b[m]) {
            return None;
        }
        m = m + 1;
    }
    None
}

/// Extract the quoted boundary value declared in the text, as the byte
/// range `[r.0, r.1)` of its leftmost full declaration's capture.
pub fn extract_boundary_range(b: &[u8]) -> (r: Option<(usize, usize)>)
    ensures
        match r {
            Some(pair) => {
                &&& extract_boundary_spec(b@) == Some(b@.subrange(pair.0 as int, pair.1 as int))
                &&& 0 < pair.0 < pair.1 < b@.len()
                &&& is_quote_byte(b@[pair.0 - 1])
                &&& is_quote_byte(b@[pair.1 as int])
                &&& forall|j: int| pair.0 <= j < pair.1 ==> is_print_byte(b@[j])
            },
            None => extract_boundary_spec(b@) is None,
        },
{
    proof {
        reveal_strlit("boundary=");
        reveal_strlit("Boundary=");
        assert(is_ascii_chars("boundary="@));
        assert(is_ascii_chars("Boundary="@));
        is_ascii_chars_encode_utf8("boundary="@);
        is_ascii_chars_encode_utf8("Boundary="@);
        assert(encode_utf8("boundary="@).len() == 9);
        assert(encode_utf8("Boundary="@).len() == 9);
    }
    let blen = b.len();
    let mut p: usize = 0;
    while p < blen
        invariant
            0 <= p <= blen,
            blen == b@.len(),
            encode_utf8("boundary="@).len() == 9,
            encode_utf8("Boundary="@).len() == 9,
            boundary_find_from(b@, 0) == boundary_find_from(b@, p as int),
        decreases blen - p,
    {
        if blen - p > 10 {
            if sub_matches(b, "boundary=".as_bytes(), p) || sub_matches(
                b,
                "Boundary=".as_bytes(),
                p,
            ) {
                if quote_byte(b[p + 9]) && print_byte(b[p + 10]) {
                    match capture_end_exec(b, p + 11) {
                        Some(m) => {
                            assert(boundary_match_at(b@, p as int));
                            proof {
                                lemma_capture_end_from(b@, p as int + 11);
                                lemma_boundary_find_from(b@, 0);
                            }
                            return Some((p + 10, m));
                        },
                        None => {
                            assert(!boundary_match_at(b@, p as int));
                        },
                    }
                } else {
                    assert(!boundary_match_at(b@, p as int));
                }
            } else {
                assert(!boundary_match_at(b@, p as int));
            }
        } else {
            assert(!boundary_match_at(b@, p as int)) by {
                assert(!(p + 10 < b@.len()));
            }
        }
        p = p + 1;
    }
    None
}

} // verus!
