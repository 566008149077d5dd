//! Bridging text and its UTF-8 bytes: slicing a `&str` at byte positions
//! that the byte-level grammar produces, and ASCII lower-casing.
//!
//! Every split position the parser computes sits next to an ASCII byte, so
//! it is always a character boundary; the lemmas here turn that observation
//! into proof.

use vstd::prelude::*;
use vstd::utf8::*;
use vstd::string::StringSliceAdditionalSpecFns;

verus! {

broadcast use vstd::string::group_string_axioms;

/// In valid UTF-8, a position holding a non-continuation byte (or the end of
/// the sequence) is a character boundary.
pub proof fn lemma_boundary_at(bytes: Seq<u8>, i: int)
    requires
        valid_utf8(bytes),
        0 <= i <= bytes.len(),
        i < bytes.len() ==> !is_continuation_byte(bytes[i]),
    ensures
        is_char_boundary(bytes, i),
{
    if i == bytes.len() {
        is_char_boundary_start_end_of_seq(bytes);
    } else {
        is_char_boundary_iff_not_is_continuation_byte(bytes, i);
    }
}

/// In valid UTF-8, the position directly after an ASCII byte is a character
/// boundary: an ASCII byte encodes a whole character by itself.
pub proof fn lemma_boundary_after_ascii(bytes: Seq<u8>, i: int)
    requires
        valid_utf8(bytes),
        0 < i <= bytes.len(),
        bytes[i - 1] < 0x80,
    ensures
        is_char_boundary(bytes, i),
{
    if i == bytes.len() {
        is_char_boundary_start_end_of_seq(bytes);
    } else {
        is_char_boundary_iff_not_is_continuation_byte(bytes, i - 1);
        valid_utf8_split(bytes, i - 1);
        let tail = bytes.subrange(i - 1, bytes.len() as int);
        assert(tail[0] == bytes[i - 1] && tail[1] == bytes[i]);
        assert(valid_first_scalar(tail));
        assert(length_of_first_scalar(tail) == 1);
        assert(is_char_boundary(pop_first_scalar(tail), 0));
        assert(is_char_boundary(tail, 1));
        is_char_boundary_iff_not_is_continuation_byte(tail, 1);
        is_char_boundary_iff_not_is_continuation_byte(bytes, i);
    }
}

/// The byte sequence of any `&str` is valid UTF-8.
pub proof fn lemma_str_bytes_valid(s: &str)
    ensures
        valid_utf8(s.spec_bytes()),
{
    encode_utf8_valid_utf8(s@);
}

/// Slice `s` at the byte positions `a..b`; both must be character
/// boundaries of its UTF-8 encoding.
pub fn substr_range<'a>(s: &'a str, a: usize, b: usize) -> (r: &'a str)
    requires
        a <= b <= s.spec_bytes().len(),
        is_char_boundary(s.spec_bytes(), a as int),
        is_char_boundary(s.spec_bytes(), b as int),
    ensures
        r.spec_bytes() == s.spec_bytes().subrange(a as int, b as int),
{
    proof {
        lemma_str_bytes_valid(s);
        valid_utf8_split(s.spec_bytes(), a as int);
    }
    let (_, tail) = s.split_at(a);
    proof {
        let sb = s.spec_bytes();
        let tb = tail.spec_bytes();
        assert(tb =~= sb.subrange(a as int, sb.len() as int));
        if b == sb.len() {
            is_char_boundary_start_end_of_seq(tb);
        } else if a == b {
            assert(is_char_boundary(tb, 0));
        } else {
            assert(tb[b - a] == sb[b as int]);
            is_char_boundary_iff_not_is_continuation_byte(sb, b as int);
            is_char_boundary_iff_not_is_continuation_byte(tb, b - a);
        }
    }
    let (mid, _) = tail.split_at(b - a);
    proof {
        assert(mid.spec_bytes() =~= s.spec_bytes().subrange(a as int, b as int));
    }
    mid
}

/// ASCII lower-casing of one character: `A`..`Z` map to `a`..`z`, all other
/// characters are unchanged.
pub open spec fn lower_char(c: char) -> char {
    if 'A' <= c <= 'Z' {
        ((c as u8) + 0x20) as char
    } else {
        c
    }
}

/// Relies on `str::to_ascii_lowercase`: ASCII upper-case letters are mapped
/// to lower case and every other character is returned unchanged.
#[verifier::external_body]
pub fn str_lower(s: &str) -> (r: String)
    ensures
        r@ == s@.map_values(|c: char| lower_char(c)),
{
    s.to_ascii_lowercase()
}

/// A `&str` whose bytes are all ASCII reads, character by character, as
/// those bytes.
pub proof fn lemma_ascii_str_chars(s: &str)
    requires
        forall|i: int| 0 <= i < s.spec_bytes().len() ==> s.spec_bytes()[i] < 0x80,
    ensures
        s@.len() == s.spec_bytes().len(),
        forall|i: int| 0 <= i < s@.len() ==> s@[i] == s.spec_bytes()[i] as char,
        is_ascii_chars(s@),
{
    lemma_ascii_encode(s@, s.spec_bytes());
}

/// If `encode_utf8(chars)` is an all-ASCII byte sequence, then `chars` is
/// exactly that sequence read as characters.
pub proof fn lemma_ascii_encode(chars: Seq<char>, bytes: Seq<u8>)
    requires
        encode_utf8(chars) == bytes,
        forall|i: int| 0 <= i < bytes.len() ==> bytes[i] < 0x80,
    ensures
        chars.len() == bytes.len(),
        forall|i: int| 0 <= i < chars.len() ==> chars[i] == bytes[i] as char,
        is_ascii_chars(chars),
    decreases chars.len(),
{
    if chars.len() == 0 {
    } else {
        let c = chars[0];
        let cu = c as u32;
        let rest = chars.drop_first();
        char_is_scalar(c);
        assert(encode_utf8(chars) == encode_scalar(cu) + encode_utf8(rest));
        assert(bytes[0] == encode_scalar(cu)[0]);
        if cu >= 0x80 {
            assert(encode_scalar(cu)[0] >= 0x80) by {
                if has_width_2_encoding(cu) {
                    assert(0xC0 | (((cu >> 6) & 0x1F) as u8) >= 0x80) by (bit_vector);
                } else if has_width_3_encoding(cu) {
                    assert(0xE0 | (((cu >> 12) & 0x0F) as u8) >= 0x80) by (bit_vector);
                } else {
                    assert(0xF0 | (((cu >> 18) & 0x7) as u8) >= 0x80) by (bit_vector);
                }
            }
            assert(false);
        }
        assert(has_width_1_encoding(cu));
        assert(leading_byte_width_1(cu) == cu as u8) by (bit_vector)
            requires
                cu < 0x80,
        ;
        assert(encode_scalar(cu) =~= seq![cu as u8]);
        assert(bytes[0] == cu as u8);
        char_u32_cast(c, cu);
        assert(chars[0] == bytes[0] as char);
        assert(encode_utf8(rest) =~= bytes.drop_first());
        lemma_ascii_encode(rest, bytes.drop_first());
        assert forall|i: int| 0 <= i < chars.len() implies chars[i] == bytes[i] as char by {
            if i > 0 {
                assert(chars[i] == rest[i - 1]);
                assert(bytes[i] == bytes.drop_first()[i - 1]);
            }
        }
    }
}

} // verus!
