//! The header folder: reconstructing logical key/value pairs from a block of
//! raw header text.
//!
//! A header key is a run of letters, digits, `_` or `-` that starts a line
//! and is immediately followed by `:`.  The value of a key is everything
//! strictly between the end of its colon and the start of the next key (or
//! the end of the block), trimmed of surrounding whitespace.  Any line that
//! does not itself start a key — folded continuation lines in particular —
//! is therefore absorbed into the previous value.  Keys are stored
//! lower-cased.

use vstd::prelude::*;
use vstd::utf8::*;
use vstd::string::StringSliceAdditionalSpecFns;
use crate::bytes::{
    is_key_byte, is_space_byte, lower_byte, lower_bytes, trimmed, skip_spaces, rskip_spaces,
    lemma_skip_spaces, lemma_rskip_spaces, lemma_trimmed_sub, skip_spaces_exec, rskip_spaces_exec,
    key_byte,
};
use crate::text::{
    lemma_boundary_at, lemma_boundary_after_ascii, lemma_str_bytes_valid, substr_range, str_lower,
    lower_char, lemma_ascii_str_chars,
};

verus! {

broadcast use vstd::string::group_string_axioms;

/// The mathematical content of one header: its lower-cased key and trimmed
/// value, both as byte sequences.
pub struct SpecHeader {
    pub key: Seq<u8>,
    pub value: Seq<u8>,
}

/// Position `p` starts a line of `s`.
pub open spec fn is_line_start(s: Seq<u8>, p: int) -> bool {
    p == 0 || s[p - 1] == 0x0a
}

/// End of the run of key bytes beginning at `p`.
pub open spec fn key_run_end(s: Seq<u8>, p: int) -> int
    decreases s.len() - p,
    when 0 <= p <= s.len()
{
    if p < s.len() && is_key_byte(s[p]) {
        key_run_end(s, p + 1)
    } else {
        p
    }
}

/// Position `p` starts a header key: it starts a line, holds at least one
/// key byte, and the key run is immediately followed by a colon.
pub open spec fn is_key_pos(s: Seq<u8>, p: int) -> bool {
    &&& 0 <= p < s.len()
    &&& is_line_start(s, p)
    &&& is_key_byte(s[p])
    &&& key_run_end(s, p) < s.len()
    &&& s[key_run_end(s, p)] == 0x3a
}

/// All key positions at or after `from`, in order.
pub open spec fn key_list_from(s: Seq<u8>, from: int) -> Seq<int>
    decreases s.len() - from,
    when 0 <= from <= s.len()
{
    if from >= s.len() {
        Seq::empty()
    } else if is_key_pos(s, from) {
        seq![from] + key_list_from(s, from + 1)
    } else {
        key_list_from(s, from + 1)
    }
}

/// All key positions of the block, in order.
pub open spec fn key_list(s: Seq<u8>) -> Seq<int> {
    key_list_from(s, 0)
}

/// The header whose key starts at `p` and whose value runs to `next`.
pub open spec fn header_at(s: Seq<u8>, p: int, next: int) -> SpecHeader {
    let e = key_run_end(s, p);
    SpecHeader {
        key: lower_bytes(s.subrange(p, e)),
        value: trimmed(s.subrange(e + 1, next)),
    }
}

/// The ordered sequence of headers folded out of the block `s`.  A block
/// with no recognized key yields the empty sequence.
pub open spec fn parse_headers_spec(s: Seq<u8>) -> Seq<SpecHeader> {
    let ks = key_list(s);
    Seq::new(
        ks.len(),
        |i: int|
            header_at(
                s,
                ks[i],
                if i + 1 < ks.len() {
                    ks[i + 1]
                } else {
                    s.len() as int
                },
            ),
    )
}

/// Basic facts about `key_run_end`: it stays in range, covers key bytes
/// only, and stops at the first non-key byte.
pub proof fn lemma_key_run_end(s: Seq<u8>, p: int)
    requires
        0 <= p <= s.len(),
    ensures
        p <= key_run_end(s, p) <= s.len(),
        forall|j: int| p <= j < key_run_end(s, p) ==> is_key_byte(s[j]),
        key_run_end(s, p) < s.len() ==> !is_key_byte(s[key_run_end(s, p)]),
    decreases s.len() - p,
{
    if p < s.len() && is_key_byte(s[p]) {
        lemma_key_run_end(s, p + 1);
    }
}

/// Every entry of `key_list_from` is a key position in `[from, len)`, the
/// list is strictly increasing, and it misses no key position.
pub proof fn lemma_key_list_from(s: Seq<u8>, from: int)
    requires
        0 <= from <= s.len(),
    ensures
        forall|i: int|
            0 <= i < key_list_from(s, from).len() ==> from <= #[trigger] key_list_from(s, from)[i]
                && is_key_pos(s, key_list_from(s, from)[i]),
        forall|i: int, j: int|
            0 <= i < j < key_list_from(s, from).len() ==> key_list_from(s, from)[i]
                < key_list_from(s, from)[j],
        forall|q: int|
            from <= q && is_key_pos(s, q) ==> key_list_from(s, from).contains(q),
    decreases s.len() - from,
{
    if from >= s.len() {
    } else {
        lemma_key_list_from(s, from + 1);
        let rest = key_list_from(s, from + 1);
        if is_key_pos(s, from) {
            let l = key_list_from(s, from);
            assert(l == seq![from] + rest);
            assert forall|q: int| from <= q && is_key_pos(s, q) implies l.contains(q) by {
                if q == from {
                    assert(l[0] == from);
                } else {
                    assert(rest.contains(q));
                    let k = choose|k: int| 0 <= k < rest.len() && rest[k] == q;
                    assert(l[k + 1] == q);
                }
            }
        } else {
            assert forall|q: int|
                from <= q && is_key_pos(s, q) implies key_list_from(s, from).contains(q) by {
                assert(rest.contains(q));
            }
        }
    }
}

/// Dropping positions known not to start keys does not change the list.
pub proof fn lemma_key_list_skip(s: Seq<u8>, from: int, p: int)
    requires
        0 <= from <= p <= s.len(),
        forall|q: int| from <= q < p ==> !is_key_pos(s, q),
    ensures
        key_list_from(s, from) == key_list_from(s, p),
    decreases p - from,
{
    if from < p {
        lemma_key_list_skip(s, from + 1, p);
    }
}

/// A wrapped `String` pair: one parsed header.
#[derive(Debug, PartialEq)]
pub struct Header {
    pub key: String,
    pub value: String,
}

impl View for Header {
    type V = SpecHeader;

    open spec fn view(&self) -> SpecHeader {
        SpecHeader { key: encode_utf8(self.key@), value: encode_utf8(self.value@) }
    }
}

impl Header {
    /// Wrap a key and a value, both taken verbatim.
    pub fn new(key: &str, value: &str) -> (r: Header)
        ensures
            r@ == (SpecHeader { key: key.spec_bytes(), value: value.spec_bytes() }),
    {
        Header { key: key.to_owned(), value: value.to_owned() }
    }
}

/// Executable `key_run_end`.
fn run_end(b: &[u8], p: usize) -> (e: usize)
    requires
        p <= b@.len(),
    ensures
        e == key_run_end(b@, p as int),
        p <= e <= b@.len(),
{
    let mut e = p;
    while e < b.len() && key_byte(b[e])
        invariant
            p <= e <= b@.len(),
            key_run_end(b@, p as int) == key_run_end(b@, e as int),
        decreases b@.len() - e,
    {
        e = e + 1;
    }
    e
}

/// Fold the block `raw` into its ordered sequence of headers.
///
/// A block with zero recognized keys produces an empty vector — never an
/// error.
pub fn parse_headers(raw: &str) -> (r: Vec<Header>)
    ensures
        r@.map_values(|h: Header| h@) == parse_headers_spec(raw.spec_bytes()),
{
    let ghost s = raw.spec_bytes();
    let b = raw.as_bytes();
    let blen = b.len();

    // Collect the key positions, in order.
    let mut starts: Vec<usize> = Vec::new();
    let mut p: usize = 0;
    while p < blen
        invariant
            0 <= p <= blen,
            blen == s.len(),
            b@ == s,
            key_list(s) == starts@.map_values(|u: usize| u as int) + key_list_from(s, p as int),
            forall|i: int| 0 <= i < starts@.len() ==> starts@[i] < p,
        decreases blen - p,
    {
        let ghost prev = starts@;
        let line_start = p == 0 || b[p - 1] == 0x0a;
        let mut found = false;
        if line_start && key_byte(b[p]) {
            let e = run_end(b, p);
            if e < blen && b[e] == 0x3a {
                starts.push(p);
                found = true;
            }
        }
        proof {
            if found {
                assert(is_key_pos(s, p as int));
                assert(key_list_from(s, p as int) == seq![p as int] + key_list_from(
                    s,
                    p as int + 1,
                ));
                assert(starts@.map_values(|u: usize| u as int) =~= prev.map_values(
                    |u: usize| u as int,
                ) + seq![p as int]);
                assert(prev.map_values(|u: usize| u as int) + (seq![p as int] + key_list_from(
                    s,
                    p as int + 1,
                )) =~= starts@.map_values(|u: usize| u as int) + key_list_from(s, p as int + 1));
            } else {
                assert(!is_key_pos(s, p as int));
            }
        }
        p = p + 1;
    }
    assert(key_list(s) == starts@.map_values(|u: usize| u as int));

    proof {
        lemma_str_bytes_valid(raw);
        lemma_key_list_from(s, 0);
        assert forall|i: int| 0 <= i < starts@.len() implies is_key_pos(
            s,
            #[trigger] starts@[i] as int,
        ) && starts@[i] < blen by {
            assert(key_list(s)[i] == starts@.map_values(|u: usize| u as int)[i]);
            assert(is_key_pos(s, key_list(s)[i]));
        }
        assert forall|i: int, j: int| 0 <= i < j < starts@.len() implies starts@[i]
            < starts@[j] by {
            assert(key_list(s)[i] == starts@.map_values(|u: usize| u as int)[i]);
            assert(key_list(s)[j] == starts@.map_values(|u: usize| u as int)[j]);
            assert(key_list(s)[i] < key_list(s)[j]);
        }
    }

    // Turn each key position into a Header.
    let n = starts.len();
    let mut out: Vec<Header> = Vec::new();
    let mut idx: usize = 0;
    while idx < n
        invariant
            0 <= idx <= n,
            n == starts@.len(),
            blen == s.len(),
            b@ == s,
            raw.spec_bytes() == s,
            valid_utf8(s),
            key_list(s) == starts@.map_values(|u: usize| u as int),
            forall|i: int|
                0 <= i < n ==> is_key_pos(s, #[trigger] starts@[i] as int) && starts@[i] < blen,
            forall|i: int, j: int| 0 <= i < j < n ==> starts@[i] < starts@[j],
            out@.len() == idx,
            forall|i: int|
                0 <= i < idx ==> #[trigger] out@[i]@ == parse_headers_spec(s)[i],
        decreases n - idx,
    {
        let start = starts[idx];
        let e = run_end(b, start);
        proof {
            lemma_key_run_end(s, start as int);
        }
        // The key: the run of key bytes, lower-cased.
        proof {
            lemma_boundary_at(s, start as int);
            lemma_boundary_at(s, e as int);
        }
        let key_part = substr_range(raw, start, e);
        let key = str_lower(key_part);
        proof {
            lemma_ascii_str_chars(key_part);
            let kb = s.subrange(start as int, e as int);
            assert(encode_utf8(key@) =~= lower_bytes(kb)) by {
                let kc = key_part@;
                assert(key@ == kc.map_values(|c: char| lower_char(c)));
                assert(is_ascii_chars(key@)) by {
                    assert forall|i: int| 0 <= i < key@.len() implies '\0' <= #[trigger] key@[i]
                        <= '\u{7f}' by {
                        assert(key@[i] == lower_char(kc[i]));
                    }
                }
                is_ascii_chars_encode_utf8(key@);
                assert forall|i: int| 0 <= i < key@.len() implies encode_utf8(key@)[i]
                    == lower_bytes(kb)[i] by {
                    assert(key@[i] == lower_char(kc[i]));
                    assert(kc[i] == kb[i] as char);
                    assert(encode_utf8(key@)[i] == key@[i] as u8);
                    assert(lower_bytes(kb)[i] == lower_byte(kb[i]));
                }
            }
        }

        // The value: from past the colon to the next key (or the end).
        let vstart = e + 1;
        let vend = if idx + 1 < n {
            starts[idx + 1]
        } else {
            blen
        };
        proof {
            if idx + 1 < n {
                assert(starts@.map_values(|u: usize| u as int)[idx as int] == start as int);
                assert(starts@.map_values(|u: usize| u as int)[idx as int + 1] == vend as int);
                assert(key_list(s)[idx as int] < key_list(s)[idx + 1 as int]) by {
                    lemma_key_list_from(s, 0);
                }
                assert(is_key_pos(s, vend as int));
                lemma_key_run_end(s, vstart as int);
            }
            assert(vstart <= vend <= s.len()) by {
                if idx + 1 < n {
                    // the next key starts a line, and the colon is not a
                    // line feed, so the run from vstart cannot pass vend
                    if vend < vstart {
                        assert(is_key_byte(s[vend as int]) || s[vend as int] == 0x3a);
                    }
                }
            }
        }
        let ts = skip_spaces_exec(b, vstart, vend);
        let te = rskip_spaces_exec(b, ts, vend);
        proof {
            lemma_skip_spaces(s, vstart as int, vend as int);
            lemma_rskip_spaces(s, ts as int, vend as int);
            // both trim positions sit next to ASCII bytes
            assert(is_char_boundary(s, ts as int)) by {
                if ts as int == s.len() {
                    lemma_boundary_at(s, ts as int);
                } else if ts == vend {
                    assert(vend == blen || is_key_byte(s[vend as int]));
                    lemma_boundary_at(s, ts as int);
                } else if ts == vstart {
                    assert(s[vstart as int - 1] == 0x3a);
                    lemma_boundary_after_ascii(s, ts as int);
                } else {
                    assert(is_space_byte(s[ts as int - 1]));
                    lemma_boundary_after_ascii(s, ts as int);
                }
            }
            assert(is_char_boundary(s, te as int)) by {
                if te == ts {
                } else if te == vend {
                    if vend < blen {
                        assert(is_key_byte(s[vend as int]));
                        lemma_boundary_at(s, te as int);
                    } else {
                        lemma_boundary_at(s, te as int);
                    }
                } else {
                    assert(is_space_byte(s[te as int]));
                    lemma_boundary_at(s, te as int);
                }
            }
        }
        let value_part = substr_range(raw, ts, te);
        let value = value_part.to_owned();
        proof {
            lemma_trimmed_sub(s, vstart as int, vend as int);
        }

        out.push(Header { key, value });

        proof {
            let hs = parse_headers_spec(s);
            let ks = key_list(s);
            assert(ks[idx as int] == start as int);
            assert(hs[idx as int] == header_at(s, start as int, vend as int));
            assert(out@[idx as int]@ == hs[idx as int]);
            assert forall|i: int| 0 <= i < idx + 1 implies #[trigger] out@[i]@ == hs[i] by {}
        }
        idx = idx + 1;
    }
    proof {
        assert(out@.map_values(|h: Header| h@) =~= parse_headers_spec(s));
    }
    out
}

} // verus!
