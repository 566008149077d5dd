//! The folding law: header folding is idempotent.  Re-parsing the
//! reconstructed `key: value` text of a folded header block yields exactly
//! the same key/value pairs.

use vstd::prelude::*;
use crate::bytes::{is_key_byte, is_space_byte, lower_byte, lower_bytes, trimmed, skip_spaces,
    rskip_spaces, lemma_skip_spaces, lemma_rskip_spaces};
use crate::headers::{SpecHeader, parse_headers_spec, key_list, key_list_from, key_run_end,
    header_at, is_key_pos, is_line_start, lemma_key_run_end, lemma_key_list_from,
    lemma_key_list_skip};
use crate::render::{spec_render_header, spec_render_headers};

verus! {

broadcast use vstd::seq::group_seq_axioms;

/// The shape every header coming out of the folder has: a nonempty,
/// already-lower-cased key of key bytes, and a trimmed value none of whose
/// inner lines begins a `key:` pattern of its own.
pub open spec fn folded_header(h: SpecHeader) -> bool {
    &&& h.key.len() > 0
    &&& (forall|j: int| 0 <= j < h.key.len() ==> is_key_byte(#[trigger] h.key[j]))
    &&& h.key == lower_bytes(h.key)
    &&& trimmed(h.value) == h.value
    &&& no_key_lines(h.value)
}

/// A `key:` pattern begins at position `r` of `v`.
pub open spec fn key_here(v: Seq<u8>, r: int) -> bool {
    &&& is_key_byte(v[r])
    &&& key_run_end(v, r) < v.len()
    &&& v[key_run_end(v, r)] == 0x3a
}

/// No inner line of `v` begins a `key:` pattern.
pub open spec fn no_key_lines(v: Seq<u8>) -> bool {
    forall|r: int| 1 <= r < v.len() && v[r - 1] == 0x0a ==> !key_here(v, r)
}

/// `key_run_end` is determined by its characteristic properties.
proof fn lemma_key_run_end_exact(s: Seq<u8>, p: int, m: int)
    requires
        0 <= p <= m <= s.len(),
        forall|j: int| p <= j < m ==> is_key_byte(#[trigger] s[j]),
        m < s.len() ==> !is_key_byte(s[m]),
    ensures
        key_run_end(s, p) == m,
    decreases m - p,
{
    if p < m {
        lemma_key_run_end_exact(s, p + 1, m);
    }
}

/// Trimming is idempotent.
pub proof fn lemma_trimmed_idempotent(x: Seq<u8>)
    ensures
        trimmed(trimmed(x)) == trimmed(x),
{
    let a = skip_spaces(x, 0, x.len() as int);
    lemma_skip_spaces(x, 0, x.len() as int);
    let b = rskip_spaces(x, a, x.len() as int);
    lemma_rskip_spaces(x, a, x.len() as int);
    let t = x.subrange(a, b);
    if t.len() == 0 {
        assert(trimmed(t) =~= t);
    } else {
        assert(!is_space_byte(t[0]));
        assert(!is_space_byte(t[t.len() - 1]));
        assert(skip_spaces(t, 0, t.len() as int) == 0);
        assert(rskip_spaces(t, 0, t.len() as int) == t.len() as int);
        assert(trimmed(t) =~= t);
    }
}

/// Trimming ignores whitespace padding on either side.
pub proof fn lemma_trimmed_padded(pad_l: Seq<u8>, v: Seq<u8>, pad_r: Seq<u8>)
    requires
        forall|j: int| 0 <= j < pad_l.len() ==> is_space_byte(#[trigger] pad_l[j]),
        forall|j: int| 0 <= j < pad_r.len() ==> is_space_byte(#[trigger] pad_r[j]),
        trimmed(v) == v,
    ensures
        trimmed(pad_l + v + pad_r) == v,
{
    let x = pad_l + v + pad_r;
    let ll = pad_l.len() as int;
    let vl = v.len() as int;
    lemma_skip_spaces(x, 0, x.len() as int);
    let a = skip_spaces(x, 0, x.len() as int);
    if vl == 0 {
        // everything is padding
        assert(forall|j: int| 0 <= j < x.len() ==> is_space_byte(#[trigger] x[j])) by {
            assert(forall|j: int|
                0 <= j < x.len() ==> x[j] == (if j < ll {
                    pad_l[j]
                } else {
                    pad_r[j - ll]
                }));
        }
        assert(a == x.len() as int);
        lemma_rskip_spaces(x, a, x.len() as int);
        assert(rskip_spaces(x, a, x.len() as int) == a);
        assert(trimmed(x) =~= v);
    } else {
        // the scan from the left stops exactly at the start of `v`
        assert(!is_space_byte(v[0]) && !is_space_byte(v[vl - 1])) by {
            lemma_skip_spaces(v, 0, vl);
            lemma_rskip_spaces(v, skip_spaces(v, 0, vl), vl);
            if is_space_byte(v[0]) {
                assert(skip_spaces(v, 0, vl) > 0) by {
                    assert(trimmed(v).len() < vl || skip_spaces(v, 0, vl) == 0);
                }
                assert(trimmed(v).len() < vl);
            }
            if skip_spaces(v, 0, vl) == 0 && is_space_byte(v[vl - 1]) {
                assert(rskip_spaces(v, 0, vl) < vl);
                assert(trimmed(v).len() < vl);
            }
        }
        assert(x[ll] == v[0]);
        assert(forall|j: int| 0 <= j < ll ==> is_space_byte(#[trigger] x[j]));
        assert(a == ll) by {
            if a < ll {
                assert(is_space_byte(x[a]));
            }
            if a > ll {
                assert(!is_space_byte(x[ll]));
            }
        }
        let b = rskip_spaces(x, a, x.len() as int);
        lemma_rskip_spaces(x, a, x.len() as int);
        assert(x[ll + vl - 1] == v[vl - 1]);
        assert(forall|j: int| ll + vl <= j < x.len() ==> is_space_byte(#[trigger] x[j])) by {
            assert(forall|j: int| ll + vl <= j < x.len() ==> x[j] == pad_r[j - ll - vl]);
        }
        assert(b == ll + vl) by {
            if b > ll + vl {
                assert(is_space_byte(x[b - 1]));
            }
            if b < ll + vl {
                assert(!is_space_byte(x[ll + vl - 1]));
            }
        }
        assert(trimmed(x) =~= v);
    }
}

/// `key_run_end` agrees between the whole text and a suffix of it.
proof fn lemma_key_run_end_suffix(t: Seq<u8>, a: int, j: int)
    requires
        0 <= a <= j <= t.len(),
    ensures
        key_run_end(t, j) == key_run_end(t.subrange(a, t.len() as int), j - a) + a,
    decreases t.len() - j,
{
    let sub = t.subrange(a, t.len() as int);
    if j < t.len() && is_key_byte(t[j]) {
        lemma_key_run_end_suffix(t, a, j + 1);
    }
}

/// Behind a line-feed boundary, a position starts a key in the whole text
/// exactly when it does in the suffix.
proof fn lemma_is_key_pos_suffix(t: Seq<u8>, a: int, j: int)
    requires
        0 <= a <= j < t.len(),
        a == 0 || t[a - 1] == 0x0a,
    ensures
        is_key_pos(t, j) == is_key_pos(t.subrange(a, t.len() as int), j - a),
{
    let sub = t.subrange(a, t.len() as int);
    lemma_key_run_end_suffix(t, a, j);
    lemma_key_run_end(t, j);
    lemma_key_run_end(sub, j - a);
    if j > a {
        assert(t[j - 1] == sub[j - a - 1]);
    }
    let e = key_run_end(t, j);
    if e < t.len() {
        assert(t[e] == sub[e - a]);
    }
}

/// The key list from a line-feed boundary on is the suffix's key list,
/// shifted by the offset.
proof fn lemma_key_list_suffix(t: Seq<u8>, a: int, j: int)
    requires
        0 <= a <= j <= t.len(),
        a == 0 || t[a - 1] == 0x0a,
    ensures
        key_list_from(t, j) == key_list_from(t.subrange(a, t.len() as int), j - a).map_values(
            |q: int| q + a,
        ),
    decreases t.len() - j,
{
    let sub = t.subrange(a, t.len() as int);
    if j >= t.len() {
        assert(key_list_from(t, j) =~= Seq::<int>::empty());
        assert(key_list_from(sub, j - a).map_values(|q: int| q + a) =~= Seq::<int>::empty());
    } else {
        lemma_key_list_suffix(t, a, j + 1);
        lemma_is_key_pos_suffix(t, a, j);
        if is_key_pos(t, j) {
            assert(key_list_from(t, j) == seq![j] + key_list_from(t, j + 1));
            assert(key_list_from(sub, j - a) == seq![j - a] + key_list_from(sub, j - a + 1));
            assert((seq![j - a] + key_list_from(sub, j - a + 1)).map_values(|q: int| q + a)
                =~= seq![j] + key_list_from(sub, j - a + 1).map_values(|q: int| q + a));
        }
    }
}

/// The byte layout of a rendered header list: the first key, its colon and
/// space, its value, and — when more headers follow — a line feed and the
/// rendering of the rest.
proof fn lemma_render_layout(hs: Seq<SpecHeader>)
    requires
        hs.len() > 0,
    ensures
        ({
            let t = spec_render_headers(hs);
            let k = hs[0].key;
            let v = hs[0].value;
            let t0l = k.len() as int + 2 + v.len() as int;
            &&& t.len() == if hs.len() == 1 {
                t0l
            } else {
                t0l + 1 + spec_render_headers(hs.drop_first()).len()
            }
            &&& (forall|j: int| 0 <= j < k.len() ==> t[j] == k[j])
            &&& t[k.len() as int] == 0x3a
            &&& t[k.len() as int + 1] == 0x20
            &&& (forall|j: int| 0 <= j < v.len() ==> t[k.len() as int + 2 + j] == v[j])
            &&& hs.len() > 1 ==> t[t0l] == 0x0a
            &&& hs.len() > 1 ==> t.subrange(t0l + 1, t.len() as int) == spec_render_headers(
                hs.drop_first(),
            )
        }),
{
    let t = spec_render_headers(hs);
    let k = hs[0].key;
    let v = hs[0].value;
    let t0 = spec_render_header(hs[0]);
    assert(t0 == k + seq![0x3au8, 0x20u8] + v);
    if hs.len() > 1 {
        assert(t == t0 + seq![0x0au8] + spec_render_headers(hs.drop_first()));
        assert(t.subrange(
            k.len() as int + 2 + v.len() as int + 1,
            t.len() as int,
        ) =~= spec_render_headers(hs.drop_first()));
    }
}

/// The rendering of a folded header list opens with a key position whose
/// run is exactly the first key.
proof fn lemma_render_first_key(hs: Seq<SpecHeader>)
    requires
        hs.len() > 0,
        folded_header(hs[0]),
    ensures
        is_key_pos(spec_render_headers(hs), 0),
        key_run_end(spec_render_headers(hs), 0) == hs[0].key.len(),
{
    let t = spec_render_headers(hs);
    let k = hs[0].key;
    lemma_render_layout(hs);
    assert(forall|j: int| 0 <= j < k.len() ==> is_key_byte(#[trigger] t[j]));
    assert(!is_key_byte(t[k.len() as int]));
    lemma_key_run_end_exact(t, 0, k.len() as int);
}

/// Between the opening key position and the start of the next rendered
/// header there is no key position: the key, colon and space cannot start
/// one, and the value's inner lines carry none by assumption.
proof fn lemma_render_gap(hs: Seq<SpecHeader>)
    requires
        hs.len() > 0,
        folded_header(hs[0]),
    ensures
        ({
            let t = spec_render_headers(hs);
            let t0l = hs[0].key.len() + 2 + hs[0].value.len();
            &&& forall|q: int| 0 < q < t0l ==> !is_key_pos(t, q)
            &&& hs.len() > 1 ==> !is_key_pos(t, t0l as int)
        }),
{
    let t = spec_render_headers(hs);
    let k = hs[0].key;
    let v = hs[0].value;
    let klen = k.len() as int;
    let vlen = v.len() as int;
    let t0l = klen + 2 + vlen;
    lemma_render_layout(hs);
    if hs.len() > 1 {
        assert(!is_key_byte(t[t0l]));
    }
    assert forall|q: int| 0 < q < t0l implies !is_key_pos(t, q) by {
        if q <= klen {
            assert(t[q - 1] == k[q - 1]);
            assert(is_key_byte(t[q - 1]));
            assert(!is_line_start(t, q));
        } else if q == klen + 1 {
            assert(t[q - 1] == 0x3a);
            assert(!is_line_start(t, q));
        } else if q == klen + 2 {
            assert(t[q - 1] == 0x20);
            assert(!is_line_start(t, q));
        } else {
            let r = q - klen - 2;
            assert(1 <= r < vlen);
            assert(t[q - 1] == v[r - 1]);
            if v[r - 1] == 0x0a {
                assert(!key_here(v, r));
                if is_key_pos(t, q) {
                    assert(is_key_byte(t[q]) && t[q] == v[r]);
                    let re = key_run_end(v, r);
                    lemma_key_run_end(v, r);
                    if re < vlen {
                        assert(key_run_end(t, q) == klen + 2 + re) by {
                            assert(forall|j: int|
                                q <= j < klen + 2 + re ==> is_key_byte(#[trigger] t[j])) by {
                                assert(forall|j: int|
                                    q <= j < klen + 2 + re ==> t[j] == v[j - klen - 2]);
                                assert(forall|j: int|
                                    r <= j < re ==> is_key_byte(#[trigger] v[j]));
                            }
                            assert(t[klen + 2 + re] == v[re]);
                            lemma_key_run_end_exact(t, q, klen + 2 + re);
                        }
                        assert(t[key_run_end(t, q)] == v[re]);
                        assert(v[re] == 0x3a);
                        assert(key_here(v, r));
                        assert(false);
                    } else {
                        // the run reaches the end of the value
                        assert(key_run_end(t, q) == t0l) by {
                            assert(forall|j: int|
                                q <= j < t0l ==> is_key_byte(#[trigger] t[j])) by {
                                assert(forall|j: int| q <= j < t0l ==> t[j] == v[j - klen - 2]);
                                assert(forall|j: int|
                                    r <= j < re ==> is_key_byte(#[trigger] v[j]));
                            }
                            if hs.len() > 1 {
                                assert(!is_key_byte(t[t0l]));
                            } else {
                                assert(t0l == t.len());
                            }
                            lemma_key_run_end_exact(t, q, t0l);
                        }
                        if hs.len() > 1 {
                            assert(t[t0l] == 0x0a);
                        }
                        assert(false);
                    }
                }
            } else {
                assert(!is_line_start(t, q));
            }
        }
    }
}

/// Re-parsing the rendering of a folded header list yields that list.
#[verifier::rlimit(100)]
pub proof fn lemma_render_parse(hs: Seq<SpecHeader>)
    requires
        forall|i: int| 0 <= i < hs.len() ==> folded_header(#[trigger] hs[i]),
    ensures
        parse_headers_spec(spec_render_headers(hs)) == hs,
    decreases hs.len(),
{
    let t = spec_render_headers(hs);
    if hs.len() == 0 {
        assert(t =~= Seq::<u8>::empty());
        assert(key_list_from(t, 0) =~= Seq::<int>::empty());
        assert(parse_headers_spec(t) =~= hs);
    } else {
        let k = hs[0].key;
        let v = hs[0].value;
        let klen = k.len() as int;
        let vlen = v.len() as int;
        let t0l = klen + 2 + vlen;
        let rest = hs.drop_first();
        let rest_t = spec_render_headers(rest);
        lemma_render_layout(hs);
        lemma_render_first_key(hs);
        lemma_render_gap(hs);
        lemma_render_parse(rest);
        let h: int = if hs.len() == 1 {
            t.len() as int
        } else {
            t0l + 1
        };

        // the key list of the rendering: position zero, then the rest's
        // key list shifted past the first rendered header
        assert(key_list_from(t, 0) == seq![0int] + key_list_from(t, 1));
        lemma_key_list_skip(t, 1, h);
        let ks = key_list(t);
        if hs.len() == 1 {
            assert(key_list_from(t, h) =~= Seq::<int>::empty());
            assert(ks =~= seq![0int]);
        } else {
            assert(t[h - 1] == 0x0a);
            lemma_key_list_suffix(t, h, h);
            assert(t.subrange(h, t.len() as int) == rest_t);
            assert(ks == seq![0int] + key_list(rest_t).map_values(|q: int| q + h));
        }
        let ks_rest = key_list(rest_t);

        // the first entry of the rest's key list is zero
        if hs.len() > 1 {
            assert(rest.len() > 0);
            assert(folded_header(rest[0]));
            lemma_render_first_key(rest);
            lemma_key_list_from(rest_t, 0);
            assert(ks_rest.contains(0));
            let z = choose|z: int| 0 <= z < ks_rest.len() && ks_rest[z] == 0;
            assert(ks_rest[0] == 0) by {
                if z > 0 {
                    assert(ks_rest[0] < ks_rest[z]);
                    assert(is_key_pos(rest_t, ks_rest[0]));
                }
            }
        }

        // entry zero parses back to the first header
        let next0: int = if hs.len() == 1 {
            t.len() as int
        } else {
            h
        };
        assert(ks.len() == hs.len());
        if hs.len() > 1 {
            assert(ks[1] == ks_rest[0] + h);
            assert(ks[1] == next0);
        }
        assert(header_at(t, 0, next0) == hs[0]) by {
            assert(t.subrange(0, klen) =~= k);
            crate::laws::lemma_lower_bytes_idempotent(k);
            let region = t.subrange(klen + 1, next0);
            if hs.len() == 1 {
                assert(region =~= seq![0x20u8] + v + Seq::<u8>::empty());
                lemma_trimmed_padded(seq![0x20u8], v, Seq::<u8>::empty());
            } else {
                assert(region =~= seq![0x20u8] + v + seq![0x0au8]);
                lemma_trimmed_padded(seq![0x20u8], v, seq![0x0au8]);
            }
        }

        // the later entries parse back to the rest
        assert forall|i: int| 1 <= i < hs.len() implies parse_headers_spec(t)[i] == hs[i] by {
            let q = ks_rest[i - 1];
            assert(ks[i] == q + h);
            lemma_key_list_from(rest_t, 0);
            assert(is_key_pos(rest_t, q));
            lemma_key_run_end_suffix(t, h, q + h);
            lemma_key_run_end(rest_t, q);
            let e_r = key_run_end(rest_t, q);
            assert(key_run_end(t, q + h) == e_r + h);
            let next_r: int = if i < hs.len() - 1 {
                ks_rest[i]
            } else {
                rest_t.len() as int
            };
            let next_t: int = if i + 1 < ks.len() {
                ks[i + 1]
            } else {
                t.len() as int
            };
            assert(next_t == next_r + h);
            assert(e_r + 1 <= next_r <= rest_t.len()) by {
                lemma_parsed_headers_bounds(rest_t, i - 1);
            }
            assert(t.subrange(q + h, e_r + h) =~= rest_t.subrange(q, e_r));
            assert(t.subrange(e_r + h + 1, next_t) =~= rest_t.subrange(e_r + 1, next_r));
            assert(parse_headers_spec(t)[i] == header_at(t, q + h, next_t));
            assert(parse_headers_spec(rest_t)[i - 1] == header_at(rest_t, q, next_r));
            assert(parse_headers_spec(rest_t)[i - 1] == rest[i - 1]);
            assert(rest[i - 1] == hs[i]);
        }
        assert(parse_headers_spec(t) =~= hs);
    }
}

/// The value region of entry `i` of the key list is well-formed: it starts
/// past the key's colon and ends at the next key (or the end).
proof fn lemma_parsed_headers_bounds(s: Seq<u8>, i: int)
    requires
        0 <= i < key_list(s).len(),
    ensures
        ({
            let ks = key_list(s);
            let e = key_run_end(s, ks[i]);
            let next: int = if i + 1 < ks.len() {
                ks[i + 1]
            } else {
                s.len() as int
            };
            e + 1 <= next <= s.len()
        }),
{
    lemma_key_list_from(s, 0);
    let ks = key_list(s);
    let p = ks[i];
    let e = key_run_end(s, p);
    lemma_key_run_end(s, p);
    if i + 1 < ks.len() {
        let next = ks[i + 1];
        assert(ks[i] < ks[i + 1]);
        assert(is_key_pos(s, next));
        if next < e + 1 {
            assert(is_line_start(s, next));
            assert(s[next - 1] == 0x0a);
            assert(next - 1 >= p);
            assert(p <= next - 1 < e ==> is_key_byte(s[next - 1]));
            assert(next - 1 == e ==> s[next - 1] == 0x3a);
        }
    }
}

/// Header folding is idempotent on already-folded input: re-parsing the
/// reconstructed `key: value` text of any folded header block yields
/// exactly the same key/value pairs.
pub proof fn lemma_header_folding_idempotent(s: Seq<u8>)
    ensures
        parse_headers_spec(spec_render_headers(parse_headers_spec(s))) == parse_headers_spec(s),
{
    let hs = parse_headers_spec(s);
    assert forall|i: int| 0 <= i < hs.len() implies folded_header(#[trigger] hs[i]) by {
        lemma_parsed_headers_folded(s, i);
    }
    lemma_render_parse(hs);
}

/// Every header the folder produces is `folded_header`-shaped.
pub proof fn lemma_parsed_headers_folded(s: Seq<u8>, i: int)
    requires
        0 <= i < parse_headers_spec(s).len(),
    ensures
        folded_header(parse_headers_spec(s)[i]),
{
    lemma_key_list_from(s, 0);
    let ks = key_list(s);
    let p = ks[i];
    let e = key_run_end(s, p);
    lemma_key_run_end(s, p);
    let next: int = if i + 1 < ks.len() {
        ks[i + 1]
    } else {
        s.len() as int
    };
    let h = parse_headers_spec(s)[i];
    assert(h == header_at(s, p, next));

    // the key: nonempty, key bytes, lower-cased
    let kb = s.subrange(p, e);
    assert(e > p) by {
        assert(is_key_byte(s[p]));
        if e == p {
            assert(s[key_run_end(s, p)] == 0x3a);
        }
    }
    assert(h.key.len() > 0);
    assert(forall|j: int| 0 <= j < h.key.len() ==> is_key_byte(#[trigger] h.key[j])) by {
        assert(forall|j: int| 0 <= j < kb.len() ==> is_key_byte(#[trigger] kb[j]));
        assert(forall|j: int|
            0 <= j < h.key.len() ==> h.key[j] == lower_byte(#[trigger] kb[j]));
    }
    crate::laws::lemma_lower_bytes_idempotent(kb);

    // the value: trimmed, with no key-shaped inner line
    assert(e + 1 <= next <= s.len()) by {
        if i + 1 < ks.len() {
            assert(ks[i] < ks[i + 1]);
            assert(is_key_pos(s, next));
            if next < e + 1 {
                assert(is_key_byte(s[next]) || s[next] == 0x3a);
                if next == e {
                    assert(s[e] == 0x3a && is_key_byte(s[next]));
                } else {
                    assert(p <= next < e ==> is_key_byte(s[next]));
                    assert(is_line_start(s, next));
                    assert(s[next - 1] == 0x0a);
                    assert(p <= next - 1 < e ==> is_key_byte(s[next - 1]));
                    assert(next - 1 == e ==> s[next - 1] == 0x3a);
                    assert(next - 1 >= p);
                }
            }
        }
    }
    lemma_trimmed_idempotent(s.subrange(e + 1, next));

    let v = h.value;
    let region = s.subrange(e + 1, next);
    let ts = skip_spaces(s, e + 1, next);
    crate::bytes::lemma_trimmed_sub(s, e + 1, next);
    lemma_skip_spaces(s, e + 1, next);
    let te = rskip_spaces(s, ts, next);
    lemma_rskip_spaces(s, ts, next);
    assert(v == s.subrange(ts, te));
    assert forall|r: int| 1 <= r < v.len() && v[r - 1] == 0x0a implies !key_here(v, r) by {
        if key_here(v, r) {
            let q = ts + r;
            let re = key_run_end(v, r);
            lemma_key_run_end(v, r);
            // the same key pattern sits at `q` in the whole block
            assert(is_key_pos(s, q)) by {
                assert(s[q - 1] == v[r - 1]);
                assert(is_key_byte(s[q]));
                assert(key_run_end(s, q) == ts + re) by {
                    assert(forall|j: int| q <= j < ts + re ==> s[j] == v[j - ts]);
                    assert(forall|j: int|
                        q <= j < ts + re ==> is_key_byte(#[trigger] s[j])) by {
                        assert(forall|j: int| r <= j < re ==> is_key_byte(#[trigger] v[j]));
                    }
                    assert(s[ts + re] == v[re]);
                    assert(!is_key_byte(s[ts + re]));
                    lemma_key_run_end_exact(s, q, ts + re);
                }
                assert(s[ts + re] == v[re]);
            }
            // but the folder's key list holds every key position, in order,
            // and `q` falls strictly between two neighbours
            assert(ks.contains(q));
            let k = choose|k: int| 0 <= k < ks.len() && ks[k] == q;
            assert(q > p);
            assert(q < te <= next);
            if i + 1 < ks.len() {
                if k <= i {
                    assert(ks[k] <= ks[i]);
                }
                if k >= i + 1 {
                    assert(ks[k] >= ks[i + 1]);
                }
            } else {
                if k < i {
                    assert(ks[k] < ks[i]);
                }
                if k == i {
                }
            }
            assert(false);
        }
    }
}

} // verus!
