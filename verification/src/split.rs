//! Splitting text: on a literal delimiter (the `--boundary` marker of a
//! multipart body) and on the first blank-line-style separator (a run of two
//! or more line feeds, or of two or more carriage returns).

use vstd::prelude::*;
use vstd::utf8::{valid_utf8, is_char_boundary};
use vstd::string::StringSliceAdditionalSpecFns;
use crate::bytes::matches_at;
use crate::scan::{find_from, lemma_find_from, find_sub};
use crate::text::{lemma_boundary_at, lemma_boundary_after_ascii, lemma_str_bytes_valid,
    substr_range};

verus! {

/// The fragments of `s` split on every occurrence of the delimiter `d`,
/// found left to right.
pub open spec fn split_on(s: Seq<u8>, d: Seq<u8>) -> Seq<Seq<u8>>
    decreases s.len(),
    when d.len() > 0
    via split_on_decreases
{
    match find_from(s, d, 0) {
        None => seq![s],
        Some(p) => seq![s.subrange(0, p)] + split_on(
            s.subrange(p + d.len(), s.len() as int),
            d,
        ),
    }
}

#[via_fn]
proof fn split_on_decreases(s: Seq<u8>, d: Seq<u8>) {
    lemma_find_from(s, d, 0);
}

/// Total length of a sequence of fragments.
pub open spec fn sum_len(frags: Seq<Seq<u8>>) -> int
    decreases frags.len(),
{
    if frags.len() == 0 {
        0
    } else {
        frags[0].len() + sum_len(frags.drop_first())
    }
}

/// Every fragment is no longer than the total.
pub proof fn lemma_sum_len_elem(frags: Seq<Seq<u8>>, i: int)
    requires
        0 <= i < frags.len(),
    ensures
        frags[i].len() <= sum_len(frags),
        sum_len(frags) >= 0,
    decreases frags.len(),
{
    lemma_sum_len_nonneg(frags);
    if i > 0 {
        lemma_sum_len_elem(frags.drop_first(), i - 1);
    } else {
        lemma_sum_len_nonneg(frags.drop_first());
    }
}

/// Fragment lengths are non-negative, so the total is too.
pub proof fn lemma_sum_len_nonneg(frags: Seq<Seq<u8>>)
    ensures
        sum_len(frags) >= 0,
    decreases frags.len(),
{
    if frags.len() > 0 {
        lemma_sum_len_nonneg(frags.drop_first());
    }
}

/// Splitting accounts for every byte: the fragments plus one delimiter per
/// split add up to the original length, and there is at least one fragment.
pub proof fn lemma_split_on_len(s: Seq<u8>, d: Seq<u8>)
    requires
        d.len() > 0,
    ensures
        split_on(s, d).len() >= 1,
        sum_len(split_on(s, d)) + d.len() * (split_on(s, d).len() - 1) == s.len(),
    decreases s.len(),
{
    lemma_find_from(s, d, 0);
    match find_from(s, d, 0) {
        None => {
            assert(split_on(s, d) == seq![s]);
            assert(seq![s].drop_first() =~= Seq::<Seq<u8>>::empty());
            assert(sum_len(seq![s]) == s.len() + sum_len(Seq::<Seq<u8>>::empty()));
        },
        Some(p) => {
            let rest = s.subrange(p + d.len(), s.len() as int);
            lemma_split_on_len(rest, d);
            let frags = split_on(s, d);
            let sub = split_on(rest, d);
            assert(frags == seq![s.subrange(0, p)] + sub);
            assert(frags.drop_first() =~= sub);
            assert(sum_len(frags) == p + sum_len(sub));
            assert(d.len() * (frags.len() - 1) == d.len() * (sub.len() - 1) + d.len())
                by (nonlinear_arith)
                requires
                    frags.len() == sub.len() + 1,
            ;
        },
    }
}

/// Every fragment after the first is shorter than the input by at least one
/// delimiter; the first is never longer than the input, and also shorter by
/// a delimiter when any split happened.
pub proof fn lemma_split_on_frag_len(s: Seq<u8>, d: Seq<u8>, i: int)
    requires
        d.len() > 0,
        0 <= i < split_on(s, d).len(),
    ensures
        split_on(s, d)[i].len() <= s.len(),
        split_on(s, d).len() >= 2 ==> split_on(s, d)[i].len() + d.len() <= s.len(),
{
    lemma_split_on_len(s, d);
    lemma_sum_len_elem(split_on(s, d), i);
    let n = split_on(s, d).len() as int;
    assert(d.len() * (n - 1) >= 0) by (nonlinear_arith)
        requires
            d.len() > 0 && n >= 1,
    ;
    if n >= 2 {
        assert(d.len() * (n - 1) >= d.len()) by (nonlinear_arith)
            requires
                d.len() > 0 && n >= 2,
        ;
    }
}

/// Searching for the delimiter in a tail of `s` is the same as searching in
/// `s` from that offset.
pub proof fn lemma_find_from_sub(s: Seq<u8>, d: Seq<u8>, cur: int)
    requires
        0 <= cur <= s.len(),
        d.len() > 0,
    ensures
        match find_from(s, d, cur) {
            Some(p) => find_from(s.subrange(cur, s.len() as int), d, 0) == Some(p - cur),
            None => find_from(s.subrange(cur, s.len() as int), d, 0) is None,
        },
{
    let t = s.subrange(cur, s.len() as int);
    assert forall|q: int| 0 <= q && q + d.len() <= t.len() implies matches_at(t, d, q)
        == matches_at(s, d, cur + q) by {
        assert(t.subrange(q, q + d.len()) =~= s.subrange(cur + q, cur + q + d.len()));
    }
    lemma_find_from(s, d, cur);
    lemma_find_from(t, d, 0);
    match find_from(s, d, cur) {
        Some(p) => {
            assert(matches_at(t, d, p - cur));
            match find_from(t, d, 0) {
                Some(q) => {
                    if q < p - cur {
                        assert(matches_at(s, d, cur + q));
                        assert(false);
                    }
                    if q > p - cur {
                        assert(!matches_at(t, d, p - cur));
                        assert(false);
                    }
                },
                None => {
                    assert(!matches_at(t, d, p - cur));
                    assert(false);
                },
            }
        },
        None => {
            match find_from(t, d, 0) {
                Some(q) => {
                    assert(matches_at(s, d, cur + q));
                    assert(false);
                },
                None => {},
            }
        },
    }
}

/// Executable split of `raw` on the delimiter `d`, whose bytes must be
/// ASCII.  Returns the fragments in order.
pub fn split_on_str<'a>(raw: &'a str, d: &[u8]) -> (r: Vec<&'a str>)
    requires
        d@.len() > 0,
        forall|j: int| 0 <= j < d@.len() ==> d@[j] < 0x80,
    ensures
        r@.map_values(|t: &str| t.spec_bytes()) == split_on(raw.spec_bytes(), d@),
        r@.len() >= 1,
{
    let ghost s = raw.spec_bytes();
    proof {
        lemma_str_bytes_valid(raw);
    }
    let b = raw.as_bytes();
    let blen = b.len();
    let dlen = d.len();
    let mut out: Vec<&'a str> = Vec::new();
    let mut cur: usize = 0;
    proof {
        assert(s.subrange(0, s.len() as int) =~= s);
        assert(out@.map_values(|t: &str| t.spec_bytes()) + split_on(s, d@) =~= split_on(s, d@));
    }
    loop
        invariant
            0 <= cur <= blen,
            blen == s.len(),
            b@ == s,
            raw.spec_bytes() == s,
            valid_utf8(s),
            dlen == d@.len(),
            0 < dlen,
            forall|j: int| 0 <= j < d@.len() ==> d@[j] < 0x80,
            is_char_boundary(s, cur as int),
            split_on(s, d@) == out@.map_values(|t: &str| t.spec_bytes()) + split_on(
                s.subrange(cur as int, s.len() as int),
                d@,
            ),
        decreases blen - cur + 1,
    {
        let ghost rem = s.subrange(cur as int, s.len() as int);
        match find_sub(b, d, cur) {
            Some(p) => {
                proof {
                    lemma_find_from(s, d@, cur as int);
                    lemma_find_from_sub(s, d@, cur as int);
                    assert(s[p as int] == d@[0]) by {
                        assert(s.subrange(p as int, p + d@.len())[0] == d@[0]);
                    }
                    lemma_boundary_at(s, p as int);
                }
                let piece = substr_range(raw, cur, p);
                let ghost prev = out@;
                out.push(piece);
                proof {
                    assert(s[p + dlen - 1] == d@[dlen - 1]) by {
                        assert(s.subrange(p as int, p + d@.len())[dlen - 1] == d@[dlen - 1]);
                    }
                    lemma_boundary_after_ascii(s, p + dlen);
                    let rem2 = s.subrange(p + dlen, s.len() as int);
                    assert(split_on(rem, d@) == seq![rem.subrange(0, p - cur)] + split_on(
                        rem.subrange(p - cur + dlen, rem.len() as int),
                        d@,
                    ));
                    assert(rem.subrange(0, p - cur) =~= s.subrange(cur as int, p as int));
                    assert(rem.subrange(p - cur + dlen, rem.len() as int) =~= rem2);
                    assert(out@.map_values(|t: &str| t.spec_bytes()) =~= prev.map_values(
                        |t: &str| t.spec_bytes(),
                    ) + seq![piece.spec_bytes()]);
                    assert(prev.map_values(|t: &str| t.spec_bytes()) + (seq![piece.spec_bytes()]
                        + split_on(rem2, d@)) =~= out@.map_values(|t: &str| t.spec_bytes())
                        + split_on(rem2, d@));
                }
                cur = p + dlen;
            },
            None => {
                proof {
                    lemma_find_from_sub(s, d@, cur as int);
                    assert(split_on(rem, d@) == seq![rem]);
                    lemma_boundary_at(s, blen as int);
                }
                let piece = substr_range(raw, cur, blen);
                out.push(piece);
                proof {
                    assert(out@.map_values(|t: &str| t.spec_bytes()) =~= split_on(s, d@));
                }
                return out;
            },
        }
    }
}

/// A blank-line-style separator starts at `p`: two equal bytes that are
/// both line feeds or both carriage returns.
pub open spec fn sep_match_at(s: Seq<u8>, p: int) -> bool {
    0 <= p && p + 2 <= s.len() && s[p] == s[p + 1] && (s[p] == 0x0a || s[p] == 0x0d)
}

/// First separator at or after `from`.
pub open spec fn sep_find_from(s: Seq<u8>, from: int) -> Option<int>
    decreases s.len() - from,
    when 0 <= from <= s.len()
{
    if from + 2 > s.len() {
        None::<int>
    } else if sep_match_at(s, from) {
        Some(from)
    } else {
        sep_find_from(s, from + 1)
    }
}

/// End of the maximal run of byte `c` from position `i` on.
pub open spec fn run_of_end(s: Seq<u8>, c: u8, i: int) -> int
    decreases s.len() - i,
    when 0 <= i <= s.len()
{
    if i < s.len() && s[i] == c {
        run_of_end(s, c, i + 1)
    } else {
        i
    }
}

/// Head and tail of `s` around the first blank-line-style separator: the
/// text before it, and the text after the whole (maximal) run of its byte.
pub open spec fn split_blank(s: Seq<u8>) -> Option<(Seq<u8>, Seq<u8>)> {
    match sep_find_from(s, 0) {
        None => None,
        Some(p) => Some(
            (s.subrange(0, p), s.subrange(run_of_end(s, s[p], p + 2), s.len() as int)),
        ),
    }
}

/// What `sep_find_from` returns is the leftmost separator.
pub proof fn lemma_sep_find_from(s: Seq<u8>, from: int)
    requires
        0 <= from <= s.len(),
    ensures
        match sep_find_from(s, from) {
            Some(p) => from <= p && sep_match_at(s, p) && forall|q: int|
                from <= q < p ==> !sep_match_at(s, q),
            None => forall|q: int| q >= from ==> !sep_match_at(s, q),
        },
    decreases s.len() - from,
{
    if from + 2 > s.len() {
    } else if sep_match_at(s, from) {
    } else {
        lemma_sep_find_from(s, from + 1);
    }
}

/// Facts about `run_of_end`: it stays in range, covers `c` only, and stops
/// at the first byte that is not `c`.
pub proof fn lemma_run_of_end(s: Seq<u8>, c: u8, i: int)
    requires
        0 <= i <= s.len(),
    ensures
        i <= run_of_end(s, c, i) <= s.len(),
        forall|j: int| i <= j < run_of_end(s, c, i) ==> s[j] == c,
        run_of_end(s, c, i) < s.len() ==> s[run_of_end(s, c, i)] != c,
    decreases s.len() - i,
{
    if i < s.len() && s[i] == c {
        lemma_run_of_end(s, c, i + 1);
    }
}

/// Executable split of `raw` around the first blank-line-style separator.
pub fn split_blank_str<'a>(raw: &'a str) -> (r: Option<(&'a str, &'a str)>)
    ensures
        match r {
            Some(pair) => split_blank(raw.spec_bytes()) == Some(
                (pair.0.spec_bytes(), pair.1.spec_bytes()),
            ),
            None => split_blank(raw.spec_bytes()) is None,
        },
{
    let ghost s = raw.spec_bytes();
    proof {
        lemma_str_bytes_valid(raw);
    }
    let b = raw.as_bytes();
    let blen = b.len();
    if blen < 2 {
        return None;
    }
    let mut p: usize = 0;
    while p < blen - 1
        invariant
            0 <= p <= blen,
            blen >= 2,
            blen == s.len(),
            b@ == s,
            raw.spec_bytes() == s,
            valid_utf8(s),
            sep_find_from(s, 0) == sep_find_from(s, p as int),
        decreases blen - p,
    {
        let c = b[p];
        if b[p + 1] == c && (c == 0x0a || c == 0x0d) {
            assert(sep_match_at(s, p as int));
            // scan to the end of the run of `c`
            let mut e: usize = p + 2;
            while e < blen && b[e] == c
                invariant
                    p + 2 <= e <= blen,
                    blen == s.len(),
                    b@ == s,
                    run_of_end(s, c, p + 2) == run_of_end(s, c, e as int),
                decreases blen - e,
            {
                e = e + 1;
            }
            proof {
                lemma_run_of_end(s, c, p + 2);
                lemma_boundary_at(s, p as int);
                lemma_boundary_at(s, 0);
                assert(s[e - 1] == c) by {
                    if e > p + 2 {
                        assert(p + 2 <= e - 1 < run_of_end(s, c, p + 2));
                    } else {
                        assert(s[p + 1] == c);
                    }
                }
                lemma_boundary_after_ascii(s, e as int);
                lemma_boundary_at(s, blen as int);
                lemma_sep_find_from(s, 0);
            }
            let head = substr_range(raw, 0, p);
            let tail = substr_range(raw, e, blen);
            return Some((head, tail));
        }
        assert(!sep_match_at(s, p as int));
        p = p + 1;
    }
    proof {
        lemma_sep_find_from(s, p as int);
        assert forall|q: int| q >= p implies !sep_match_at(s, q) by {
            assert(!(q + 2 <= s.len()) || q < p);
        }
    }
    None
}

} // verus!
