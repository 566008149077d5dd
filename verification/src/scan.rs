//! Substring search over byte sequences: the one pattern-matching primitive
//! the grammar is built from.

use vstd::prelude::*;
use crate::bytes::matches_at;

verus! {

/// Position of the first occurrence of `pat` in `s` at or after `from`, if
/// any.  This is the leftmost-match rule every detector below follows.
pub open spec fn find_from(s: Seq<u8>, pat: Seq<u8>, from: int) -> Option<int>
    decreases s.len() - from,
    when 0 <= from <= s.len() && pat.len() > 0
{
    if from + pat.len() > s.len() {
        None::<int>
    } else if matches_at(s, pat, from) {
        Some(from)
    } else {
        find_from(s, pat, from + 1)
    }
}

/// What `find_from` returns: the first match, or proof that there is none.
pub proof fn lemma_find_from(s: Seq<u8>, pat: Seq<u8>, from: int)
    requires
        0 <= from <= s.len(),
        pat.len() > 0,
    ensures
        match find_from(s, pat, from) {
            Some(p) => from <= p && matches_at(s, pat, p) && (forall|q: int|
                from <= q < p ==> !matches_at(s, pat, q)),
            None => forall|q: int| q >= from ==> !matches_at(s, pat, q),
        },
    decreases s.len() - from,
{
    if from + pat.len() > s.len() {
    } else if matches_at(s, pat, from) {
    } else {
        lemma_find_from(s, pat, from + 1);
    }
}

/// Executable test that `pat` occurs in `b` at position `p`.
pub fn sub_matches(b: &[u8], pat: &[u8], p: usize) -> (r: bool)
    requires
        p + pat@.len() <= b@.len(),
    ensures
        r == matches_at(b@, pat@, p as int),
{
    let n = pat.len();
    let blen = b.len();
    let mut j: usize = 0;
    while j < n
        invariant
            0 <= j <= n,
            n == pat@.len(),
            blen == b@.len(),
            p + n <= blen,
            forall|k: int| 0 <= k < j ==> b@[p + k] == pat@[k],
        decreases n - j,
    {
        if b[p + j] != pat[j] {
            assert(b@.subrange(p as int, p + n) != pat@) by {
                assert(b@.subrange(p as int, p + n)[j as int] != pat@[j as int]);
            }
            return false;
        }
        j = j + 1;
    }
    assert(b@.subrange(p as int, p + n) =~= pat@);
    true
}

/// Executable first-occurrence search, equal to `find_from`.
pub fn find_sub(b: &[u8], pat: &[u8], from: usize) -> (r: Option<usize>)
    requires
        from <= b@.len(),
        pat@.len() > 0,
    ensures
        match r {
            Some(p) => find_from(b@, pat@, from as int) == Some(p as int) && p < b@.len(),
            None => find_from(b@, pat@, from as int) is None,
        },
{
    if pat.len() > b.len() || from > b.len() - pat.len() {
        assert(find_from(b@, pat@, from as int) is None) by {
            lemma_find_from(b@, pat@, from as int);
        }
        return None;
    }
    let last = b.len() - pat.len();
    let blen = b.len();
    let mut p: usize = from;
    while p <= last
        invariant
            from <= p,
            p <= last + 1,
            blen == b@.len(),
            last == blen - pat@.len(),
            last < blen,
            pat@.len() > 0,
            find_from(b@, pat@, from as int) == find_from(b@, pat@, p as int),
        decreases last + 1 - p,
    {
        if sub_matches(b, pat, p) {
            return Some(p);
        }
        p = p + 1;
    }
    None
}

} // verus!
