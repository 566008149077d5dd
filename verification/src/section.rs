//! The recursive section parser: given a raw text span, decide whether it is
//! a bare body, a header+body pair, or a multipart container, and parse each
//! sub-part recursively.

use vstd::prelude::*;
use vstd::utf8::{encode_utf8, is_ascii_chars, is_ascii_chars_encode_utf8};
use vstd::string::StringSliceAdditionalSpecFns;
use vstd::slice::slice_to_vec;
use crate::Error;
use crate::headers::{Header, SpecHeader, parse_headers_spec, parse_headers};
use crate::detect::{spec_has_headers, spec_has_boundary, extract_boundary_spec, has_headers_bytes,
    has_boundary_bytes, extract_boundary_range, has_pat_then_char, pat_then_char_at};
use crate::split::{split_on, split_blank, sum_len, split_on_str, split_blank_str,
    lemma_split_on_len, lemma_split_on_frag_len, lemma_sum_len_elem, lemma_sum_len_nonneg,
    lemma_sep_find_from, lemma_run_of_end};
use crate::bytes::is_print_byte;

verus! {

broadcast use {vstd::std_specs::vec::group_vec_axioms, vstd::seq::group_seq_axioms};

/// The mathematical content of a parsed section.
pub enum SpecSection {
    /// A bare body: the literal bytes, unmodified.
    Plain { body: Seq<u8> },
    /// Headers plus an ordered sequence of child sections.
    Multipart { headers: Seq<SpecHeader>, body: Seq<SpecSection> },
    /// The vestigial artifact left by splitting on a closing boundary.
    Empty,
}

/// A section of a parsed document: some text, a header block with nested
/// sections, or an empty leftover artifact.
#[derive(Debug, PartialEq)]
pub enum Section {
    Plain { body: Vec<u8> },
    Multipart { headers: Vec<Header>, body: Vec<Box<Section>> },
    Empty,
}

impl Section {
    /// The mathematical content of this section.
    pub open spec fn view(&self) -> SpecSection
        decreases self,
    {
        match self {
            Section::Plain { body } => SpecSection::Plain { body: body@ },
            Section::Multipart { headers, body } => SpecSection::Multipart {
                headers: headers@.map_values(|h: Header| h@),
                body: Seq::new(
                    body@.len(),
                    |i: int|
                        if 0 <= i < body@.len() {
                            body@[i].view()
                        } else {
                            SpecSection::Empty
                        },
                ),
            },
            Section::Empty => SpecSection::Empty,
        }
    }
}

/// The view of a parse result.
pub open spec fn sec_res_view(r: Result<Section, Error>) -> Result<SpecSection, Error> {
    match r {
        Ok(sec) => Ok(sec.view()),
        Err(e) => Err(e),
    }
}

/// The `--boundary` delimiter for a boundary value.
pub open spec fn delimiter_of(bnd: Seq<u8>) -> Seq<u8> {
    encode_utf8("--"@) + bnd
}

/// The fragments of a multipart body that become child sections: everything
/// strictly between the first fragment (the header block) and the last (the
/// closing-boundary tail).
pub open spec fn child_frags(frags: Seq<Seq<u8>>) -> Seq<Seq<u8>> {
    if frags.len() >= 2 {
        frags.subrange(1, frags.len() - 1)
    } else {
        Seq::empty()
    }
}

/// Parse one section.
///
/// The exact boundary terminator artifact `--` + line feed parses to
/// `Empty`; text with no header-shaped content parses to `Plain`; text with
/// headers and a declared boundary splits on `--boundary` and recurses into
/// every fragment between the first and the last; text with headers and no
/// boundary splits at the first blank-line run into a header block and a
/// single recursively parsed child.  A declared boundary whose value cannot
/// be extracted is the one parse error.
pub open spec fn spec_parse_section(s: Seq<u8>) -> Result<SpecSection, Error>
    decreases s.len(), 0int,
    via spec_parse_section_decreases
{
    if s == encode_utf8("--\n"@) {
        Ok(SpecSection::Empty)
    } else if !spec_has_headers(s) {
        Ok(SpecSection::Plain { body: s })
    } else if spec_has_boundary(s) {
        match extract_boundary_spec(s) {
            None => Err(Error::ParseError),
            Some(bnd) => {
                let frags = split_on(s, delimiter_of(bnd));
                match spec_parse_list(child_frags(frags)) {
                    Err(e) => Err(e),
                    Ok(children) => Ok(
                        SpecSection::Multipart {
                            headers: parse_headers_spec(frags[0]),
                            body: children,
                        },
                    ),
                }
            },
        }
    } else {
        let hb = match split_blank(s) {
            Some(hb) => hb,
            None => (s, Seq::<u8>::empty()),
        };
        match spec_parse_section(hb.1) {
            Err(e) => Err(e),
            Ok(child) => Ok(
                SpecSection::Multipart {
                    headers: parse_headers_spec(hb.0),
                    body: seq![child],
                },
            ),
        }
    }
}

/// Parse a list of fragments in order, stopping at the first error.
pub open spec fn spec_parse_list(frags: Seq<Seq<u8>>) -> Result<Seq<SpecSection>, Error>
    decreases sum_len(frags) + frags.len(), 1int,
    via spec_parse_list_decreases
{
    if frags.len() == 0 {
        Ok(Seq::<SpecSection>::empty())
    } else {
        match spec_parse_section(frags[0]) {
            Err(e) => Err(e),
            Ok(sec) => match spec_parse_list(frags.drop_first()) {
                Err(e) => Err(e),
                Ok(rest) => Ok(seq![sec] + rest),
            },
        }
    }
}

/// Text that looks like it has headers holds at least the matched pattern
/// and one more byte.
pub proof fn lemma_has_headers_nonempty(s: Seq<u8>)
    requires
        spec_has_headers(s),
    ensures
        s.len() >= 2,
{
    reveal_strlit("Content-Type: ");
    reveal_strlit("Content-type: ");
    reveal_strlit("content-type: ");
    crate::detect::lemma_encode_nonempty("Content-Type: "@);
    crate::detect::lemma_encode_nonempty("Content-type: "@);
    crate::detect::lemma_encode_nonempty("content-type: "@);
    let pat1 = encode_utf8("Content-Type: "@);
    let pat2 = encode_utf8("Content-type: "@);
    let pat3 = encode_utf8("content-type: "@);
    if has_pat_then_char(s, pat1, crate::detect::window(s)) {
        let p = choose|p: int| pat_then_char_at(s, pat1, p, crate::detect::window(s));
    } else if has_pat_then_char(s, pat2, crate::detect::window(s)) {
        let p = choose|p: int| pat_then_char_at(s, pat2, p, crate::detect::window(s));
    } else {
        let p = choose|p: int| pat_then_char_at(s, pat3, p, crate::detect::window(s));
    }
}

/// A subrange never sums to more than the whole.
pub proof fn lemma_sum_len_subrange(frags: Seq<Seq<u8>>, a: int, b: int)
    requires
        0 <= a <= b <= frags.len(),
    ensures
        sum_len(frags.subrange(a, b)) <= sum_len(frags),
        sum_len(frags.subrange(a, b)) >= 0,
    decreases frags.len(),
{
    lemma_sum_len_nonneg(frags.subrange(a, b));
    if a > 0 {
        assert(frags.subrange(a, b) =~= frags.drop_first().subrange(a - 1, b - 1));
        lemma_sum_len_subrange(frags.drop_first(), a - 1, b - 1);
        lemma_sum_len_nonneg(frags.drop_first());
    } else if b == 0 {
        lemma_sum_len_nonneg(frags);
    } else {
        // a == 0 < b
        assert(frags.subrange(0, b).drop_first() =~= frags.drop_first().subrange(0, b - 1));
        lemma_sum_len_subrange(frags.drop_first(), 0, b - 1);
        assert(frags.subrange(0, b)[0] == frags[0]);
    }
}

/// The child fragments of a multipart split, counted together, are strictly
/// shorter than the split text: at least one delimiter and the header block
/// separate them from it.
pub proof fn lemma_children_smaller(s: Seq<u8>, bnd: Seq<u8>)
    requires
        bnd.len() >= 1,
        s.len() >= 2,
    ensures
        sum_len(child_frags(split_on(s, delimiter_of(bnd)))) + child_frags(
            split_on(s, delimiter_of(bnd)),
        ).len() <= s.len() - 2,
        sum_len(child_frags(split_on(s, delimiter_of(bnd)))) >= 0,
{
    lemma_sum_len_nonneg(child_frags(split_on(s, delimiter_of(bnd))));
    let d = delimiter_of(bnd);
    assert(d.len() >= 3) by {
        reveal_strlit("--");
        assert(is_ascii_chars("--"@));
        is_ascii_chars_encode_utf8("--"@);
    }
    lemma_split_on_len(s, d);
    let frags = split_on(s, d);
    let n = frags.len() as int;
    let children = child_frags(frags);
    if n >= 2 {
        lemma_sum_len_subrange(frags, 1, n - 1);
        assert(sum_len(frags) == s.len() - d.len() * (n - 1));
        assert(d.len() * (n - 1) >= 3 * (n - 1)) by (nonlinear_arith)
            requires
                d.len() >= 3 && n >= 2,
        ;
        assert(sum_len(children) + children.len() <= s.len() - 3 * (n - 1) + n - 2);
    } else {
        assert(children.len() == 0);
        assert(sum_len(children) == 0);
        assert(sum_len(frags) == s.len() - d.len() * (n - 1));
        assert(d.len() * (n - 1) == 0) by (nonlinear_arith)
            requires
                n == 1,
        ;
        lemma_sum_len_elem(frags, 0);
        assert(frags[0].len() <= s.len());
    }
}

#[via_fn]
proof fn spec_parse_section_decreases(s: Seq<u8>) {
    if s == encode_utf8("--\n"@) {
    } else if !spec_has_headers(s) {
    } else {
        lemma_has_headers_nonempty(s);
        if spec_has_boundary(s) {
            match extract_boundary_spec(s) {
                None => {},
                Some(bnd) => {
                    crate::detect::lemma_boundary_find_from(s, 0);
                    crate::detect::lemma_capture_end_from(
                        s,
                        crate::detect::boundary_find_from(s, 0)->Some_0 + 11,
                    );
                    assert(bnd.len() >= 1);
                    lemma_children_smaller(s, bnd);
                    let frags = split_on(s, delimiter_of(bnd));
                    assert(sum_len(child_frags(frags)) + child_frags(frags).len() < s.len());
                },
            }
        } else {
            match split_blank(s) {
                Some(hb) => {
                    lemma_sep_find_from(s, 0);
                    let p = crate::split::sep_find_from(s, 0)->Some_0;
                    lemma_run_of_end(s, s[p], p + 2);
                },
                None => {},
            }
        }
    }
}

#[via_fn]
proof fn spec_parse_list_decreases(frags: Seq<Seq<u8>>) {
    if frags.len() > 0 {
        lemma_sum_len_elem(frags, 0);
        lemma_sum_len_nonneg(frags.drop_first());
    }
}

/// The views of a sequence of boxed sections, in order.
pub open spec fn views_of(ss: Seq<Box<Section>>) -> Seq<SpecSection> {
    Seq::new(
        ss.len(),
        |i: int|
            if 0 <= i < ss.len() {
                ss[i].view()
            } else {
                SpecSection::Empty
            },
    )
}

/// Text that looks like it has headers is longer than the three-byte
/// terminator artifact.
pub proof fn lemma_has_headers_not_terminator(s: Seq<u8>)
    requires
        spec_has_headers(s),
    ensures
        s != encode_utf8("--\n"@),
{
    reveal_strlit("--\n");
    reveal_strlit("Content-Type: ");
    reveal_strlit("Content-type: ");
    reveal_strlit("content-type: ");
    assert(is_ascii_chars("--\n"@));
    is_ascii_chars_encode_utf8("--\n"@);
    assert(is_ascii_chars("Content-Type: "@));
    is_ascii_chars_encode_utf8("Content-Type: "@);
    assert(is_ascii_chars("Content-type: "@));
    is_ascii_chars_encode_utf8("Content-type: "@);
    assert(is_ascii_chars("content-type: "@));
    is_ascii_chars_encode_utf8("content-type: "@);
    if s == encode_utf8("--\n"@) {
        assert(s.len() == 3);
        let w = crate::detect::window(s);
        let pat1 = encode_utf8("Content-Type: "@);
        let pat2 = encode_utf8("Content-type: "@);
        let pat3 = encode_utf8("content-type: "@);
        if has_pat_then_char(s, pat1, w) {
            let p = choose|p: int| pat_then_char_at(s, pat1, p, w);
        } else if has_pat_then_char(s, pat2, w) {
            let p = choose|p: int| pat_then_char_at(s, pat2, p, w);
        } else {
            let p = choose|p: int| pat_then_char_at(s, pat3, p, w);
        }
        assert(false);
    }
}

/// An empty text parses to an empty `Plain` section.
pub proof fn lemma_parse_empty()
    ensures
        spec_parse_section(Seq::<u8>::empty()) == Ok::<SpecSection, Error>(
            SpecSection::Plain { body: Seq::<u8>::empty() },
        ),
{
    reveal_strlit("--\n");
    assert(is_ascii_chars("--\n"@));
    is_ascii_chars_encode_utf8("--\n"@);
    let s = Seq::<u8>::empty();
    assert(s != encode_utf8("--\n"@));
    assert(!spec_has_headers(s)) by {
        if spec_has_headers(s) {
            lemma_has_headers_nonempty(s);
        }
    }
}

impl Section {
    /// Does the text look like it carries headers?  A `content-type:` key
    /// in the scan window is taken as the sign of a header block.
    pub fn has_headers(raw_message: &str) -> (r: bool)
        ensures
            r == spec_has_headers(raw_message.spec_bytes()),
    {
        has_headers_bytes(raw_message.as_bytes())
    }

    /// Does the text declare a multipart boundary in the scan window?
    pub fn has_boundary(raw_message: &str) -> (r: bool)
        ensures
            r == spec_has_boundary(raw_message.spec_bytes()),
    {
        has_boundary_bytes(raw_message.as_bytes())
    }

    /// Parse one section of a document, recursively.
    pub fn new(raw_section: &str) -> (r: Result<Section, Error>)
        ensures
            sec_res_view(r) == spec_parse_section(raw_section.spec_bytes()),
        decreases raw_section.spec_bytes().len(), 1int,
    {
        let ghost s = raw_section.spec_bytes();
        let b = raw_section.as_bytes();
        // Catch the leftover artifact of splitting on a closing boundary.
        let is_term = b.len() == 3 && b[0] == 0x2d && b[1] == 0x2d && b[2] == 0x0a;
        proof {
            reveal_strlit("--\n");
            assert(is_ascii_chars("--\n"@));
            is_ascii_chars_encode_utf8("--\n"@);
            let t = encode_utf8("--\n"@);
            assert(t.len() == 3 && t[0] == 0x2d && t[1] == 0x2d && t[2] == 0x0a);
            if is_term {
                assert(s =~= t);
            }
        }
        if is_term {
            return Ok(Section::Empty);
        }
        if !has_headers_bytes(b) {
            return Ok(Section::Plain { body: slice_to_vec(b) });
        }
        Section::parse_multipart(raw_section)
    }

    /// Parse a section known to carry headers: split on its declared
    /// boundary and recurse into each inner fragment, or — with no boundary
    /// — split off the header block and recurse into the single body.
    #[verifier::loop_isolation(false)]
    fn parse_multipart(raw_section: &str) -> (r: Result<Section, Error>)
        requires
            spec_has_headers(raw_section.spec_bytes()),
        ensures
            sec_res_view(r) == spec_parse_section(raw_section.spec_bytes()),
        decreases raw_section.spec_bytes().len(), 0int,
    {
        let ghost s = raw_section.spec_bytes();
        proof {
            lemma_has_headers_not_terminator(s);
            lemma_has_headers_nonempty(s);
        }
        let b = raw_section.as_bytes();
        if has_boundary_bytes(b) {
            match extract_boundary_range(b) {
                None => Err(Error::ParseError),
                Some((cs, ce)) => {
                    let ghost bnd = s.subrange(cs as int, ce as int);
                    // Each section is separated by --<boundary>.
                    let mut d: Vec<u8> = Vec::new();
                    d.push(0x2d);
                    d.push(0x2d);
                    let mut j = cs;
                    while j < ce
                        invariant
                            cs <= j <= ce,
                            d@ == seq![0x2du8, 0x2du8] + s.subrange(cs as int, j as int),
                        decreases ce - j,
                    {
                        d.push(b[j]);
                        proof {
                            assert(d@ =~= seq![0x2du8, 0x2du8] + s.subrange(
                                cs as int,
                                j + 1 as int,
                            ));
                        }
                        j = j + 1;
                    }
                    proof {
                        reveal_strlit("--");
                        assert(is_ascii_chars("--"@));
                        is_ascii_chars_encode_utf8("--"@);
                        assert(d@ =~= delimiter_of(bnd));
                        assert(forall|k: int| 0 <= k < d@.len() ==> d@[k] < 0x80) by {
                            assert(forall|k: int|
                                0 <= k < bnd.len() ==> is_print_byte(#[trigger] bnd[k]));
                        }
                    }
                    let frags = split_on_str(raw_section, d.as_slice());
                    let ghost sfrags = split_on(s, delimiter_of(bnd));
                    let ghost cf = child_frags(sfrags);
                    let headers = parse_headers(frags[0]);
                    let n = frags.len();
                    let mut children: Vec<Box<Section>> = Vec::new();
                    proof {
                        assert(cf.skip(0) =~= cf);
                        assert(views_of(children@) =~= Seq::<SpecSection>::empty());
                        if n < 2 {
                            assert(cf =~= Seq::<Seq<u8>>::empty());
                        }
                    }
                    if n >= 2 {
                        let mut i: usize = 1;
                        while i < n - 1
                            invariant
                                1 <= i <= n - 1,
                                children@.len() == i - 1,
                                spec_parse_list(cf) == (match spec_parse_list(
                                    cf.skip(i - 1),
                                ) {
                                    Ok(rest) => Ok(views_of(children@) + rest),
                                    Err(e) => Err::<Seq<SpecSection>, Error>(e),
                                }),
                            decreases n - i,
                        {
                            proof {
                                assert(frags@.map_values(|t: &str| t.spec_bytes())[i as int]
                                    == frags@[i as int].spec_bytes());
                                assert(cf[i - 1] == sfrags[i as int]);
                                lemma_split_on_frag_len(s, delimiter_of(bnd), i as int);
                                assert(delimiter_of(bnd).len() > 0) by {
                                    reveal_strlit("--");
                                }
                                assert(frags@[i as int].spec_bytes().len() < s.len());
                            }
                            let child = Section::new(frags[i]);
                            match child {
                                Err(e) => {
                                    proof {
                                        assert(cf.skip(i - 1)[0] == cf[i - 1]);
                                        assert(spec_parse_list(cf.skip(i - 1)) == Err::<
                                            Seq<SpecSection>,
                                            Error,
                                        >(e));
                                    }
                                    return Err(e);
                                },
                                Ok(sec) => {
                                    let ghost prev = children@;
                                    children.push(Box::new(sec));
                                    proof {
                                        assert(cf.skip(i - 1)[0] == cf[i - 1]);
                                        assert(cf.skip(i - 1).drop_first() =~= cf.skip(
                                            i as int,
                                        ));
                                        assert(views_of(children@) =~= views_of(prev) + seq![
                                            children@[children@.len() - 1].view(),
                                        ]);
                                        assert forall|rest: Seq<SpecSection>|
                                            true implies views_of(prev) + (seq![
                                            children@[children@.len() - 1].view(),
                                        ] + rest) =~= views_of(children@) + rest by {}
                                    }
                                },
                            }
                            i = i + 1;
                        }
                        proof {
                            assert(cf.skip(i - 1) =~= Seq::<Seq<u8>>::empty());
                        }
                    }
                    proof {
                        assert(spec_parse_list(cf) == Ok::<Seq<SpecSection>, Error>(
                            views_of(children@),
                        ));
                    }
                    let result = Section::Multipart { headers, body: children };
                    proof {
                        assert(frags@.map_values(|t: &str| t.spec_bytes())[0]
                            == frags@[0].spec_bytes());
                        assert(frags@[0].spec_bytes() == sfrags[0]);
                        let v = result.view();
                        assert(v is Multipart);
                        assert(v->Multipart_headers == parse_headers_spec(sfrags[0]));
                        assert(v->Multipart_body =~= views_of(children@));
                        assert(v == SpecSection::Multipart {
                            headers: parse_headers_spec(sfrags[0]),
                            body: views_of(children@),
                        });
                    }
                    Ok(result)
                },
            }
        } else {
            // No boundary: separate the header block from the single body.
            match split_blank_str(raw_section) {
                Some((head, tail)) => {
                    let headers = parse_headers(head);
                    proof {
                        crate::split::lemma_sep_find_from(s, 0);
                        let p = crate::split::sep_find_from(s, 0)->Some_0;
                        lemma_run_of_end(s, s[p], p + 2);
                        assert(tail.spec_bytes().len() < s.len());
                    }
                    match Section::new(tail) {
                        Err(e) => Err(e),
                        Ok(child) => {
                            let mut body: Vec<Box<Section>> = Vec::new();
                            body.push(Box::new(child));
                            let result = Section::Multipart { headers, body };
                            proof {
                                let v = result.view();
                                assert(v is Multipart);
                                assert(v->Multipart_body =~= seq![child.view()]);
                                assert(v == SpecSection::Multipart {
                                    headers: parse_headers_spec(head.spec_bytes()),
                                    body: seq![child.view()],
                                });
                            }
                            Ok(result)
                        },
                    }
                },
                None => {
                    // Structurally odd input degrades: the whole text is the
                    // header block and the body is empty.
                    let headers = parse_headers(raw_section);
                    let child_body: Vec<u8> = Vec::new();
                    proof {
                        assert(child_body@ =~= Seq::<u8>::empty());
                    }
                    let child = Section::Plain { body: child_body };
                    proof {
                        lemma_parse_empty();
                        assert(child.view() == SpecSection::Plain { body: Seq::<u8>::empty() });
                    }
                    let mut body: Vec<Box<Section>> = Vec::new();
                    body.push(Box::new(child));
                    let result = Section::Multipart { headers, body };
                    proof {
                        let v = result.view();
                        assert(v is Multipart);
                        assert(v->Multipart_body =~= seq![
                            SpecSection::Plain { body: Seq::<u8>::empty() },
                        ]);
                        assert(v == SpecSection::Multipart {
                            headers: parse_headers_spec(s),
                            body: seq![SpecSection::Plain { body: Seq::<u8>::empty() }],
                        });
                    }
                    Ok(result)
                },
            }
        }
    }
}

} // verus!
