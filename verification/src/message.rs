//! The message parser: the top-level entry point.  A document is classified
//! as plain or multipart by a full-document content-type scan and parsed
//! accordingly: a plain document splits at its first blank-line run into the
//! top-level header block and a single body section; a multipart document
//! splits on its declared `--boundary` and every fragment after the header
//! block — the trailing terminator fragment included — becomes a top-level
//! section.

use vstd::prelude::*;
use vstd::utf8::{encode_utf8, is_ascii_chars, is_ascii_chars_encode_utf8};
use vstd::string::StringSliceAdditionalSpecFns;
use crate::Error;
use crate::headers::{Header, SpecHeader, parse_headers_spec, parse_headers};
use crate::detect::{spec_is_multipart, extract_boundary_spec, is_multipart_bytes,
    extract_boundary_range};
use crate::split::{split_on, split_blank, sum_len, split_on_str, split_blank_str,
    lemma_split_on_len, lemma_split_on_frag_len, lemma_sum_len_nonneg};
use crate::section::{Section, SpecSection, spec_parse_section, spec_parse_list, delimiter_of,
    lemma_children_smaller, lemma_sum_len_subrange};
use crate::bytes::is_print_byte;

verus! {

broadcast use {vstd::std_specs::vec::group_vec_axioms, vstd::seq::group_seq_axioms};

/// The mathematical content of a parsed message: its top-level headers and
/// its ordered top-level sections.
pub struct SpecMessage {
    pub headers: Seq<SpecHeader>,
    pub sections: Seq<SpecSection>,
}

/// A parsed document: the top-level headers and the ordered sections.
#[derive(Debug)]
pub struct Message {
    pub headers: Vec<Header>,
    pub sections: Vec<Section>,
}

/// The views of a sequence of sections, in order.
pub open spec fn sec_views_of(ss: Seq<Section>) -> Seq<SpecSection> {
    Seq::new(
        ss.len(),
        |i: int|
            if 0 <= i < ss.len() {
                ss[i].view()
            } else {
                SpecSection::Empty
            },
    )
}

impl Message {
    /// The mathematical content of this message.
    pub open spec fn view(&self) -> SpecMessage {
        SpecMessage {
            headers: self.headers@.map_values(|h: Header| h@),
            sections: sec_views_of(self.sections@),
        }
    }
}

/// The view of a message parse result.
pub open spec fn msg_res_view(r: Result<Message, Error>) -> Result<SpecMessage, Error> {
    match r {
        Ok(m) => Ok(m.view()),
        Err(e) => Err(e),
    }
}

/// Parse a whole document.
///
/// A document whose content-type declares `multipart` splits on its
/// `--boundary` into the top-level header block and one section per
/// remaining fragment; a missing boundary declaration is an error.  Any
/// other document must split at a blank-line run into a nonempty header
/// block and a nonempty body, which is parsed as the single section; if it
/// cannot, that is an error.
pub open spec fn spec_parse_message(s: Seq<u8>) -> Result<SpecMessage, Error>
    decreases s.len(), 2int,
    via spec_parse_message_decreases
{
    if spec_is_multipart(s) {
        match extract_boundary_spec(s) {
            None => Err(Error::InvalidString),
            Some(bnd) => {
                let frags = split_on(s, delimiter_of(bnd));
                match spec_parse_list(frags.drop_first()) {
                    Err(e) => Err(e),
                    Ok(secs) => Ok(
                        SpecMessage { headers: parse_headers_spec(frags[0]), sections: secs },
                    ),
                }
            },
        }
    } else {
        match split_blank(s) {
            None => Err(Error::InvalidString),
            Some(hb) => {
                if hb.0.len() == 0 || hb.1.len() == 0 {
                    Err(Error::InvalidString)
                } else {
                    match spec_parse_section(hb.1) {
                        Err(e) => Err(e),
                        Ok(sec) => Ok(
                            SpecMessage { headers: parse_headers_spec(hb.0), sections: seq![sec] },
                        ),
                    }
                }
            },
        }
    }
}

#[via_fn]
proof fn spec_parse_message_decreases(s: Seq<u8>) {
    if spec_is_multipart(s) {
        match extract_boundary_spec(s) {
            None => {},
            Some(bnd) => {
                crate::detect::lemma_boundary_find_from(s, 0);
                crate::detect::lemma_capture_end_from(
                    s,
                    crate::detect::boundary_find_from(s, 0)->Some_0 + 11,
                );
                assert(bnd.len() >= 1);
                let d = delimiter_of(bnd);
                assert(d.len() >= 3) by {
                    reveal_strlit("--");
                    assert(is_ascii_chars("--"@));
                    is_ascii_chars_encode_utf8("--"@);
                }
                lemma_split_on_len(s, d);
                let frags = split_on(s, d);
                let n = frags.len() as int;
                assert(frags.drop_first() =~= frags.subrange(1, n));
                lemma_sum_len_subrange(frags, 1, n);
                assert(d.len() * (n - 1) >= 2 * (n - 1)) by (nonlinear_arith)
                    requires
                        d.len() >= 3 && n >= 1,
                ;
                assert(sum_len(frags.drop_first()) + frags.drop_first().len() <= s.len());
            },
        }
    } else {
        match split_blank(s) {
            None => {},
            Some(hb) => {
                crate::split::lemma_sep_find_from(s, 0);
                let p = crate::split::sep_find_from(s, 0)->Some_0;
                crate::split::lemma_run_of_end(s, s[p], p + 2);
            },
        }
    }
}

impl Message {
    /// Parse a document and return its structured representation.
    pub fn new(raw_message: &str) -> (r: Result<Message, Error>)
        ensures
            msg_res_view(r) == spec_parse_message(raw_message.spec_bytes()),
    {
        // Multipart and plain messages take entirely different paths.
        if Message::is_multipart(raw_message) {
            Message::parse_multipart(raw_message)
        } else {
            Message::parse_plain(raw_message)
        }
    }

    /// Does the document's content-type declare it multipart?  This check
    /// scans the whole text, not only the leading window.
    fn is_multipart(raw_message: &str) -> (r: bool)
        ensures
            r == spec_is_multipart(raw_message.spec_bytes()),
    {
        is_multipart_bytes(raw_message.as_bytes())
    }

    /// Parse a plain document: a header block, a blank-line run, a body.
    fn parse_plain(raw_message: &str) -> (r: Result<Message, Error>)
        requires
            !spec_is_multipart(raw_message.spec_bytes()),
        ensures
            msg_res_view(r) == spec_parse_message(raw_message.spec_bytes()),
    {
        match split_blank_str(raw_message) {
            None => Err(Error::InvalidString),
            Some((head, tail)) => {
                if head.is_empty() || tail.is_empty() {
                    proof {
                        if head@.len() == 0 {
                            assert(head.spec_bytes().len() == 0) by {
                                assert(head.spec_bytes() == encode_utf8(head@));
                            }
                        }
                        if tail@.len() == 0 {
                            assert(tail.spec_bytes().len() == 0) by {
                                assert(tail.spec_bytes() == encode_utf8(tail@));
                            }
                        }
                    }
                    return Err(Error::InvalidString);
                }
                proof {
                    if head.spec_bytes().len() == 0 {
                        crate::text::lemma_ascii_str_chars(head);
                    }
                    if tail.spec_bytes().len() == 0 {
                        crate::text::lemma_ascii_str_chars(tail);
                    }
                }
                let headers = parse_headers(head);
                match Section::new(tail) {
                    Err(e) => Err(e),
                    Ok(sec) => {
                        let mut sections: Vec<Section> = Vec::new();
                        sections.push(sec);
                        let result = Message { headers, sections };
                        proof {
                            assert(result.view().sections =~= seq![sec.view()]);
                        }
                        Ok(result)
                    },
                }
            },
        }
    }

    /// Parse a multipart document: locate the declared boundary, split on
    /// `--boundary`, and parse every fragment after the header block.
    #[verifier::loop_isolation(false)]
    fn parse_multipart(raw_message: &str) -> (r: Result<Message, Error>)
        requires
            spec_is_multipart(raw_message.spec_bytes()),
        ensures
            msg_res_view(r) == spec_parse_message(raw_message.spec_bytes()),
    {
        let ghost s = raw_message.spec_bytes();
        let b = raw_message.as_bytes();
        match extract_boundary_range(b) {
            None => Err(Error::InvalidString),
            Some((cs, ce)) => {
                let ghost bnd = s.subrange(cs as int, ce as int);
                let mut d: Vec<u8> = Vec::new();
                d.push(0x2d);
                d.push(0x2d);
                let mut j = cs;
                while j < ce
                    invariant
                        cs <= j <= ce,
                        d@ == seq![0x2du8, 0x2du8] + s.subrange(cs as int, j as int),
                    decreases ce - j,
                {
                    d.push(b[j]);
                    proof {
                        assert(d@ =~= seq![0x2du8, 0x2du8] + s.subrange(cs as int, j + 1 as int));
                    }
                    j = j + 1;
                }
                proof {
                    reveal_strlit("--");
                    assert(is_ascii_chars("--"@));
                    is_ascii_chars_encode_utf8("--"@);
                    assert(d@ =~= delimiter_of(bnd));
                    assert(forall|k: int| 0 <= k < d@.len() ==> d@[k] < 0x80) by {
                        assert(forall|k: int|
                            0 <= k < bnd.len() ==> is_print_byte(#[trigger] bnd[k]));
                    }
                }
                let frags = split_on_str(raw_message, d.as_slice());
                let ghost sfrags = split_on(s, delimiter_of(bnd));
                let ghost cf = sfrags.drop_first();
                let headers = parse_headers(frags[0]);
                let n = frags.len();
                let mut sections: Vec<Section> = Vec::new();
                proof {
                    assert(cf.skip(0) =~= cf);
                    assert(sec_views_of(sections@) =~= Seq::<SpecSection>::empty());
                }
                let mut i: usize = 1;
                while i < n
                    invariant
                        1 <= i <= n,
                        sections@.len() == i - 1,
                        spec_parse_list(cf) == (match spec_parse_list(cf.skip(i - 1)) {
                            Ok(rest) => Ok(sec_views_of(sections@) + rest),
                            Err(e) => Err::<Seq<SpecSection>, Error>(e),
                        }),
                    decreases n - i,
                {
                    proof {
                        assert(frags@.map_values(|t: &str| t.spec_bytes())[i as int]
                            == frags@[i as int].spec_bytes());
                        assert(cf[i - 1] == sfrags[i as int]);
                        assert(cf.skip(i - 1)[0] == cf[i - 1]);
                    }
                    match Section::new(frags[i]) {
                        Err(e) => {
                            proof {
                                assert(spec_parse_list(cf.skip(i - 1)) == Err::<
                                    Seq<SpecSection>,
                                    Error,
                                >(e));
                            }
                            return Err(e);
                        },
                        Ok(sec) => {
                            let ghost prev = sections@;
                            sections.push(sec);
                            proof {
                                assert(cf.skip(i - 1).drop_first() =~= cf.skip(i as int));
                                assert(sec_views_of(sections@) =~= sec_views_of(prev) + seq![
                                    sections@[sections@.len() - 1].view(),
                                ]);
                                assert forall|rest: Seq<SpecSection>|
                                    true implies sec_views_of(prev) + (seq![
                                    sections@[sections@.len() - 1].view(),
                                ] + rest) =~= sec_views_of(sections@) + rest by {}
                            }
                        },
                    }
                    i = i + 1;
                }
                proof {
                    assert(cf.skip(i - 1) =~= Seq::<Seq<u8>>::empty());
                    assert(spec_parse_list(cf) == Ok::<Seq<SpecSection>, Error>(
                        sec_views_of(sections@),
                    ));
                }
                let result = Message { headers, sections };
                proof {
                    assert(frags@.map_values(|t: &str| t.spec_bytes())[0]
                        == frags@[0].spec_bytes());
                    assert(result.view().sections =~= sec_views_of(sections@));
                }
                Ok(result)
            },
        }
    }
}

} // verus!
