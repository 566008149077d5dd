//! The laws of the parser: properties that hold of every input, proved over
//! the same spec functions the executable contracts use.

use vstd::prelude::*;
use vstd::utf8::{encode_utf8, is_ascii_chars, is_ascii_chars_encode_utf8};
use crate::Error;
use crate::bytes::{lower_byte, lower_bytes};
use crate::headers::{SpecHeader, parse_headers_spec, key_list, key_run_end};
use crate::detect::{spec_has_headers, spec_has_boundary, spec_is_multipart,
    extract_boundary_spec};
use crate::split::{split_on, split_blank};
use crate::section::{SpecSection, spec_parse_section, spec_parse_list, delimiter_of, child_frags,
    lemma_has_headers_not_terminator};
use crate::message::{SpecMessage, spec_parse_message};

verus! {

/// Lower-casing a byte sequence twice is the same as doing it once.
pub proof fn lemma_lower_bytes_idempotent(s: Seq<u8>)
    ensures
        lower_bytes(lower_bytes(s)) == lower_bytes(s),
{
    assert(lower_bytes(lower_bytes(s)) =~= lower_bytes(s)) by {
        assert forall|i: int| 0 <= i < s.len() implies lower_bytes(lower_bytes(s))[i]
            == lower_bytes(s)[i] by {
            assert(lower_bytes(s)[i] == lower_byte(s[i]));
            assert(lower_bytes(lower_bytes(s))[i] == lower_byte(lower_byte(s[i])));
        }
    }
}

/// Every key a header block folds out is already lower-cased.
pub proof fn lemma_keys_lowercased(s: Seq<u8>, i: int)
    requires
        0 <= i < parse_headers_spec(s).len(),
    ensures
        parse_headers_spec(s)[i].key == lower_bytes(parse_headers_spec(s)[i].key),
{
    crate::headers::lemma_key_list_from(s, 0);
    let ks = key_list(s);
    lemma_lower_bytes_idempotent(s.subrange(ks[i], key_run_end(s, ks[i])));
}

/// A header block with zero recognized keys produces an empty header
/// sequence — and folding is total, so there is no error to produce.
pub proof fn lemma_no_keys_empty_headers(s: Seq<u8>)
    ensures
        parse_headers_spec(s).len() == key_list(s).len(),
        key_list(s).len() == 0 ==> parse_headers_spec(s) == Seq::<SpecHeader>::empty(),
{
    if key_list(s).len() == 0 {
        assert(parse_headers_spec(s) =~= Seq::<SpecHeader>::empty());
    }
}

/// A parsed fragment list holds one section per fragment, each the parse of
/// its fragment.
pub proof fn lemma_parse_list_ok(frags: Seq<Seq<u8>>)
    requires
        spec_parse_list(frags) is Ok,
    ensures
        spec_parse_list(frags)->Ok_0.len() == frags.len(),
        forall|i: int|
            0 <= i < frags.len() ==> Ok::<SpecSection, Error>(
                #[trigger] spec_parse_list(frags)->Ok_0[i],
            ) == spec_parse_section(frags[i]),
    decreases frags.len(),
{
    if frags.len() > 0 {
        lemma_parse_list_ok(frags.drop_first());
        let rest = spec_parse_list(frags.drop_first())->Ok_0;
        let all = spec_parse_list(frags)->Ok_0;
        assert forall|i: int| 0 <= i < frags.len() implies Ok::<SpecSection, Error>(
            #[trigger] all[i],
        ) == spec_parse_section(frags[i]) by {
            if i > 0 {
                assert(all[i] == rest[i - 1]);
                assert(frags[i] == frags.drop_first()[i - 1]);
            }
        }
    }
}

/// For a well-formed plain document — a nonempty header block, a blank-line
/// run, a nonempty body in which no header-shaped content is recognized —
/// parsing succeeds with the folded headers (their keys lower-cased) and a
/// single `Plain` section whose bytes are exactly the raw body text.
pub proof fn lemma_parse_plain_document(s: Seq<u8>, head: Seq<u8>, body: Seq<u8>)
    requires
        !spec_is_multipart(s),
        split_blank(s) == Some((head, body)),
        head.len() > 0,
        body.len() > 0,
        !spec_has_headers(body),
        body != encode_utf8("--\n"@),
    ensures
        spec_parse_message(s) == Ok::<SpecMessage, Error>(
            SpecMessage {
                headers: parse_headers_spec(head),
                sections: seq![SpecSection::Plain { body }],
            },
        ),
        forall|i: int|
            0 <= i < parse_headers_spec(head).len() ==> #[trigger] parse_headers_spec(head)[i].key
                == lower_bytes(parse_headers_spec(head)[i].key),
{
    assert(spec_parse_section(body) == Ok::<SpecSection, Error>(SpecSection::Plain { body }));
    assert forall|i: int| 0 <= i < parse_headers_spec(head).len() implies #[trigger] parse_headers_spec(
        head,
    )[i].key == lower_bytes(parse_headers_spec(head)[i].key) by {
        lemma_keys_lowercased(head, i);
    }
}

/// For a multipart document with declared boundary `B`, the top-level
/// sections correspond one-to-one to the fragments obtained by splitting
/// the raw document on `--B` after the header block, each parsed by the
/// section parser — and the closing terminator fragment, when it
/// degenerates to `--` plus a line feed, maps to `Empty`.
pub proof fn lemma_parse_multipart_document(s: Seq<u8>, bnd: Seq<u8>)
    requires
        spec_is_multipart(s),
        extract_boundary_spec(s) == Some(bnd),
        spec_parse_message(s) is Ok,
    ensures
        ({
            let frags = split_on(s, delimiter_of(bnd));
            let m = spec_parse_message(s)->Ok_0;
            &&& m.headers == parse_headers_spec(frags[0])
            &&& m.sections.len() == frags.len() - 1
            &&& forall|i: int|
                1 <= i < frags.len() ==> Ok::<SpecSection, Error>(#[trigger] m.sections[i - 1])
                    == spec_parse_section(frags[i])
            &&& (frags.len() >= 2 && frags[frags.len() - 1] == encode_utf8("--\n"@)
                ==> m.sections[m.sections.len() - 1] == SpecSection::Empty)
        }),
{
    let frags = split_on(s, delimiter_of(bnd));
    assert(delimiter_of(bnd).len() >= 2) by {
        reveal_strlit("--");
        assert(is_ascii_chars("--"@));
        is_ascii_chars_encode_utf8("--"@);
    }
    crate::split::lemma_split_on_len(s, delimiter_of(bnd));
    lemma_parse_list_ok(frags.drop_first());
    let m = spec_parse_message(s)->Ok_0;
    assert forall|i: int| 1 <= i < frags.len() implies Ok::<SpecSection, Error>(
        #[trigger] m.sections[i - 1],
    ) == spec_parse_section(frags[i]) by {
        assert(frags.drop_first()[i - 1] == frags[i]);
    }
    if frags.len() >= 2 && frags[frags.len() - 1] == encode_utf8("--\n"@) {
        assert(spec_parse_section(frags[frags.len() - 1]) == Ok::<SpecSection, Error>(
            SpecSection::Empty,
        ));
    }
}

/// Nesting is recursion-symmetric: a section that itself declares a
/// boundary parses to a `Multipart` whose children are exactly the parses
/// of its own inner fragments — nested structure becomes a nested child,
/// never a flattened sibling.
pub proof fn lemma_nested_multipart(f: Seq<u8>, bnd: Seq<u8>)
    requires
        spec_has_headers(f),
        spec_has_boundary(f),
        extract_boundary_spec(f) == Some(bnd),
        spec_parse_section(f) is Ok,
    ensures
        ({
            let frags = split_on(f, delimiter_of(bnd));
            let sec = spec_parse_section(f)->Ok_0;
            &&& sec is Multipart
            &&& sec->Multipart_headers == parse_headers_spec(frags[0])
            &&& sec->Multipart_body.len() == child_frags(frags).len()
            &&& forall|i: int|
                0 <= i < child_frags(frags).len() ==> Ok::<SpecSection, Error>(
                    #[trigger] sec->Multipart_body[i],
                ) == spec_parse_section(child_frags(frags)[i])
        }),
{
    lemma_has_headers_not_terminator(f);
    let frags = split_on(f, delimiter_of(bnd));
    lemma_parse_list_ok(child_frags(frags));
}

/// Empty input is rejected with `InvalidString`.
pub proof fn lemma_empty_input_rejected()
    ensures
        spec_parse_message(Seq::<u8>::empty()) == Err::<SpecMessage, Error>(Error::InvalidString),
{
    let s = Seq::<u8>::empty();
    assert(!spec_is_multipart(s)) by {
        if spec_is_multipart(s) {
            crate::detect::lemma_boundary_find_from(s, 0);
            assert(forall|p: int|
                !crate::detect::pat_then_char_at(
                    s,
                    encode_utf8("Content-Type: multipart"@),
                    p,
                    s.len() as int,
                ));
        }
    }
}

/// Text with no blank-line-style separation — non-MIME-shaped plain text —
/// is rejected with `InvalidString`, as is one whose header block or body
/// around the first separator is empty.
pub proof fn lemma_unshaped_input_rejected(s: Seq<u8>)
    requires
        !spec_is_multipart(s),
        match split_blank(s) {
            None => true,
            Some(hb) => hb.0.len() == 0 || hb.1.len() == 0,
        },
    ensures
        spec_parse_message(s) == Err::<SpecMessage, Error>(Error::InvalidString),
{
}

} // verus!

