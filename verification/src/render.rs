//! Human-readable rendering of parsed documents: headers joined by line
//! feeds, sections delimited by marker lines, nested sections rendered by
//! recursive concatenation.  The rendering is a lossy diagnostic
//! projection, not a wire format.

use vstd::prelude::*;
use vstd::utf8::{encode_utf8, encode_scalar, is_ascii_chars, is_ascii_chars_encode_utf8,
    valid_utf8};
use vstd::string::{StringSliceAdditionalSpecFns, StringExecFns, StrSliceExecFns};
use crate::headers::{Header, SpecHeader};
use crate::section::{Section, SpecSection};
use crate::message::{Message, SpecMessage};

verus! {

broadcast use {vstd::std_specs::vec::group_vec_axioms, vstd::seq::group_seq_axioms};

/// Encoding characters to bytes distributes over concatenation.
pub proof fn lemma_encode_concat(a: Seq<char>, b: Seq<char>)
    ensures
        encode_utf8(a + b) == encode_utf8(a) + encode_utf8(b),
    decreases a.len(),
{
    if a.len() == 0 {
        assert(a + b =~= b);
        assert(encode_utf8(a) + encode_utf8(b) =~= encode_utf8(b));
    } else {
        assert((a + b).drop_first() =~= a.drop_first() + b);
        lemma_encode_concat(a.drop_first(), b);
        assert(encode_utf8(a + b) == encode_scalar((a + b)[0] as u32) + encode_utf8(
            (a + b).drop_first(),
        ));
        assert((a + b)[0] == a[0]);
        assert(encode_scalar(a[0] as u32) + (encode_utf8(a.drop_first()) + encode_utf8(b)) =~= (
        encode_scalar(a[0] as u32) + encode_utf8(a.drop_first())) + encode_utf8(b));
    }
}

/// The rendering of one header: `key: value`.
pub open spec fn spec_render_header(h: SpecHeader) -> Seq<u8> {
    h.key + seq![0x3au8, 0x20u8] + h.value
}

/// The rendering of a header sequence: the headers joined by line feeds.
pub open spec fn spec_render_headers(hs: Seq<SpecHeader>) -> Seq<u8>
    decreases hs.len(),
{
    if hs.len() == 0 {
        Seq::<u8>::empty()
    } else if hs.len() == 1 {
        spec_render_header(hs[0])
    } else {
        spec_render_header(hs[0]) + seq![0x0au8] + spec_render_headers(hs.drop_first())
    }
}

/// A section can be rendered when every `Plain` body in it is valid UTF-8.
pub open spec fn spec_renderable(sec: SpecSection) -> bool
    decreases sec,
{
    match sec {
        SpecSection::Plain { body } => valid_utf8(body),
        SpecSection::Multipart { headers, body } => forall|i: int|
            0 <= i < body.len() ==> spec_renderable(#[trigger] body[i]),
        SpecSection::Empty => true,
    }
}

/// The rendering of one section: a `Plain` body verbatim, a `Multipart` as
/// its headers between marker lines with each child rendered between line
/// feeds, and `Empty` as nothing.
pub open spec fn spec_render_section(sec: SpecSection) -> Seq<u8>
    decreases sec, 1int,
{
    match sec {
        SpecSection::Plain { body } => body,
        SpecSection::Multipart { headers, body } => spec_render_headers(headers) + encode_utf8(
            "\n------------\n"@,
        ) + spec_render_children(body) + encode_utf8("------------"@),
        SpecSection::Empty => Seq::<u8>::empty(),
    }
}

/// The renderings of a section sequence, each between line feeds.
pub open spec fn spec_render_children(ss: Seq<SpecSection>) -> Seq<u8>
    decreases ss, 0int,
{
    if ss.len() == 0 {
        Seq::<u8>::empty()
    } else {
        seq![0x0au8] + spec_render_section(ss[0]) + seq![0x0au8] + spec_render_children(
            ss.drop_first(),
        )
    }
}

/// The rendering of a whole message: the top-level headers and each section
/// between marker lines.
pub open spec fn spec_render_message(m: SpecMessage) -> Seq<u8> {
    encode_utf8("########################\n"@) + spec_render_headers(m.headers) + encode_utf8(
        "\n########################\n"@,
    ) + spec_render_message_sections(m.sections)
}

/// The renderings of the top-level sections, each closed by a marker line.
pub open spec fn spec_render_message_sections(ss: Seq<SpecSection>) -> Seq<u8>
    decreases ss,
{
    if ss.len() == 0 {
        Seq::<u8>::empty()
    } else {
        spec_render_section(ss[0]) + encode_utf8("\n########################\n"@)
            + spec_render_message_sections(ss.drop_first())
    }
}

/// A message can be rendered when each of its sections can.
pub open spec fn spec_message_renderable(m: SpecMessage) -> bool {
    forall|i: int| 0 <= i < m.sections.len() ==> spec_renderable(#[trigger] m.sections[i])
}

/// Relies on `core::str::from_utf8`: it succeeds exactly on valid UTF-8
/// input and returns the given bytes reinterpreted as text.
#[verifier::external_body]
fn bytes_as_str(v: &[u8]) -> (r: Option<&str>)
    ensures
        r is Some <==> valid_utf8(v@),
        r matches Some(s) ==> s.spec_bytes() == v@,
{
    match core::str::from_utf8(v) {
        Ok(s) => Some(s),
        Err(_) => None,
    }
}

impl Header {
    /// This header as `key: value`.
    pub fn render(&self) -> (r: String)
        ensures
            encode_utf8(r@) == spec_render_header(self@),
    {
        let mut out = self.key.clone();
        out.append(": ");
        out.append(self.value.as_str());
        proof {
            reveal_strlit(": ");
            assert(is_ascii_chars(": "@));
            is_ascii_chars_encode_utf8(": "@);
            assert(encode_utf8(": "@) =~= seq![0x3au8, 0x20u8]);
            lemma_encode_concat(self.key@, ": "@);
            lemma_encode_concat(self.key@ + ": "@, self.value@);
            assert(out@ == (self.key@ + ": "@) + self.value@);
            assert(encode_utf8(out@) =~= spec_render_header(self@));
        }
        out
    }
}

/// A header sequence as text, one header per line.
pub fn render_headers(headers: &Vec<Header>) -> (r: String)
    ensures
        encode_utf8(r@) == spec_render_headers(headers@.map_values(|h: Header| h@)),
{
    let ghost hs = headers@.map_values(|h: Header| h@);
    let mut out = String::new();
    let n = headers.len();
    let mut i: usize = 0;
    proof {
        reveal_strlit("\n");
        assert(is_ascii_chars("\n"@));
        is_ascii_chars_encode_utf8("\n"@);
        assert(encode_utf8("\n"@) =~= seq![0x0au8]);
    }
    while i < n
        invariant
            0 <= i <= n,
            n == headers@.len(),
            hs == headers@.map_values(|h: Header| h@),
            hs.len() == n,
            encode_utf8("\n"@) =~= seq![0x0au8],
            i == 0 ==> out@ == Seq::<char>::empty(),
            1 <= i < n ==> spec_render_headers(hs) == encode_utf8(out@) + seq![0x0au8]
                + spec_render_headers(hs.skip(i as int)),
            i == n && i > 0 ==> spec_render_headers(hs) == encode_utf8(out@),
        decreases n - i,
    {
        proof {
            assert(hs[i as int] == headers@[i as int]@);
        }
        let piece = headers[i].render();
        let ghost out0 = out@;
        if i > 0 {
            out.append("\n");
            proof {
                lemma_encode_concat(out0, "\n"@);
            }
        }
        let ghost out1 = out@;
        out.append(piece.as_str());
        proof {
            lemma_encode_concat(out1, piece@);
            lemma_render_headers_step(hs, i as int);
            if i == 0 {
                assert(out@ == piece@) by {
                    assert(out0 + piece@ =~= piece@);
                }
                assert(hs.skip(0) =~= hs);
            } else {
                assert(encode_utf8(out@) == encode_utf8(out0) + seq![0x0au8] + encode_utf8(
                    piece@,
                ));
            }
        }
        i = i + 1;
    }
    proof {
        if n == 0 {
            assert(spec_render_headers(hs) =~= Seq::<u8>::empty());
            assert(encode_utf8(out@) =~= Seq::<u8>::empty());
        }
    }
    out
}

/// One step of rendering a header list: the text up to and including entry
/// `i` extends by that entry's rendering.
proof fn lemma_render_headers_step(hs: Seq<SpecHeader>, i: int)
    requires
        0 <= i < hs.len(),
    ensures
        spec_render_headers(hs.skip(i)) == if i + 1 < hs.len() {
            spec_render_header(hs[i]) + seq![0x0au8] + spec_render_headers(hs.skip(i + 1))
        } else {
            spec_render_header(hs[i])
        },
{
    assert(hs.skip(i)[0] == hs[i]);
    assert(hs.skip(i).drop_first() =~= hs.skip(i + 1));
}

/// One step of rendering a section list.
proof fn lemma_render_children_step(vs: Seq<SpecSection>, i: int)
    requires
        0 <= i < vs.len(),
    ensures
        spec_render_children(vs.skip(i)) == seq![0x0au8] + spec_render_section(vs[i]) + seq![
            0x0au8,
        ] + spec_render_children(vs.skip(i + 1)),
{
    assert(vs.skip(i)[0] == vs[i]);
    assert(vs.skip(i).drop_first() =~= vs.skip(i + 1));
}

/// One step of rendering the top-level section list.
proof fn lemma_render_message_sections_step(vs: Seq<SpecSection>, i: int)
    requires
        0 <= i < vs.len(),
    ensures
        spec_render_message_sections(vs.skip(i)) == spec_render_section(vs[i]) + encode_utf8(
            "\n########################\n"@,
        ) + spec_render_message_sections(vs.skip(i + 1)),
{
    assert(vs.skip(i)[0] == vs[i]);
    assert(vs.skip(i).drop_first() =~= vs.skip(i + 1));
}

impl Section {
    /// This section as human-readable text.  Every `Plain` body in it must
    /// be valid UTF-8 for a text rendering to exist.
    pub fn render(&self) -> (r: String)
        requires
            spec_renderable(self.view()),
        ensures
            encode_utf8(r@) == spec_render_section(self.view()),
        decreases *self,
    {
        match self {
            Section::Plain { body } => {
                match bytes_as_str(body.as_slice()) {
                    Some(text) => {
                        let r = text.to_owned();
                        proof {
                            assert(encode_utf8(r@) == body@);
                        }
                        r
                    },
                    None => {
                        proof {
                            assert(false);
                        }
                        String::new()
                    },
                }
            },
            Section::Multipart { headers, body } => {
                let ghost hs = headers@.map_values(|h: Header| h@);
                let ghost vs = self.view()->Multipart_body;
                let mut out = render_headers(headers);
                let ghost out0 = out@;
                out.append("\n------------\n");
                proof {
                    reveal_strlit("\n");
                    assert(is_ascii_chars("\n"@));
                    is_ascii_chars_encode_utf8("\n"@);
                    assert(encode_utf8("\n"@) =~= seq![0x0au8]);
                    lemma_encode_concat(out0, "\n------------\n"@);
                    assert(vs.skip(0) =~= vs);
                }
                let ghost base = spec_render_headers(hs) + encode_utf8("\n------------\n"@);
                let n = body.len();
                let mut i: usize = 0;
                while i < n
                    invariant
                        0 <= i <= n,
                        n == body@.len(),
                        vs.len() == n,
                        vs == self.view()->Multipart_body,
                        self.view() is Multipart,
                        spec_renderable(self.view()),
                        forall|k: int| 0 <= k < n ==> vs[k] == #[trigger] body@[k].view(),
                        encode_utf8("\n"@) =~= seq![0x0au8],
                        base == spec_render_headers(hs) + encode_utf8("\n------------\n"@),
                        encode_utf8(out@) + spec_render_children(vs.skip(i as int)) == base
                            + spec_render_children(vs),
                        *self is Multipart,
                        body == self->Multipart_body,
                    decreases n - i,
                {
                    proof {
                        assert(spec_renderable(vs[i as int]));
                    }
                    let piece = body[i].render();
                    let ghost o0 = out@;
                    out.append("\n");
                    let ghost o1 = out@;
                    out.append(piece.as_str());
                    let ghost o2 = out@;
                    out.append("\n");
                    proof {
                        lemma_encode_concat(o0, "\n"@);
                        lemma_encode_concat(o1, piece@);
                        lemma_encode_concat(o2, "\n"@);
                        lemma_render_children_step(vs, i as int);
                        assert(encode_utf8(out@) =~= encode_utf8(o0) + (seq![0x0au8]
                            + spec_render_section(vs[i as int]) + seq![0x0au8]));
                        assert(encode_utf8(out@) + spec_render_children(vs.skip(i + 1)) =~= (
                        encode_utf8(o0) + spec_render_children(vs.skip(i as int))));
                    }
                    i = i + 1;
                }
                let ghost o3 = out@;
                out.append("------------");
                proof {
                    lemma_encode_concat(o3, "------------"@);
                    assert(vs.skip(n as int) =~= Seq::<SpecSection>::empty());
                    assert(encode_utf8(out@) =~= spec_render_section(self.view()));
                }
                out
            },
            Section::Empty => {
                let r = String::new();
                proof {
                    assert(encode_utf8(r@) =~= Seq::<u8>::empty());
                }
                r
            },
        }
    }
}

impl Message {
    /// This message as human-readable text: the top-level headers and each
    /// section between marker lines.
    pub fn render(&self) -> (r: String)
        requires
            spec_message_renderable(self.view()),
        ensures
            encode_utf8(r@) == spec_render_message(self.view()),
    {
        let ghost hs = self.headers@.map_values(|h: Header| h@);
        let ghost vs = self.view().sections;
        let mut out = String::from_str("########################\n");
        let ghost o0 = out@;
        let head_text = render_headers(&self.headers);
        out.append(head_text.as_str());
        let ghost o1 = out@;
        out.append("\n########################\n");
        proof {
            lemma_encode_concat(o0, head_text@);
            lemma_encode_concat(o1, "\n########################\n"@);
            assert(vs.skip(0) =~= vs);
        }
        let ghost base = encode_utf8("########################\n"@) + spec_render_headers(hs)
            + encode_utf8("\n########################\n"@);
        proof {
            assert(encode_utf8(out@) =~= base);
        }
        let n = self.sections.len();
        let mut i: usize = 0;
        while i < n
            invariant
                0 <= i <= n,
                n == self.sections@.len(),
                vs.len() == n,
                vs == self.view().sections,
                spec_message_renderable(self.view()),
                forall|k: int| 0 <= k < n ==> vs[k] == #[trigger] self.sections@[k].view(),
                base == encode_utf8("########################\n"@) + spec_render_headers(hs)
                    + encode_utf8("\n########################\n"@),
                encode_utf8(out@) + spec_render_message_sections(vs.skip(i as int)) == base
                    + spec_render_message_sections(vs),
            decreases n - i,
        {
            proof {
                assert(spec_renderable(vs[i as int]));
            }
            let piece = self.sections[i].render();
            let ghost o2 = out@;
            out.append(piece.as_str());
            let ghost o3 = out@;
            out.append("\n########################\n");
            proof {
                lemma_encode_concat(o2, piece@);
                lemma_encode_concat(o3, "\n########################\n"@);
                lemma_render_message_sections_step(vs, i as int);
                assert(encode_utf8(out@) + spec_render_message_sections(vs.skip(i + 1)) =~= (
                encode_utf8(o2) + spec_render_message_sections(vs.skip(i as int))));
            }
            i = i + 1;
        }
        proof {
            assert(vs.skip(n as int) =~= Seq::<SpecSection>::empty());
            assert(encode_utf8(out@) =~= spec_render_message(self.view()));
        }
        out
    }
}

} // verus!
