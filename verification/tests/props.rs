use crumble::headers::parse_headers;
use crumble::render::render_headers;
use crumble::{Error, Header, Message, Section};

#[test]
fn subject_hi_scenario() {
    let m = Message::new("Subject: Hi\n\nBody text").unwrap();
    assert_eq!(m.headers.len(), 1);
    assert_eq!(m.headers[0].key, "subject");
    assert_eq!(m.headers[0].value, "Hi");
    assert_eq!(m.sections.len(), 1);
    assert_eq!(
        m.sections[0],
        Section::Plain {
            body: "Body text".as_bytes().to_vec()
        }
    );
}

#[test]
fn two_part_multipart_scenario() {
    let doc = "From: a@example.com\nContent-Type: multipart/mixed; boundary=\"X\"\n\n--X\ncontent-type: text/plain\n\nfirst part\n\n--X\ncontent-type: text/plain\n\nsecond part\n";
    let m = Message::new(doc).unwrap();
    assert_eq!(m.sections.len(), 2);
    for (section, body) in m.sections.iter().zip(["first part\n\n", "second part\n"]) {
        match section {
            Section::Multipart { headers, body: children } => {
                assert_eq!(headers.len(), 1);
                assert_eq!(headers[0].key, "content-type");
                assert_eq!(headers[0].value, "text/plain");
                assert_eq!(children.len(), 1);
                assert_eq!(
                    *children[0],
                    Section::Plain {
                        body: body.as_bytes().to_vec()
                    }
                );
            }
            other => panic!("expected a multipart section, got {:?}", other),
        }
    }
}

#[test]
fn trailing_terminator_becomes_empty() {
    let doc = "Content-Type: multipart/mixed; boundary=\"X\"\n\n--X\ncontent-type: text/plain\n\nonly part\n\n--X--\n";
    let m = Message::new(doc).unwrap();
    assert_eq!(m.sections.len(), 2);
    assert_eq!(m.sections[1], Section::Empty);
}

#[test]
fn header_folding_idempotent_scenario() {
    let block = "Subject: Hello\nCc: one@example.com\n two@example.com\nX-Note: spans\nseveral odd lines\nDate: now";
    let first = parse_headers(block);
    let rebuilt = render_headers(&first);
    let second = parse_headers(&rebuilt);
    assert_eq!(first, second);
}

#[test]
fn block_without_keys_yields_no_headers() {
    let headers = parse_headers("just some text\nwith no recognizable shape");
    assert_eq!(headers.len(), 0);
}

#[test]
fn empty_input_is_invalid_string() {
    match Message::new("") {
        Err(e) => assert_eq!(e, Error::InvalidString),
        Ok(_) => panic!("empty input must not parse"),
    }
}

#[test]
fn unseparated_text_is_invalid_string() {
    match Message::new("Hello, world!") {
        Err(e) => assert_eq!(e, Error::InvalidString),
        Ok(_) => panic!("shapeless input must not parse"),
    }
}

#[test]
fn unextractable_boundary_is_parse_error() {
    let section = Section::new("content-type: text/plain\nboundary=zzz\n\nbody");
    match section {
        Err(e) => assert_eq!(e, Error::ParseError),
        Ok(s) => panic!("unquoted boundary must not parse, got {:?}", s),
    }
}

#[test]
fn multipart_without_boundary_is_invalid_string() {
    match Message::new("Content-Type: multipart/mixed\n\nbody text") {
        Err(e) => assert_eq!(e, Error::InvalidString),
        Ok(_) => panic!("multipart without a boundary must not parse"),
    }
}

#[test]
fn detection_stops_at_the_window() {
    let padding = " ".repeat(3000);
    let late = format!("{}content-type: text/plain", padding);
    assert!(!Section::has_headers(&late));
    assert!(Section::has_headers("content-type: text/plain"));
    let late_boundary = format!("{}boundary=\"X\"", padding);
    assert!(!Section::has_boundary(&late_boundary));
    assert!(Section::has_boundary("boundary=\"X\""));
}

#[test]
fn terminator_artifact_is_empty() {
    assert_eq!(Section::new("--\n").unwrap(), Section::Empty);
}

#[test]
fn headerless_text_is_plain() {
    assert_eq!(
        Section::new("no structure at all").unwrap(),
        Section::Plain {
            body: "no structure at all".as_bytes().to_vec()
        }
    );
}

#[test]
fn headers_without_blank_line_degrade() {
    // a header block with no body still yields a single-child container
    let section = Section::new("content-type: text/plain").unwrap();
    assert_eq!(
        section,
        Section::Multipart {
            headers: vec![Header::new("content-type", "text/plain")],
            body: vec![Box::new(Section::Plain { body: Vec::new() })],
        }
    );
}

#[test]
fn keys_are_lowercased() {
    let headers = parse_headers("SUBJECT: Loud\nX-MIXED-Case: kept");
    assert_eq!(headers[0].key, "subject");
    assert_eq!(headers[0].value, "Loud");
    assert_eq!(headers[1].key, "x-mixed-case");
    assert_eq!(headers[1].value, "kept");
}

#[test]
fn render_header_text() {
    assert_eq!(Header::new("subject", "Hi").render(), "subject: Hi");
}

#[test]
fn render_section_text() {
    let section = Section::Multipart {
        headers: vec![Header::new("a", "b")],
        body: vec![Box::new(Section::Plain {
            body: "x".as_bytes().to_vec(),
        })],
    };
    assert_eq!(section.render(), "a: b\n------------\n\nx\n------------");
}

#[test]
fn render_message_text() {
    let m = Message::new("Subject: Hi\n\nBody text").unwrap();
    assert_eq!(
        m.render(),
        "########################\nsubject: Hi\n########################\nBody text\n########################\n"
    );
}

#[test]
fn describe_errors() {
    assert_eq!(Error::Unknown.describe(), "Error parsing message: Unknown error");
    assert_eq!(
        Error::InvalidString.describe(),
        "Error parsing message: Invalid string"
    );
    assert_eq!(
        Error::ParseError.describe(),
        "Error parsing message: Invalid document"
    );
}

#[test]
fn header_new_keeps_text() {
    let h = Header::new("Key", "Value");
    assert_eq!(h.key, "Key");
    assert_eq!(h.value, "Value");
}

#[test]
fn multibyte_text_survives() {
    let m = Message::new("Subject: Grüße\n\nKörper — Text").unwrap();
    assert_eq!(m.headers[0].value, "Grüße");
    assert_eq!(
        m.sections[0],
        Section::Plain {
            body: "Körper — Text".as_bytes().to_vec()
        }
    );
}
