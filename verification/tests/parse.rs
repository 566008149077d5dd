use crumble::{Error, Header, Message, Section};

fn prepare_plain() -> String {
    String::from(
        "Message-ID: <0123ABCD>
Subject: Hello, world!
Cc: user1@example.com
user2@example.com
To: user3@example.com
From: user4@example.com
Date: 1997-07-16T19:30:30+01:00
X-Mailer: Foo Corp Widgets 12.0.3.1.20 Build 2020040302
type bar
description baz
X-MIMETrack: Serialize by Foo
MIME-Version: 1.0
Content-type: text/plain; charset=US-ASCII

Hello user3,

How is the world?
How is the moon?
How are the stars?

Cheers
user4",
    )
}

fn prepare_multipart() -> String {
    String::from(
        "From: John Doe <example@example.com>
MIME-Version: 1.0
Content-Type: multipart/mixed;
    boundary='XXXXboundary text'

--XXXXboundary text
content-type: text/plain

this is the body text

--XXXXboundary text
content-type: text/plain
content-disposition: attachment;
    filename='test.txt'

this is the attachment text

",
    )
}

#[test]
fn empty_string() {
    let empty_string = "";

    let email = Message::new(empty_string);
    match email {
        Ok(_) => panic!("Successfully parsed empty string"),
        Err(_e) => assert!(true), // InvalidString
    }
}

#[test]
fn bad_string() {
    let bad_string = "Hello, world!";

    let email = Message::new(bad_string);
    match email {
        Ok(_) => panic!("Successfully parsed bad string"),
        Err(_e) => assert!(true), // InvalidString
    }
}

#[test]
fn parse_plain() {
    let plain = prepare_plain();

    let message = Message::new(&plain);

    match message {
        Err(e) => panic!("Could not parse email: {:?}", e),
        Ok(m) => {
            let headers = m.headers;
            let sections = m.sections;

            let mut headers_reference = Vec::new();
            headers_reference.push(Header::new("Message-ID", "<0123ABCD>"));
            headers_reference.push(Header::new("Subject", "Hello, world!"));
            headers_reference.push(Header::new("Cc", "user1@example.com\nuser2@example.com"));
            headers_reference.push(Header::new("To", "user3@example.com"));
            headers_reference.push(Header::new("From", "user4@example.com"));
            headers_reference.push(Header::new("Date", "1997-07-16T19:30:30+01:00"));
            headers_reference.push(Header::new(
                "X-Mailer",
                "Foo Corp Widgets 12.0.3.1.20 Build 2020040302\ntype bar\ndescription baz",
            ));
            headers_reference.push(Header::new("X-MIMETrack", "Serialize by Foo"));
            headers_reference.push(Header::new("MIME-Version", "1.0"));
            headers_reference.push(Header::new("Content-type", "text/plain; charset=US-ASCII"));

            assert_eq!(headers.len(), headers_reference.len());
            let mut index = 0;
            for header in headers {
                assert_eq!(header.key, headers_reference[index].key.to_lowercase());
                assert_eq!(header.value, headers_reference[index].value);
                index = index + 1;
            }

            let body = String::from(
                "Hello user3,

How is the world?
How is the moon?
How are the stars?

Cheers
user4",
            );
            let sections_reference = vec![Section::new(&body).unwrap()];
            assert_eq!(sections.len(), sections_reference.len());
            index = 0;
            for section in sections {
                assert_eq!(section, sections_reference[index]);
                index = index + 1;
            }
        }
    }
}

#[test]
fn parse_multipart() {
    let multipart = prepare_multipart();

    let email = Message::new(&multipart);

    match email {
        Err(e) => panic!("Could not parse email: {:?}", e),
        Ok(m) => {
            let headers = m.headers;
            let sections = m.sections;

            let mut headers_reference = Vec::new();
            headers_reference.push(Header::new("From", "John Doe <example@example.com>"));
            headers_reference.push(Header::new("MIME-Version", "1.0"));
            headers_reference.push(Header::new(
                "Content-Type",
                "multipart/mixed;\n    boundary='XXXXboundary text'",
            ));

            assert_eq!(headers.len(), headers_reference.len());
            let mut index = 0;
            for header in headers {
                assert_eq!(header.key, headers_reference[index].key.to_lowercase());
                assert_eq!(header.value, headers_reference[index].value);
                index = index + 1;
            }

            let mut sections_reference = Vec::new();

            let body = String::from("content-type: text/plain\n\nthis is the body text\n\n");
            let section = Section::new(&body).unwrap();
            sections_reference.push(section);

            let body = String::from(
                "content-type: text/plain\ncontent-disposition: attachment;\n    filename='test.txt'\n\nthis is the attachment text\n\n",
            );
            let section = Section::new(&body).unwrap();
            sections_reference.push(section);

            assert_eq!(sections.len(), sections_reference.len());
            index = 0;
            for section in sections {
                assert_eq!(section, sections_reference[index]);
                index = index + 1;
            }
        }
    }
}
