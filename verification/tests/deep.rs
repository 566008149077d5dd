use crumble::{Header, Message, Section};

fn bandcamp_body_text() -> String {
    String::from(
        r#"content-type: text/plain; charset=utf-8
content-transfer-encoding: quoted-printable

=0D
Greetings example,=0D
=0D
Malokarpatan just added "Strid=C5=BEie dni" red to Bandcamp, check it out a=
t:=0D
=0D
http://malokarpatan.bandcamp.com/merch/strid-ie-dni-red?from=3Dfanpub_fb_me=
rch=0D
=0D
=0D
=0D
=0D
Enjoy!=0D
=0D
=0D
Unfollow Malokarpatan by visiting:=0D
=0D
http://malokarpatan.bandcamp.com/fan_unsubscribe?band_id=3D1884471442&email=
=3Dexample%40example.com&fan_id=3Dxxxxxx&sig=3Dxxxxxxxxxxxxxxxxxxxxxxxxxxxxxxx=
2=0D
=0D
=0D


"#,
    )
}

fn bandcamp_body_html() -> String {
    String::from(
        r##"content-type: text/html; charset=utf-8
content-transfer-encoding: quoted-printable

<div id=3D"msg" style=3D"color:#595959;font-family: 'Helvetica Neue',arial,=
verdana,sans-serif;line-height:150%;padding:0;font-size:14px">=0D
=0D
<div style=3D"width:210px;min-height:158px;margin-bottom: 20px;">=0D
    <a href=3D"http://malokarpatan.bandcamp.com/merch/strid-ie-dni-red?from=
=3Dfanpub_fb_merch">=0D
        <img style=3D"width:210px;min-height:158px;" src=3D"http://f0.bcbit=
s.com/img/0017234612_36.jpg" alt=3D"&quot;Strid=C5=BEie dni&quot; red Art">=
=0D
    </a>=0D
</div>=0D
=0D
Greetings example,=0D
<br>=0D
Malokarpatan just added <span style=3D"font-style: italic;">&quot;Strid=C5=
=BEie dni&quot; red</span> to Bandcamp, <a href=3D"http://malokarpatan.band=
camp.com/merch/strid-ie-dni-red?from=3Dfanpub_fb_merch" style=3D"color:#068=
7f5;text-decoration:none;">check it out here</a>.=0D
=0D
=0D
<br><br>=0D
Enjoy!=0D
<br><br>=0D
<a href=3D"http://bandcamp.com"><img src=3D"http://bandcamp.com/img/email/b=
c-logo-small-2.gif" width=3D"105" height=3D"19" border=3D"0" alt=3D"bandcam=
p logo"></a><br/>=0D
<br>=0D
<span style=3D"font-size:11px;border-top:1px dotted #ccc;width:95%;display:=
block;padding:1em 0;margin:1em 0 0;"><a style=3D"color:#999;text-decoration=
:none;font-size:11px;" href=3D"http://malokarpatan.bandcamp.com/fan_unsubsc=
ribe?band_id=3D1884471442&amp;email=3Dexample%40example.com&amp;fan_id=3D27541=
1&amp;sig=3D63babede6c4610d722c7828045462822">Unfollow Malokarpatan</a></sp=
an>=0D
<br>&nbsp;=0D
</div>=0D


"##,
    )
}

fn bandcamp_headers_reference() -> Vec<Header> {
    let mut headers_reference = Vec::new();
    headers_reference.push(Header::new(
        "return-path",
        "<bounces+715912-0519-example=example.com@email.bandcamp.com>",
    ));
    headers_reference.push(Header::new("delivered-to", "example@example.com"));
    headers_reference.push(Header::new(
        "received",
        "from o3.email.bandcamp.com (o3.email.bandcamp.com [198.21.0.215])
\tby example.com (OpenSMTPD) with ESMTPS id a1fa99f4 (TLSv1.2:ECDHE-RSA-AES256-GCM-SHA384:256:NO)
\tfor <example@example.com>;
\tSun, 1 Sep 2019 18:47:11 +0000 (UTC)",
    ));
    headers_reference.push(Header::new(
        "dkim-signature",
        "v=1; a=rsa-sha1; c=relaxed/relaxed; \n\td=email.bandcamp.com; \n\th=from:to:subject:reply-to:mime-version:content-type; s=smtpapi; \n\tbh=GMq8o6onqHwkbKkFgqnrnpHezjc=; b=zdXYpJZGtSuUMv2xRDL3DhRYrQwXZ\n\tU8crpl/b+TLRc+h/GZcddBH1Mw6kg+FAs5Nuy1npOE7d3zXACBDE95hya/RkcF8Q\n\tya7fvewMlGBBfw8ZFRhukaDnTYc9GdyWn/rd5K33a8g7QdlfVpeL++x5sFAcyfVO\n\tVkPI6RaTPa89DM=",
    ));
    headers_reference.push(Header::new(
        "received",
        "by filter0116p1iad2.sendgrid.net with SMTP id filter0116p1iad2-543-5D6C1235-13
        2019-09-01 18:47:17.604755642 +0000 UTC m=+429561.889968037",
    ));
    headers_reference.push(Header::new(
        "received",
        "from bandcamp.com (ef.82.3da9.ip4.static.sl-reverse.com [169.61.130.239])
\tby ismtpd0009p1sjc2.sendgrid.net (SG) with ESMTP id K7NdDks5Rp-hj6zekhaxVQ
\tfor <example@example.com>; Sun, 01 Sep 2019 18:47:16.923 +0000 (UTC)",
    ));
    headers_reference.push(Header::new("from", "Bandcamp <noreply@bandcamp.com>"));
    headers_reference.push(Header::new("to", "example <example@example.com>"));
    headers_reference.push(Header::new(
        "subject",
        "=?UTF-8?B?TmV3IGZyb20gTWFsb2thcnBhdGFuOiAiU3RyaWTFvmllIGRuaSIgcmVk?=",
    ));
    headers_reference.push(Header::new("reply-to", "<noreply@bandcamp.com>"));
    headers_reference.push(Header::new("mime-version", "1.0"));
    headers_reference.push(Header::new(
        "content-type",
        r#"multipart/alternative;
 boundary="it_was_only_a_kiss""#,
    ));
    headers_reference.push(Header::new(
        "message-id",
        "<K7NdDks5Rp-hj6zekhaxVQ@ismtpd0009p1sjc2.sendgrid.net>",
    ));
    headers_reference.push(Header::new(
        "x-sg-eid",
        "nBOqntU0yBFjPVlNdjQaY3wDu4yTqLEvn1WO8Aw6GMB2LHOJyurZxQWDoS1ERDO7yQvQFeG32M8BCi
 laaSf8u02bkFHbT0Xv9H7gaVogCrkLtZogborUCORVUiPJGhw1UI+m13mfwglDAtiJrT1f96VpGs2T
 wwX20QhrGjGO2pMraVi2fI6k33Jlzv+pQ6HNut2ksNDg06CgBBC6mnB3KA==

This is a multi-part message in MIME format.",
    ));
    headers_reference
}

fn prepare_bandcamp() -> String {
    let mut fixture = String::new();
    for header in bandcamp_headers_reference() {
        fixture.push_str(&header.key);
        fixture.push_str(": ");
        fixture.push_str(&header.value);
        fixture.push('\n');
    }
    fixture.push_str("--it_was_only_a_kiss\n");
    fixture.push_str(&bandcamp_body_text());
    fixture.push_str("--it_was_only_a_kiss\n");
    fixture.push_str(&bandcamp_body_html());
    fixture
}

#[test]
fn parse_bandcamp() {
    let multipart = prepare_bandcamp();

    let email = Message::new(&multipart);

    match email {
        Err(e) => panic!("Could not parse email: {:?}", e),
        Ok(m) => {
            let headers = m.headers;
            let sections = m.sections;

            let headers_reference = bandcamp_headers_reference();

            assert_eq!(headers.len(), headers_reference.len());
            let mut index = 0;
            for header in headers {
                assert_eq!(header.key, headers_reference[index].key.to_lowercase());
                assert_eq!(header.value, headers_reference[index].value);
                index = index + 1;
            }

            let mut sections_reference = Vec::new();

            let body = bandcamp_body_text();
            let section = Section::new(&body).unwrap();
            sections_reference.push(section);

            let body = bandcamp_body_html();
            let section = Section::new(&body).unwrap();
            sections_reference.push(section);

            assert_eq!(sections.len(), sections_reference.len());
            index = 0;
            for section in sections {
                assert_eq!(section, sections_reference[index]);
                index = index + 1;
            }
        }
    }
}

fn prepare_nested() -> String {
    String::from(
        r#"Return-Path: <example@gmail.com>
Delivered-To: example@example.com
MIME-Version: 1.0
From: Example <example@gmail.com>
Date: Tue, 10 Sep 2019 12:47:31 +1000
Message-ID: <CAMUmi+mvKSB1x93x3su-+Yy1AvDNm2jFmgs6fVgMtGL35XuBCw@mail.gmail.com>
Subject: Example
To: example@example.com
Content-Type: multipart/mixed; boundary="boundary_A"

--boundary_A
content-type: multipart/alternative; boundary="boundary_B"

Level A

--boundary_B
content-type: multipart/alternative; boundary="boundary_C1"

Level B1

--boundary_C1
content-type: multipart/alternative; boundary="boundary_D1"

Level C1

--boundary_D1
content-type: text/plain; charset="UTF-8"

Level D1

--boundary_D1--
--boundary_C1--
--boundary_B
content-type: multipart/alternative; boundary="boundary_C2"

Level B2

--boundary_C2
content-type: text/plain; charset="UTF-8"

Level C2

--boundary_C2--
--boundary_B--"#,
    )
}

#[test]
fn parse_nested() {
    let nested = prepare_nested();

    let message = Message::new(&nested);

    match message {
        Err(e) => panic!("Could not parse email: {:?}", e),
        Ok(m) => {
            let headers = m.headers;
            let sections = m.sections;

            let mut headers_reference = Vec::new();
            headers_reference.push(Header::new("Return-Path", "<example@gmail.com>"));
            headers_reference.push(Header::new("Delivered-To", "example@example.com"));
            headers_reference.push(Header::new("MIME-Version", "1.0"));
            headers_reference.push(Header::new("From", "Example <example@gmail.com>"));
            headers_reference.push(Header::new("Date", "Tue, 10 Sep 2019 12:47:31 +1000"));
            headers_reference.push(Header::new(
                "Message-ID",
                "<CAMUmi+mvKSB1x93x3su-+Yy1AvDNm2jFmgs6fVgMtGL35XuBCw@mail.gmail.com>",
            ));
            headers_reference.push(Header::new("Subject", "Example"));
            headers_reference.push(Header::new("To", "example@example.com"));
            headers_reference.push(Header::new(
                "Content-Type",
                r#"multipart/mixed; boundary="boundary_A""#,
            ));

            assert_eq!(headers.len(), headers_reference.len());
            let mut index = 0;
            for header in headers {
                assert_eq!(header.key, headers_reference[index].key.to_lowercase());
                assert_eq!(header.value, headers_reference[index].value);
                index = index + 1;
            }

            let mut sections_reference = Vec::new();

            let section = Section::Multipart {
                headers: vec![Header::new(
                    "content-type",
                    r#"multipart/alternative; boundary="boundary_B"

Level A"#,
                )],
                body: vec![
                    Box::new(Section::Multipart {
                        headers: vec![Header::new(
                            "content-type",
                            r#"multipart/alternative; boundary="boundary_C1"

Level B1"#,
                        )],
                        body: vec![Box::new(Section::Multipart {
                            headers: vec![Header::new(
                                "content-type",
                                r#"multipart/alternative; boundary="boundary_D1"

Level C1"#,
                            )],
                            body: vec![Box::new(Section::Multipart {
                                headers: vec![Header::new(
                                    "content-type",
                                    r#"text/plain; charset="UTF-8""#,
                                )],
                                body: vec![Box::new(Section::Plain {
                                    body: "Level D1\n\n".as_bytes().to_vec(),
                                })],
                            })],
                        })],
                    }),
                    Box::new(Section::Multipart {
                        headers: vec![Header::new(
                            "content-type",
                            r#"multipart/alternative; boundary="boundary_C2"

Level B2"#,
                        )],
                        body: vec![Box::new(Section::Multipart {
                            headers: vec![Header::new(
                                "content-type",
                                r#"text/plain; charset="UTF-8""#,
                            )],
                            body: vec![Box::new(Section::Plain {
                                body: "Level C2\n\n".as_bytes().to_vec(),
                            })],
                        })],
                    }),
                ],
            };

            sections_reference.push(section);

            assert_eq!(sections.len(), sections_reference.len());
            index = 0;
            for section in sections {
                assert_eq!(section, sections_reference[index]);
                index = index + 1;
            }
        }
    }
}
