use criew::mail_parser::{
    normalize_email_address, normalize_subject, parse_address_list, parse_header_text,
    parse_headers, ParsedTrailer,
};

#[test]
fn parses_basic_headers_and_reference_chain() {
    let raw = b"Message-ID: <root@example.com>\r\nSubject: [PATCH] demo\r\nFrom: Alice <alice@example.com>\r\nTo: Bob <bob@example.com>\r\nCc: List <list@example.com>\r\nReferences: <a@example.com> <b@example.com>\r\nIn-Reply-To: <b@example.com>\r\nX-Series-Change-ID: demo-series\r\n\r\nbody\r\n";

    let parsed = parse_headers(raw, "fallback@example.com".to_string());
    assert_eq!(parsed.message_id, "root@example.com");
    assert_eq!(parsed.to_addresses, vec!["bob@example.com"]);
    assert_eq!(parsed.cc_addresses, vec!["list@example.com"]);
    assert_eq!(parsed.in_reply_to.as_deref(), Some("b@example.com"));
    assert_eq!(parsed.references, vec!["a@example.com", "b@example.com"]);
    assert_eq!(parsed.change_id.as_deref(), Some("demo-series"));
}

#[test]
fn falls_back_to_generated_message_id() {
    let raw = b"Subject: no id\r\n\r\nbody\r\n";
    let parsed = parse_headers(raw, "synthetic@example.com".to_string());
    assert_eq!(parsed.message_id, "synthetic@example.com");
}

#[test]
fn folds_continuation_lines() {
    let raw = b"Message-ID: <fold@example.com>\r\nReferences: <a@example.com>\r\n <b@example.com>\r\n\r\n";
    let parsed = parse_headers(raw, "fallback@example.com".to_string());
    assert_eq!(parsed.references, vec!["a@example.com", "b@example.com"]);
}

#[test]
fn normalizes_common_subject_prefixes() {
    assert_eq!(normalize_subject("Re: [PATCH v2 0/3] Demo"), "demo");
    assert_eq!(normalize_subject("fwd:  Re: status"), "status");
}

#[test]
fn parses_review_trailers_and_ignores_quoted_values() {
    let raw = b"Message-ID: <patch@example.com>\nSubject: [PATCH] demo\n\nReviewed-by: Alice Reader <alice@example.com>\nAcked-by: Bob <bob@example.com>\n > Reviewed-by: quoted@example.com\nTested-by: Carol <carol@example.com>\n";

    let parsed = parse_headers(raw, "fallback@example.com".to_string());

    assert_eq!(
        parsed.trailers,
        vec![
            ParsedTrailer {
                kind: "Reviewed-by".to_string(),
                value: "Alice Reader <alice@example.com>".to_string(),
            },
            ParsedTrailer {
                kind: "Acked-by".to_string(),
                value: "Bob <bob@example.com>".to_string(),
            },
            ParsedTrailer {
                kind: "Tested-by".to_string(),
                value: "Carol <carol@example.com>".to_string(),
            },
        ]
    );
}

#[test]
fn folds_review_trailer_continuation_lines() {
    let raw = b"Message-ID: <patch@example.com>\r\n\r\nReviewed-by: Alice\r\n <alice@example.com>\r\nSigned-off-by: Author <author@example.com>\r\n";

    let parsed = parse_headers(raw, "fallback@example.com".to_string());

    assert_eq!(parsed.trailers[0].value, "Alice <alice@example.com>");
    assert_eq!(parsed.trailers[1].kind, "Signed-off-by");
}

#[test]
fn parses_quoted_commas_and_bare_addresses() {
    assert_eq!(
        parse_address_list("\"Kernel, Bot\" <bot@example.com>, reader@example.com"),
        vec!["bot@example.com", "reader@example.com"]
    );
    assert_eq!(
        normalize_email_address("Alice <ALICE@EXAMPLE.COM>"),
        Some("alice@example.com".to_string())
    );
}

#[test]
fn ill_formed_bytes_are_replaced_before_reading() {
    let parsed = parse_headers(b"Subject: caf\xff\nFrom: a@b\n\n", "id@x".to_string());
    assert_eq!(parsed.subject, "caf\u{fffd}");
    assert_eq!(parsed.from_addr, "a@b");
}

#[test]
fn header_text_keeps_first_field_and_lowers_names() {
    let parsed = parse_header_text(
        "SUBJECT: one\nsubject: two\n  more\nnot a field\n continued nothing\nDate:\nList-Id: <l.example.com>\n\nSubject: body\n",
        "id@x".to_string(),
    );
    assert_eq!(parsed.subject, "one");
    assert_eq!(parsed.date, None);
    assert_eq!(parsed.list_id.as_deref(), Some("<l.example.com>"));
    assert_eq!(parsed.message_id, "id@x");
    assert!(parsed.references.is_empty());
}

#[test]
fn in_reply_to_stands_in_for_references() {
    let parsed = parse_header_text("In-Reply-To: <p@x> <q@x>\n\n", "id@x".to_string());
    assert_eq!(parsed.in_reply_to.as_deref(), Some("p@x"));
    assert_eq!(parsed.references, vec!["p@x"]);
    let parsed = parse_header_text("References: <a@x> <a@x> <b@x>\n\n", "id@x".to_string());
    assert_eq!(parsed.references, vec!["a@x", "b@x"]);
}

#[test]
fn bare_message_ids_are_read_without_brackets() {
    let parsed = parse_header_text("Message-ID: \"bare@x\"\n\n", "id@x".to_string());
    assert_eq!(parsed.message_id, "bare@x");
    let parsed = parse_header_text("Message-ID: <>\n\n", "id@x".to_string());
    assert_eq!(parsed.message_id, "id@x");
}

#[test]
fn change_id_takes_the_first_header_even_if_blank() {
    let parsed = parse_header_text("X-Change-ID: two\nChange-ID: one\n\n", "i".to_string());
    assert_eq!(parsed.change_id.as_deref(), Some("one"));
    let parsed = parse_header_text("Change-ID:  \nX-Change-ID: two\n\n", "i".to_string());
    assert_eq!(parsed.change_id, None);
}

#[test]
fn normalized_mailboxes_are_stable() {
    for raw in ["Alice <ALICE@Example.com>", "<a@b>,", "x y@z w", "'q@r'"] {
        let once = normalize_email_address(raw).expect("mailbox");
        assert_eq!(normalize_email_address(&once), Some(once.clone()));
    }
    assert_eq!(normalize_email_address("x y@z w"), Some("y@z".to_string()));
    assert_eq!(normalize_email_address("nobody"), None);
    assert_eq!(normalize_email_address("a\"b@c"), None);
    assert_eq!(normalize_email_address(""), None);
}

#[test]
fn address_lists_hold_distinct_mailboxes() {
    assert_eq!(
        parse_address_list("A <a@x>, a@X, nobody, <b@x,c@y>, \"q, r\" <r@x>"),
        vec!["a@x", "b@x,c@y", "r@x"]
    );
}

#[test]
fn markers_do_not_change_the_subject() {
    assert_eq!(normalize_subject("RE: fWd: [x] [y] Hello "), "hello");
    assert_eq!(normalize_subject("Re:[open tag"), "[open tag");
    assert_eq!(normalize_subject("Fw: x"), "fw: x");
    for s in ["[PATCH] a", "  b ", "", "Re: c"] {
        assert_eq!(normalize_subject(&format!("Re: {s}")), normalize_subject(s));
        assert_eq!(normalize_subject(&format!("FWD:{s}")), normalize_subject(s));
    }
}

#[test]
fn trailers_are_canonical_and_quoted_lines_state_nothing() {
    let parsed = parse_header_text(
        "A: b\n\nREVIEWED-BY: x\n\t y\nreviewed-by:\nFixes: z\n> Acked-by: q\n z\n",
        "i".to_string(),
    );
    assert_eq!(parsed.trailers.len(), 1);
    assert_eq!(parsed.trailers[0].kind, "Reviewed-by");
    assert_eq!(parsed.trailers[0].value, "x y");
    let quoted = parse_header_text("A: b\n\n> Acked-by: q\n  > Tested-by: r\n", "i".to_string());
    assert!(quoted.trailers.is_empty());
}

#[test]
fn what_quoted_lines_say_does_not_matter() {
    let mail = |quoted: &str| {
        let text = format!("Subject: a\n\nAcked-by: A\n {quoted}\n b\nTested-by: T\n");
        parse_header_text(&text, "i".to_string()).trailers
    };
    assert_eq!(mail("> Reviewed-by: X"), mail("> nothing"));
    assert_eq!(mail("> nothing").len(), 2);
    assert_eq!(mail("more")[0].value, "A more b");
}

#[test]
fn bodies_do_not_change_headers() {
    for head in ["Subject: a\nFrom: b@x\n\n", "Subject: a\r\nFrom: b@x\r\n\r\n"] {
        for body in ["", "Subject: other\nDate: today\n", "\n\nTo: c@x\n"] {
            let parsed = parse_header_text(&format!("{head}{body}"), "i".to_string());
            assert_eq!(parsed.subject, "a");
            assert_eq!(parsed.from_addr, "b@x");
            assert_eq!(parsed.date, None);
            assert!(parsed.to_addresses.is_empty());
        }
    }
}
