use body_filter::redact::{mask_matches, redact_body, redact_text, redact_with_matches, Span};

#[test]
fn masks_each_part_keeping_its_length() {
    let out = redact_body(b"a.b@example.co").expect("changed");
    assert_eq!(out, b"***@*******.**".to_vec());
}

#[test]
fn masks_every_token_and_keeps_the_rest() {
    let out = redact_body(b"mail john.doe@corp.example.org or x@y.io now").expect("changed");
    assert_eq!(out, b"mail ********@************.*** or *@*.** now".to_vec());
}

#[test]
fn body_without_tokens_is_unchanged() {
    assert_eq!(redact_body(b"no addresses here, just @ and . signs"), None);
    assert_eq!(redact_body(b""), None);
}

#[test]
fn short_top_level_domain_is_not_a_token() {
    assert_eq!(redact_body(b"user@host.c"), None);
}

#[test]
fn redacting_twice_changes_nothing_more() {
    let once = redact_body(b"to: alice@mail.example.com, bob+x@a-b.de").expect("changed");
    assert_eq!(redact_body(&once), None);
    assert_eq!(redact_text(&once), None);
}

#[test]
fn ascii_body_without_tokens_passes_byte_identical() {
    let body = b"GET /index.html plain ascii 123".to_vec();
    assert_eq!(redact_body(&body), None);
}

#[test]
fn invalid_utf8_is_normalized_to_valid_text() {
    let body = vec![0xff, b' ', b'a', b'@', b'b', b'.', b'c', b'd', b' ', 0xc3];
    let out = redact_body(&body).expect("changed");
    let text = std::str::from_utf8(&out).expect("valid UTF-8");
    assert_eq!(text, "\u{FFFD} *@*.** \u{FFFD}");
}

#[test]
fn multibyte_text_around_tokens_is_kept() {
    let body = "caf\u{e9} z\u{fc}rich x@y.org".as_bytes().to_vec();
    let out = redact_body(&body).expect("changed");
    assert_eq!(out, "caf\u{e9} z\u{fc}rich *@*.***".as_bytes().to_vec());
}

#[test]
fn mask_keeps_at_and_separator() {
    let t = b"xx ab@cd.ef yy".to_vec();
    let spans: Vec<Span> = vec![(3, 5, 8, 11)];
    assert_eq!(mask_matches(&t, &spans), b"xx **@**.** yy".to_vec());
}

#[test]
fn no_spans_means_no_change() {
    let t = b"anything".to_vec();
    assert_eq!(mask_matches(&t, &Vec::new()), t);
    assert_eq!(redact_with_matches(&t, &Vec::new()), None);
}

#[test]
fn redaction_with_given_spans() {
    let t = b"q@r.st".to_vec();
    let spans: Vec<Span> = vec![(0, 1, 3, 6)];
    assert_eq!(redact_with_matches(&t, &spans), Some(b"*@*.**".to_vec()));
}

#[test]
fn valid_multibyte_body_without_tokens_is_unchanged() {
    assert_eq!(redact_body("gr\u{fc}\u{df}e \u{1F600} @ home.".as_bytes()), None);
}

#[test]
fn lone_invalid_byte_is_replaced() {
    let out = redact_body(&[0x80, b'k', b'@', b'l', b'.', b'm', b'n']).expect("changed");
    assert_eq!(out, "\u{FFFD}*@*.**".as_bytes().to_vec());
}
