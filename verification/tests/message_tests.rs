use rtc_core::messages::{
    encode_header, encode_manifest, encode_reply, parse_header, parse_manifest, parse_reply,
    FileDescriptor,
};

fn b(s: &str) -> Vec<u8> {
    s.as_bytes().to_vec()
}

#[test]
fn header_has_exact_canonical_bytes() {
    let bytes = encode_header(&b("A"), &b("tok"));
    assert_eq!(bytes, b(r#"{"id":"A","token":"tok"}"#));
}

#[test]
fn header_round_trips() {
    let bytes = encode_header(&b("file-7"), &b("0a1b2c"));
    let h = parse_header(&bytes).expect("own encoding must parse");
    assert_eq!(h.id, b("file-7"));
    assert_eq!(h.token, b("0a1b2c"));
}

#[test]
fn header_round_trips_with_escapes() {
    let id = vec![34u8, 92, 10, 9, 13, 8, 12, 1, 31, 65, 0xE2, 0x82, 0xAC];
    let token = b("t\"\\x");
    let bytes = encode_header(&id, &token);
    let h = parse_header(&bytes).expect("escaped encoding must parse");
    assert_eq!(h.id, id);
    assert_eq!(h.token, token);
}

#[test]
fn header_escaping_has_exact_canonical_bytes() {
    let bytes = encode_header(&vec![34u8, 92, 10, 31], &b("t"));
    assert_eq!(
        bytes,
        b("{\"id\":\"\\\"\\\\\\n\\u001f\",\"token\":\"t\"}")
    );
}

#[test]
fn header_parser_rejects_what_is_not_canonical() {
    assert!(parse_header(&b("")).is_none());
    assert!(parse_header(&b("{}")).is_none());
    assert!(parse_header(&b(r#"{"token":"t","id":"A"}"#)).is_none());
    assert!(parse_header(&b(r#"{"id":"A","token":"t"} "#)).is_none());
    assert!(parse_header(&b(r#"{"id": "A","token":"t"}"#)).is_none());
    assert!(parse_header(&b(r#"{"id":"A","token":"t","x":1}"#)).is_none());
}

#[test]
fn reply_round_trips() {
    let pairs = vec![(b("A"), b("t1")), (b("B"), b("t2"))];
    let bytes = encode_reply(&pairs);
    assert_eq!(bytes, b(r#"{"files":{"A":"t1","B":"t2"}}"#));
    let parsed = parse_reply(&bytes).expect("own encoding must parse");
    assert_eq!(parsed, pairs);
}

#[test]
fn empty_reply_round_trips() {
    let bytes = encode_reply(&Vec::new());
    assert_eq!(bytes, b(r#"{"files":{}}"#));
    let parsed = parse_reply(&bytes).expect("own encoding must parse");
    assert!(parsed.is_empty());
}

#[test]
fn reply_parser_rejects_bad_payloads() {
    assert!(parse_reply(&b("")).is_none());
    assert!(parse_reply(&b("not json")).is_none());
    assert!(parse_reply(&b(r#"{"files":[]}"#)).is_none());
    assert!(parse_reply(&b(r#"{"files":{"A":"t1"}"#)).is_none());
}

fn sample_descriptor() -> FileDescriptor {
    FileDescriptor {
        id: b("test-123-id"),
        file_name: b("test"),
        size: 100,
        file_type: b("video/mp4"),
        sha256: None,
        preview: None,
        metadata: None,
    }
}

#[test]
fn manifest_has_exact_canonical_bytes() {
    let bytes = encode_manifest(&vec![sample_descriptor()]);
    let expected = r#"{"files":[{"id":"test-123-id","fileName":"test","size":100,"fileType":"video/mp4","sha256":null,"preview":null,"metadata":null}]}"#;
    assert_eq!(bytes, b(expected));
}

#[test]
fn manifest_round_trips() {
    let files = vec![
        sample_descriptor(),
        FileDescriptor {
            id: b("B"),
            file_name: b("b\u{00e4}r.txt"),
            size: u64::MAX,
            file_type: b("text/plain"),
            sha256: Some(b("deadbeef")),
            preview: Some(vec![1u8, 2, 3]),
            metadata: Some(vec![(b("modified"), b("2021-01-01")), (b("k"), b("v"))]),
        },
    ];
    let bytes = encode_manifest(&files);
    let parsed = parse_manifest(&bytes).expect("own encoding must parse");
    assert_eq!(parsed.len(), 2);
    assert_eq!(parsed[0].id, files[0].id);
    assert_eq!(parsed[0].size, 100);
    assert_eq!(parsed[0].sha256, None);
    assert_eq!(parsed[1].file_name, files[1].file_name);
    assert_eq!(parsed[1].size, u64::MAX);
    assert_eq!(parsed[1].sha256, files[1].sha256);
    assert_eq!(parsed[1].preview, files[1].preview);
    assert_eq!(parsed[1].metadata, files[1].metadata);
}

#[test]
fn empty_manifest_round_trips() {
    let bytes = encode_manifest(&Vec::new());
    assert_eq!(bytes, b(r#"{"files":[]}"#));
    let parsed = parse_manifest(&bytes).expect("own encoding must parse");
    assert!(parsed.is_empty());
}

#[test]
fn manifest_parser_rejects_bad_payloads() {
    assert!(parse_manifest(&b("")).is_none());
    assert!(parse_manifest(&vec![0xFFu8, 0xFE]).is_none());
    assert!(parse_manifest(&b(r#"{"files":{}}"#)).is_none());
    // an oversized number must be refused, not wrapped
    let oversized = r#"{"files":[{"id":"A","fileName":"a","size":18446744073709551616,"fileType":"t","sha256":null,"preview":null,"metadata":null}]}"#;
    assert!(parse_manifest(&b(oversized)).is_none());
    // a leading zero is not canonical
    let leading_zero = r#"{"files":[{"id":"A","fileName":"a","size":007,"fileType":"t","sha256":null,"preview":null,"metadata":null}]}"#;
    assert!(parse_manifest(&b(leading_zero)).is_none());
}
