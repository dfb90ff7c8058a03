use git_dumper::parsing::{
    object_kind, parse_commit_text, parse_hash, parse_head, parse_log, parse_object,
    parse_tree_body, slice_to_hex, split_object_at_zero, FormatError, GitObject, ObjectKind,
};
use miniz_oxide::deflate::compress_to_vec_zlib;

fn raw(hex: &str) -> Vec<u8> {
    (0..hex.len() / 2)
        .map(|i| u8::from_str_radix(&hex[2 * i..2 * i + 2], 16).unwrap())
        .collect()
}

fn object(kind: &str, body: &[u8]) -> Vec<u8> {
    let mut payload = format!("{} {}\0", kind, body.len()).into_bytes();
    payload.extend_from_slice(body);
    compress_to_vec_zlib(&payload, 6)
}

fn tree_fixture() -> Vec<u8> {
    let mut body = Vec::new();
    for (name, hash) in [
        ("100644 README.md", "93748a31e8df89b80ab5ebe4ad19ea62899a28fa"),
        ("40000 src", "920512d27e4df0c79ca4a929bc5d4254b3d05c4c"),
        ("100644 Cargo.toml", "f5463e0d810357c84bdb956dcfe70b8015d6fb24"),
    ] {
        body.extend_from_slice(name.as_bytes());
        body.push(0);
        body.extend_from_slice(&raw(hash));
    }
    object("tree", &body)
}

fn commit_fixture() -> Vec<u8> {
    let text = "tree faf660b3b793f359495ad23ea2c449da6b3b64a0\n\
                parent 1712bc7d3a0e6cf9920541e616310bd30f431728\n\
                author A U Thor <a@example.com> 1700000000 +0100\n\
                committer A U Thor <a@example.com> 1700000000 +0100\n\
                \n\
                Second commit\n\
                parent 0123456789abcdef0123456789abcdef01234567\n";
    object("commit", text.as_bytes())
}

#[test]
fn parse_commit_blob() {
    let bytes = object("blob", b"hello world\n");
    let parsed = parse_object(&bytes).unwrap();
    assert!(matches!(parsed, GitObject::Blob));
}

#[test]
fn parse_tree_object() {
    let bytes = tree_fixture();
    let parsed = parse_object(&bytes).unwrap();
    assert!(matches!(parsed, GitObject::Tree(_)));

    if let GitObject::Tree(vec) = parsed {
        assert_eq!(
            vec,
            vec![
                "93748a31e8df89b80ab5ebe4ad19ea62899a28fa".to_string(),
                "920512d27e4df0c79ca4a929bc5d4254b3d05c4c".to_string(),
                "f5463e0d810357c84bdb956dcfe70b8015d6fb24".to_string(),
            ]
        );
    }
}

#[test]
fn parse_commit_object() {
    let bytes = commit_fixture();
    let parsed = parse_object(&bytes).unwrap();
    assert!(matches!(parsed, GitObject::Commit(_)));

    if let GitObject::Commit(vec) = parsed {
        assert_eq!(
            vec,
            vec![
                "faf660b3b793f359495ad23ea2c449da6b3b64a0".to_string(),
                "1712bc7d3a0e6cf9920541e616310bd30f431728".to_string(),
            ]
        );
    }
}

#[test]
fn head_accepts_branch_ref() {
    assert_eq!(parse_head(b"ref: refs/heads/main\n"), Ok("refs/heads/main".to_string()));
    assert_eq!(parse_head(b"ref: refs/heads/feature/x \r\n"), Ok("refs/heads/feature/x".to_string()));
}

#[test]
fn head_rejects_bad_input() {
    assert_eq!(parse_head(&[0xff, 0xfe, 0x00]), Err(FormatError::InvalidEncoding));
    assert_eq!(parse_head(b"refs/heads/main\n"), Err(FormatError::UnexpectedShape));
    assert_eq!(parse_head(b"ref: refs/tags/v1\n"), Err(FormatError::UnexpectedShape));
    assert_eq!(parse_head(b"ref: refs/heads/\n"), Err(FormatError::UnexpectedShape));
    assert_eq!(parse_head(b"ref: refs/heads/a b\n"), Err(FormatError::UnexpectedShape));
    assert_eq!(parse_head(b"ref: refs/heads/../../etc\n"), Err(FormatError::PathTraversal));
    assert_eq!(parse_head(b"ref: refs/heads/x\\..\n"), Err(FormatError::PathTraversal));
    assert_eq!(parse_head(b"ref: refs/heads/..x\n"), Ok("refs/heads/..x".to_string()));
}

#[test]
fn hash_accepts_exactly_forty_hex() {
    let h = "0123456789abcdef0123456789abcdef01234567";
    assert_eq!(parse_hash(h.as_bytes()), Ok(h.to_string()));
    assert_eq!(parse_hash(format!("{}\n  ", h).as_bytes()), Ok(h.to_string()));
    assert_eq!(parse_hash(&h.as_bytes()[..39]), Err(FormatError::UnexpectedShape));
    assert_eq!(parse_hash(format!("{}0", h).as_bytes()), Err(FormatError::UnexpectedShape));
    assert_eq!(
        parse_hash("0123456789ABCDEF0123456789abcdef01234567".as_bytes()),
        Err(FormatError::UnexpectedShape)
    );
    assert_eq!(
        parse_hash("g123456789abcdef0123456789abcdef01234567".as_bytes()),
        Err(FormatError::UnexpectedShape)
    );
    assert_eq!(parse_hash(&[0xc3, 0x28]), Err(FormatError::InvalidEncoding));
}

#[test]
fn log_collects_non_zero_hashes() {
    let a = "a".repeat(39) + "0";
    let b = "b".repeat(39) + "1";
    let f = "f".repeat(40);
    let z = "0".repeat(40);
    let text = format!("{a} {b} user 123\n{f} {z} user 456\n");
    let mut got = parse_log(text.as_bytes()).unwrap();
    got.sort();
    // the old-hash field of the first line is well formed and not zero, so
    // it is a lead as well; only the all-zero field is left out
    assert_eq!(got, vec![a.clone(), b.clone(), f.clone()]);
}

#[test]
fn log_skips_malformed_lines_and_repeats() {
    let a = "a".repeat(40);
    let b = "b".repeat(40);
    let text = format!("garbage\n{a} {b}\n{a} {b} x\n{b} {a} y\nshort {a} z\n");
    assert_eq!(parse_log(text.as_bytes()).unwrap(), vec![a.clone(), b.clone()]);
    assert_eq!(parse_log(b"").unwrap(), Vec::<String>::new());
}

#[test]
fn commit_text_stops_at_blank_line() {
    let text = "tree 1111111111111111111111111111111111111111\r\n\
                parent 2222222222222222222222222222222222222222\n\
                parentless line\n\
                \n\
                parent 3333333333333333333333333333333333333333\n";
    assert_eq!(
        parse_commit_text(text),
        vec![
            "1111111111111111111111111111111111111111".to_string(),
            "2222222222222222222222222222222222222222".to_string(),
        ]
    );
    assert_eq!(parse_commit_text(""), Vec::<String>::new());
}

#[test]
fn tree_body_gives_entry_hashes() {
    let mut body = b"100644 a\0".to_vec();
    body.extend_from_slice(&raw("00112233445566778899aabbccddeeff00112233"));
    body.extend_from_slice(b"100644 b\0");
    body.extend_from_slice(&[0xab, 0xcd]);
    assert_eq!(
        parse_tree_body(&body),
        vec!["00112233445566778899aabbccddeeff00112233".to_string(), "abcd".to_string()]
    );
    assert_eq!(parse_tree_body(&[]), Vec::<String>::new());
}

#[test]
fn hex_of_bytes() {
    assert_eq!(slice_to_hex(&[0x00, 0x0f, 0xa0, 0xff]), "000fa0ff");
    assert_eq!(slice_to_hex(&[]), "");
}

#[test]
fn split_after_header() {
    assert_eq!(split_object_at_zero(b"tree 3\0abc"), Ok(&b"abc"[..]));
    assert_eq!(split_object_at_zero(b"tree 3 abc"), Err(FormatError::MalformedObject));
}

#[test]
fn kind_from_header() {
    assert_eq!(object_kind(b"blob 1"), Some(ObjectKind::Blob));
    assert_eq!(object_kind(b"tree 1"), Some(ObjectKind::Tree));
    assert_eq!(object_kind(b"commit"), Some(ObjectKind::Commit));
    assert_eq!(object_kind(b"tag 12"), None);
}

#[test]
fn object_errors() {
    assert!(matches!(parse_object(b"not zlib at all"), Err(FormatError::DecompressionFailure)));
    assert!(matches!(parse_object(&[]), Err(FormatError::DecompressionFailure)));
    let no_nul = compress_to_vec_zlib(b"tree 40 without a terminator", 6);
    assert!(matches!(parse_object(&no_nul), Err(FormatError::MalformedObject)));
    let tag = object("tag", b"object abc\n");
    assert!(matches!(parse_object(&tag), Err(FormatError::UnrecognizedType)));
}
