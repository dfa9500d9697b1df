use git_vanity::commit::CommitObject;
use git_vanity::vanity::content_without_nonce;

#[test]
fn test_parse_simple_commit() {
    let raw = "tree abc123\nparent def456\nauthor A <a@b> 1000 +0000\ncommitter B <b@c> 1000 +0000\n\nHello world\n";
    let commit = CommitObject::parse(raw).unwrap();
    assert_eq!(commit.header_lines.len(), 4);
    assert_eq!(commit.message, "Hello world\n");
    assert!(!commit.had_signature);
}

#[test]
fn test_parse_with_signature() {
    let raw = "tree abc\nauthor A <a@b> 1 +0\ncommitter B <b@c> 1 +0\ngpgsig -----BEGIN PGP SIGNATURE-----\n abc\n -----END PGP SIGNATURE-----\n\nMsg\n";
    let commit = CommitObject::parse(raw).unwrap();
    assert!(commit.had_signature);
    // gpgsig lines should be stripped
    assert!(commit.header_lines.iter().all(|l| !l.starts_with("gpgsig")));
}

#[test]
fn test_build_with_nonce() {
    let raw = "tree abc\nauthor A <a@b> 1 +0\ncommitter B <b@c> 1 +0\n\nMsg\n";
    let commit = CommitObject::parse(raw).unwrap();
    let nonce = vec![0x80, 0x81, 0x82];
    let content = commit.build_with_nonce(&nonce);
    let content_str = String::from_utf8_lossy(&content);
    assert!(content_str.contains("x-nonce "));
    assert!(content_str.contains("Msg"));
}

#[test]
fn parse_without_blank_line_is_refused() {
    let raw = "tree abc\nauthor A <a@b> 1 +0\nno message here";
    let err = CommitObject::parse(raw).unwrap_err();
    assert_eq!(err, "Invalid commit object: no blank line separating header and message");
}

#[test]
fn parse_keeps_header_lines_in_order() {
    let raw = "tree t\nparent p1\nparent p2\nauthor A <a@b> 1 +0\ncommitter B <b@c> 1 +0\nencoding latin1\n\nsubject\n\nbody\n";
    let commit = CommitObject::parse(raw).unwrap();
    assert_eq!(
        commit.header_lines,
        vec![
            "tree t".to_string(),
            "parent p1".to_string(),
            "parent p2".to_string(),
            "author A <a@b> 1 +0".to_string(),
            "committer B <b@c> 1 +0".to_string(),
            "encoding latin1".to_string(),
        ]
    );
    assert_eq!(commit.message, "subject\n\nbody\n");
}

#[test]
fn parse_drops_signature_continuations_and_nonce() {
    let raw = "tree abc\nauthor A <a@b> 1 +0\ncommitter B <b@c> 1 +0\ngpgsig -----BEGIN-----\n line one\n -----END-----\nx-nonce \u{fffd}\u{fffd}\n\nMsg\n";
    let commit = CommitObject::parse(raw).unwrap();
    assert_eq!(commit.header_lines.len(), 3);
    assert_eq!(commit.header_lines[2], "committer B <b@c> 1 +0");
    assert!(commit.had_signature);
    assert_eq!(commit.message, "Msg\n");
}

#[test]
fn build_with_nonce_exact_bytes() {
    let raw = "tree abc\nauthor A <a@b> 1 +0\n\nMsg\n";
    let commit = CommitObject::parse(raw).unwrap();
    let content = commit.build_with_nonce(&[0x80, 0xff]);
    let mut expected: Vec<u8> = b"tree abc\nauthor A <a@b> 1 +0\nx-nonce ".to_vec();
    expected.extend_from_slice(&[0x80, 0xff]);
    expected.extend_from_slice(b"\n\nMsg\n");
    assert_eq!(content, expected);
}

#[test]
fn nonce_rewrite_parses_back_to_same_commit() {
    let raw = "tree abc\nparent def\nauthor A <a@b> 1 +0\ncommitter B <b@c> 1 +0\n\nSubject line\n\nBody text\n";
    let commit = CommitObject::parse(raw).unwrap();
    let content = commit.build_with_nonce(&[0x80, 0x91, 0xa2, 0xb3, 0xc4, 0xd5, 0xe6, 0xf7, 0x88, 0x99]);
    let reread = String::from_utf8_lossy(&content).into_owned();
    let again = CommitObject::parse(&reread).unwrap();
    assert_eq!(again.header_lines, commit.header_lines);
    assert_eq!(again.message, commit.message);
    assert!(!again.had_signature);
}

#[test]
fn undo_restores_plain_commit_bytes() {
    let raw = "tree abc\nparent def\nauthor A <a@b> 1 +0\ncommitter B <b@c> 1 +0\n\nSubject line\n";
    let commit = CommitObject::parse(raw).unwrap();
    let content = commit.build_with_nonce(&[0x81, 0x82, 0x83]);
    let reread = String::from_utf8_lossy(&content).into_owned();
    let rewritten = CommitObject::parse(&reread).unwrap();
    assert_eq!(content_without_nonce(&rewritten), raw.as_bytes().to_vec());
}
