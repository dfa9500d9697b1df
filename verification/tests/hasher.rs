use git_vanity::hasher::{git_object_header_of, hash_git_object, IncrementalHasher};

#[test]
fn test_hash_known_value() {
    // Empty blob for reference
    let object = b"blob 0\0";
    let hash = hash_git_object(object);
    let hex = hex::encode(hash);
    assert_eq!(hex, "e69de29bb2d1d6434b8b29ae775ad8c2e48c5391");
}

#[test]
fn test_incremental_matches_full() {
    let prefix = b"tree abc\nauthor A <a@b> 1 +0\ncommitter B <b@c> 1 +0\nx-nonce ";
    let nonce = [0x80u8, 0x81, 0x82, 0x83, 0x84, 0x85, 0x86, 0x87, 0x88, 0x89];
    let suffix = b"\n\nMsg\n";

    // Full object hash
    let total_content_len = prefix.len() + nonce.len() + suffix.len();
    let git_header = format!("commit {}\0", total_content_len);
    let mut full = Vec::new();
    full.extend_from_slice(git_header.as_bytes());
    full.extend_from_slice(prefix);
    full.extend_from_slice(&nonce);
    full.extend_from_slice(suffix);
    let expected = hash_git_object(&full);

    // Incremental hash
    let inc = IncrementalHasher::new(prefix, suffix, nonce.len());
    let actual = inc.hash_with_nonce(&nonce);

    assert_eq!(expected, actual);
}

#[test]
fn object_header_is_commit_length_nul() {
    assert_eq!(git_object_header_of(0), b"commit 0\0".to_vec());
    assert_eq!(git_object_header_of(1234), b"commit 1234\0".to_vec());
}

#[test]
fn hash_of_known_string() {
    // SHA-1 of "abc"
    assert_eq!(hex::encode(hash_git_object(b"abc")), "a9993e364706816aba3e25717850c26c9cd0d89d");
}

#[test]
fn incremental_hasher_reusable_and_clone_agrees() {
    let prefix = b"tree t\nx-nonce ";
    let suffix = b"\n\nm\n";
    let inc = IncrementalHasher::new(prefix, suffix, 2);
    let a1 = inc.hash_with_nonce(&[0x80, 0x80]);
    let b = inc.hash_with_nonce(&[0x80, 0x81]);
    let a2 = inc.clone().hash_with_nonce(&[0x80, 0x80]);
    assert_eq!(a1, a2);
    assert_ne!(a1, b);
    let mut full = format!("commit {}\0", prefix.len() + 2 + suffix.len()).into_bytes();
    full.extend_from_slice(prefix);
    full.extend_from_slice(&[0x80, 0x81]);
    full.extend_from_slice(suffix);
    assert_eq!(hash_git_object(&full), b);
}
