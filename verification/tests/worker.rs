use git_vanity::worker::{next_batch_len, CommitSearch};
use git_vanity::commit::CommitObject;
use git_vanity::hasher::{hash_git_object, IncrementalHasher};
use git_vanity::nonce::{generate_nonce, nonce_len};
use git_vanity::pattern::{MatchPosition, Pattern};
use git_vanity::worker::{
    assemble_content, build_commit_parts, no_match_message, scan_batch, search_result, should_stop, WorkerConfig,
};

fn sample() -> CommitObject {
    CommitObject::parse("tree abc\nauthor A <a@b> 1 +0\ncommitter B <b@c> 1 +0\n\nMsg\n").unwrap()
}

#[test]
fn commit_parts_surround_the_nonce() {
    let (prefix, suffix) = build_commit_parts(&sample());
    assert_eq!(prefix, b"tree abc\nauthor A <a@b> 1 +0\ncommitter B <b@c> 1 +0\nx-nonce ".to_vec());
    assert_eq!(suffix, b"\n\nMsg\n".to_vec());
    let nonce = generate_nonce(7, 3);
    assert_eq!(assemble_content(&prefix, &nonce, &suffix), sample().build_with_nonce(&nonce));
}

#[test]
fn should_stop_cases() {
    assert!(should_stop(true, 0, None));
    assert!(!should_stop(false, 10, None));
    assert!(should_stop(false, 10, Some(10)));
    assert!(!should_stop(false, 9, Some(10)));
}

#[test]
fn scan_batch_finds_first_match() {
    let (prefix, suffix) = build_commit_parts(&sample());
    let hasher = IncrementalHasher::new(&prefix, &suffix, nonce_len());
    let pattern = Pattern::parse("0", false).unwrap();
    let found = scan_batch(&hasher, &pattern, MatchPosition::Start, 2, 0, 10_000);
    let (counter, nonce, hash) = found.expect("a hash starting with 0 within 10000 tries");
    assert_eq!(nonce, generate_nonce(counter, 2));
    let content = assemble_content(&prefix, &nonce, &suffix);
    let mut object = format!("commit {}\0", content.len()).into_bytes();
    object.extend_from_slice(&content);
    assert_eq!(hash_git_object(&object), hash);
    assert_eq!(hex::encode(hash).chars().next(), Some('0'));
    for k in 0..counter {
        let h = hasher.hash_with_nonce(&generate_nonce(k, 2));
        assert!(!pattern.matches_raw(&h, MatchPosition::Start));
    }
    let result = search_result(content.clone(), &hash, counter + 1);
    assert_eq!(result.hash_hex, hex::encode(hash));
    assert_eq!(result.content, content);
    assert_eq!(result.total_attempts, counter + 1);
}

#[test]
fn scan_batch_empty_range_finds_nothing() {
    let (prefix, suffix) = build_commit_parts(&sample());
    let hasher = IncrementalHasher::new(&prefix, &suffix, nonce_len());
    let pattern = Pattern::parse("0", false).unwrap();
    assert!(scan_batch(&hasher, &pattern, MatchPosition::Start, 0, 5, 0).is_none());
    let impossible = Pattern::parse("/^g/", false).unwrap();
    assert!(scan_batch(&hasher, &impossible, MatchPosition::Start, 0, 0, 200).is_none());
}

#[test]
fn worker_config_holds_values() {
    let c = WorkerConfig { threads: 4, max_attempts: Some(100), timeout_ms: 30000, position: MatchPosition::End };
    assert_eq!(c.threads, 4);
    assert_eq!(c.max_attempts, Some(100));
    assert_eq!(c.timeout_ms, 30000);
    assert_eq!(c.position, MatchPosition::End);
}

#[test]
fn no_match_message_text() {
    assert_eq!(no_match_message(0), "No match found after 0 attempts (timeout or max-attempts reached)");
    assert_eq!(no_match_message(65536), "No match found after 65536 attempts (timeout or max-attempts reached)");
}

#[test]
fn commit_search_finds_content_with_one_nonce_line() {
    let commit = sample();
    let search = CommitSearch::new(&commit).unwrap();
    let pattern = Pattern::parse("00", false).unwrap();
    let (counter, content, hash) = search
        .scan(&pattern, MatchPosition::Start, 1, 0, 100_000)
        .expect("a hash starting with 00 within 100000 tries");
    assert_eq!(content, commit.build_with_nonce(&generate_nonce(counter, 1)));
    let mut object = format!("commit {}\0", content.len()).into_bytes();
    object.extend_from_slice(&content);
    assert_eq!(hash_git_object(&object), hash);
    assert!(hex::encode(hash).starts_with("00"));
    assert!(search.scan(&pattern, MatchPosition::Start, 1, 0, counter).is_none());

    assert_eq!(next_batch_len(0, None, 65536), 65536);
    assert_eq!(next_batch_len(0, Some(100), 65536), 100);
    assert_eq!(next_batch_len(65536, Some(70000), 65536), 70000 - 65536);
    assert_eq!(next_batch_len(70000, Some(70000), 65536), 0);
    assert_eq!(next_batch_len(5, Some(1_000_000), 65536), 65536);
}

#[test]
fn batches_never_pass_the_maximum() {
    let m = 150_000u64;
    let mut total = 0u64;
    let mut sizes = Vec::new();
    loop {
        let n = next_batch_len(total, Some(m), 65536);
        if n == 0 {
            break;
        }
        sizes.push(n);
        total += n;
    }
    assert_eq!(sizes, vec![65536, 65536, 150_000 - 131072]);
    assert_eq!(total, m);
}
