use git_vanity::git::{ensure_repo, has_nonce_header, log_entries, text_lines_of};

#[test]
fn ensure_repo_decisions() {
    assert!(ensure_repo(true, true).is_ok());
    assert_eq!(ensure_repo(false, true).unwrap_err(), "not a git repository");
    assert_eq!(ensure_repo(false, false).unwrap_err(), "not a git repository");
    assert_eq!(ensure_repo(true, false).unwrap_err(), "no HEAD commit (empty repository?)");
}

#[test]
fn nonce_header_detection() {
    assert!(has_nonce_header("tree a\nx-nonce \u{fffd}\n\nmsg\n"));
    assert!(!has_nonce_header("tree a\nauthor x\n\nmsg\n"));
    assert!(!has_nonce_header("tree a\n x-nonce indented\n\nmsg"));
    assert!(!has_nonce_header("x-noncefoo\n"));
    assert!(has_nonce_header("x-nonce "));
    assert!(has_nonce_header("tree a\r\nx-nonce \r\n"));
    assert!(!has_nonce_header(""));
}

#[test]
fn lines_like_str_lines() {
    for text in ["a\nb", "a\nb\n", "", "\n", "a\r\nb\r\n", "x\r", "\n\nz", "one"] {
        let chars: Vec<char> = text.chars().collect();
        let got: Vec<String> = text_lines_of(&chars).iter().map(|l| l.iter().collect()).collect();
        let want: Vec<String> = text.lines().map(|l| l.to_string()).collect();
        assert_eq!(got, want, "lines of {:?}", text);
    }
}

#[test]
fn log_entries_pair_lines() {
    let r = log_entries("h1\nh2\nh3", "s1\ns2");
    assert_eq!(r, vec![("h1".to_string(), "s1".to_string()), ("h2".to_string(), "s2".to_string())]);
    assert!(log_entries("", "s").is_empty());
    let r = log_entries("abc\n", "first subject\n");
    assert_eq!(r, vec![("abc".to_string(), "first subject".to_string())]);
}
