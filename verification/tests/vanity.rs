use git_vanity::vanity::{accepts_answer, subcommand, Subcommand};
use git_vanity::commit::CommitObject;
use git_vanity::display::AppError;
use git_vanity::preset::presets;
use git_vanity::vanity::{
    content_without_nonce, first_message_line, leading_pairs, matching_presets, normalize_message,
    random_preset, resolve_pattern,
};

#[test]
fn first_message_line_cases() {
    assert_eq!(first_message_line("tree a\n\nSubject\nbody\n"), "Subject");
    assert_eq!(first_message_line("tree a\n\nSubject\r\nbody\n"), "Subject");
    assert_eq!(first_message_line("tree a\n\nOnly line"), "Only line");
    assert_eq!(first_message_line("tree a\n\n"), "");
    assert_eq!(first_message_line("tree a\nno blank line"), "");
    assert_eq!(first_message_line("tree a\n\n\nafter empty"), "");
}

#[test]
fn leading_pairs_counts_run() {
    assert_eq!(leading_pairs("0000123"), 3);
    assert_eq!(leading_pairs("0123"), 0);
    assert_eq!(leading_pairs("aa"), 1);
    assert_eq!(leading_pairs(""), 0);
    assert_eq!(leading_pairs("7"), 0);
}

#[test]
fn matching_presets_in_list_order() {
    let names: Vec<&str> = matching_presets("cafebabe00000000000000000000000000dead0a")
        .iter()
        .map(|p| p.name)
        .collect();
    assert_eq!(names, vec!["babe", "cafe", "dead"]);
    assert!(matching_presets("0123456789012345678901234567890123456789").is_empty());
}

#[test]
fn content_without_nonce_rebuilds_plain_commit() {
    let raw = "tree abc\nauthor A <a@b> 1 +0\ncommitter B <b@c> 1 +0\nx-nonce \u{fffd}\u{fffd}\n\nMsg\n";
    let commit = CommitObject::parse(raw).unwrap();
    assert_eq!(
        content_without_nonce(&commit),
        b"tree abc\nauthor A <a@b> 1 +0\ncommitter B <b@c> 1 +0\n\nMsg\n".to_vec()
    );
}

#[test]
fn normalize_message_adds_newline_once() {
    assert_eq!(normalize_message("custom message"), "custom message\n");
    assert_eq!(normalize_message("msg with newline\n"), "msg with newline\n");
    assert_eq!(normalize_message(""), "\n");
}

#[test]
fn resolve_pattern_cases() {
    assert_eq!(resolve_pattern(Some("coffee"), Some("cafe")).unwrap(), "c0ffee");
    assert_eq!(resolve_pattern(Some("DEAD"), None).unwrap(), "dead");
    assert_eq!(resolve_pattern(None, Some("beef")).unwrap(), "beef");
    match resolve_pattern(Some("banana"), Some("cafe")) {
        Err(AppError::Args(m)) => {
            assert_eq!(m, "Unknown preset 'banana'. Use --list-presets to see available options.")
        },
        _ => panic!("expected an argument error"),
    }
    match resolve_pattern(None, None) {
        Err(AppError::Args(m)) => {
            assert_eq!(m, "No pattern specified. Use a hex pattern, --preset (-p), or --random (-r).")
        },
        _ => panic!("expected an argument error"),
    }
}

#[test]
fn random_preset_wraps_around() {
    let ps = presets();
    assert_eq!(random_preset(0).name, ps[0].name);
    assert_eq!(random_preset(26).name, "effaced");
    assert_eq!(random_preset(27).name, "ace");
    assert_eq!(random_preset(27 * 5 + 11).name, "cafe");
    assert_eq!(random_preset(usize::MAX).name, ps[usize::MAX % 27].name);
}

#[test]
fn subcommands_and_answers() {
    assert_eq!(subcommand(Some("show")), Some(Subcommand::Show));
    assert_eq!(subcommand(Some("log")), Some(Subcommand::Log));
    assert_eq!(subcommand(Some("undo")), Some(Subcommand::Undo));
    assert_eq!(subcommand(Some("Show")), None);
    assert_eq!(subcommand(Some("cafe")), None);
    assert_eq!(subcommand(None), None);
    assert!(accepts_answer(""));
    assert!(accepts_answer("y"));
    assert!(accepts_answer("YES"));
    assert!(accepts_answer("Yes"));
    assert!(!accepts_answer("n"));
    assert!(!accepts_answer("yep"));
}
