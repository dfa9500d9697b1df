use git_vanity::pattern::{MatchPosition, Pattern};

#[test]
fn test_prefix_parse() {
    let p = Pattern::parse("cafe", false).unwrap();
    assert!(matches!(p, Pattern::Prefix(_)));
}

#[test]
fn test_repeat_parse() {
    let p = Pattern::parse("repeat:3", false).unwrap();
    assert!(matches!(p, Pattern::Repeat(3)));
}

#[test]
fn test_pair_parse() {
    let p = Pattern::parse("xx", false).unwrap();
    assert!(matches!(p, Pattern::Pair));
}

#[test]
fn test_prefix_match_start() {
    let p = Pattern::parse("00", false).unwrap();
    let mut hash = [0u8; 20];
    hash[0] = 0x00;
    assert!(p.matches_raw(&hash, MatchPosition::Start));

    hash[0] = 0x01;
    assert!(!p.matches_raw(&hash, MatchPosition::Start));
}

#[test]
fn test_prefix_match_end() {
    let p = Pattern::parse("ff", false).unwrap();
    let mut hash = [0u8; 20];
    hash[19] = 0xFF;
    assert!(p.matches_raw(&hash, MatchPosition::End));

    hash[19] = 0x00;
    assert!(!p.matches_raw(&hash, MatchPosition::End));
}

#[test]
fn test_prefix_match_contains() {
    let p = Pattern::parse("ab", false).unwrap();
    let mut hash = [0u8; 20];
    // Put "ab" in the middle
    hash[5] = 0xab;
    assert!(p.matches_raw(&hash, MatchPosition::Contains));

    // Also matches at start
    hash = [0u8; 20];
    hash[0] = 0xab;
    assert!(p.matches_raw(&hash, MatchPosition::Contains));
}

#[test]
fn test_pair_match() {
    let p = Pattern::parse("xx", false).unwrap();
    let mut hash = [0u8; 20];
    assert!(p.matches_raw(&hash, MatchPosition::Start));

    hash = [0x12, 0x34, 0x56, 0x78, 0x9a, 0xbc, 0xde, 0xf0, 0x12, 0x34, 0x56, 0x78, 0x9a, 0xbc, 0xde, 0xf0, 0x12, 0x34, 0x56, 0x78];
    assert!(!p.matches_raw(&hash, MatchPosition::Start));
}

#[test]
fn test_structured_odd_prefix() {
    let p = Pattern::parse("99999x", false).unwrap();
    assert!(matches!(p, Pattern::Structured { .. }));
    assert_eq!(p.describe(), "structured(\"99999\"+1x)");
}

#[test]
fn test_invalid_pattern() {
    assert!(Pattern::parse("xyz", false).is_err());
}

#[test]
fn test_repeat_count_too_small() {
    assert!(Pattern::parse("repeat:1", false).is_err());
    assert!(Pattern::parse("repeat:0", false).is_err());
}

#[test]
fn test_repeat_invalid_number() {
    assert!(Pattern::parse("repeat:abc", false).is_err());
}

#[test]
fn test_repeat_match() {
    let p = Pattern::parse("repeat:3", false).unwrap();
    let hash = [0x11; 20];
    assert!(p.matches_raw(&hash, MatchPosition::Start));

    let hash2 = [0x12, 0x34, 0x56, 0x78, 0x9a, 0xbc, 0xde, 0xf0, 0x12, 0x34,
            0x56, 0x78, 0x9a, 0xbc, 0xde, 0xf0, 0x12, 0x34, 0x56, 0x78];
    assert!(!p.matches_raw(&hash2, MatchPosition::Start));
}

#[test]
fn test_regex_match() {
    let p = Pattern::parse("/^dead/", false).unwrap();
    let mut hash = [0u8; 20];
    hash[0] = 0xde;
    hash[1] = 0xad;
    assert!(p.matches_raw(&hash, MatchPosition::Start));

    hash[0] = 0x00;
    assert!(!p.matches_raw(&hash, MatchPosition::Start));
}

#[test]
fn test_structured_match() {
    let p = Pattern::parse("aaxxx", false).unwrap();
    let mut hash = [0u8; 20];
    hash[0] = 0xaa;
    hash[1] = 0x11;
    hash[2] = 0x10;
    assert!(p.matches_raw(&hash, MatchPosition::Start));

    hash[0] = 0xbb;
    assert!(!p.matches_raw(&hash, MatchPosition::Start));
}

#[test]
fn test_structured_match_end() {
    let p = Pattern::parse("aax", false).unwrap();
    let mut hash = [0u8; 20];
    hash[18] = 0xaa;
    hash[19] = 0x50;
    // nibbles 37=a, 38=a, 39=X (X=any identical, just 1 so always matches)
    hash[18] = 0x0a; // nibble 36=0, 37=a
    hash[19] = 0xa0; // nibble 38=a, 39=0
    assert!(p.matches_raw(&hash, MatchPosition::End));
}

#[test]
fn test_structured_match_contains() {
    let p = Pattern::parse("aax", false).unwrap();
    let mut hash = [0u8; 20];
    hash[5] = 0xaa;
    hash[6] = 0x30; // nibbles: ...,a,a,3,0,...
    assert!(p.matches_raw(&hash, MatchPosition::Contains));
}

#[test]
fn test_display_all_variants() {
    assert_eq!(Pattern::parse("cafe", false).unwrap().describe(), "prefix(\"cafe\")");
    assert_eq!(Pattern::parse("repeat:3", false).unwrap().describe(), "repeat(3)");
    assert_eq!(Pattern::parse("xx", false).unwrap().describe(), "pair");
    assert!(Pattern::parse("/^dead/", false).unwrap().describe().contains("regex"));
    assert!(Pattern::parse("aaxxx", false).unwrap().describe().contains("structured"));
}

#[test]
fn test_estimated_attempts_all() {
    assert_eq!(Pattern::parse("cafe", false).unwrap().estimated_attempts(MatchPosition::Start), 65536);
    assert_eq!(Pattern::parse("repeat:3", false).unwrap().estimated_attempts(MatchPosition::Start), 256);
    assert_eq!(Pattern::parse("xx", false).unwrap().estimated_attempts(MatchPosition::Start), 16);
    assert_eq!(Pattern::parse("/^dead/", false).unwrap().estimated_attempts(MatchPosition::Start), 1_000_000);
    assert!(Pattern::parse("aaxxx", false).unwrap().estimated_attempts(MatchPosition::Start) > 0);
}

#[test]
fn test_estimated_contains_easier() {
    let p = Pattern::parse("cafe", false).unwrap();
    assert!(p.estimated_attempts(MatchPosition::Contains) < p.estimated_attempts(MatchPosition::Start));
}

#[test]
fn test_regex_invalid() {
    assert!(Pattern::parse("/[invalid/", false).is_err());
}

#[test]
fn test_match_position_parse() {
    assert_eq!(MatchPosition::parse("start").unwrap(), MatchPosition::Start);
    assert_eq!(MatchPosition::parse("contains").unwrap(), MatchPosition::Contains);
    assert_eq!(MatchPosition::parse("include").unwrap(), MatchPosition::Contains);
    assert_eq!(MatchPosition::parse("end").unwrap(), MatchPosition::End);
    assert!(MatchPosition::parse("middle").is_err());
}

#[test]
fn test_match_position_display() {
    assert_eq!(MatchPosition::Start.display(), "start");
    assert_eq!(MatchPosition::Contains.display(), "contains");
    assert_eq!(MatchPosition::End.display(), "end");
}

#[test]
fn match_position_error_text_and_default() {
    assert_eq!(
        MatchPosition::parse("middle").unwrap_err(),
        "Invalid match position 'middle': must be start, contains, or end"
    );
    assert_eq!(MatchPosition::default(), MatchPosition::Start);
    for p in [MatchPosition::Start, MatchPosition::Contains, MatchPosition::End] {
        assert_eq!(MatchPosition::parse(&p.display()).unwrap(), p);
    }
}

#[test]
fn pattern_error_texts() {
    assert_eq!(Pattern::parse("repeat:abc", false).unwrap_err(), "Invalid repeat count: abc");
    assert_eq!(Pattern::parse("repeat:1", false).unwrap_err(), "Repeat count must be >= 2");
    assert_eq!(Pattern::parse("xyz", false).unwrap_err(), "Invalid pattern 'xyz': prefix must be hex [0-9a-f]");
    assert!(Pattern::parse("/[invalid/", false).unwrap_err().starts_with("Invalid regex: "));
}

#[test]
fn parse_order_and_forms() {
    // Uppercase hex is lowered.
    assert_eq!(Pattern::parse("CaFe", false).unwrap().describe(), "prefix(\"cafe\")");
    // Structured with uppercase prefix.
    assert_eq!(Pattern::parse("ABxx", false).unwrap().describe(), "structured(\"ab\"+2x)");
    // no_repeat turns a structured text into a refused prefix.
    assert!(Pattern::parse("1997xxx", true).is_err());
    // "xx" stays a pair even with no_repeat.
    assert!(matches!(Pattern::parse("xx", true).unwrap(), Pattern::Pair));
    // A lone "x" has no prefix: not structured, not hex.
    assert!(Pattern::parse("x", false).is_err());
    // "//" is too short for a regex and is not hex.
    assert!(Pattern::parse("//", false).is_err());
    // The regex source is kept.
    assert_eq!(Pattern::parse("/a+b/", false).unwrap().describe(), "regex(\"a+b\")");
    // Empty text is an empty prefix.
    assert_eq!(Pattern::parse("", false).unwrap().describe(), "prefix(\"\")");
    assert_eq!(Pattern::parse("repeat:12", false).unwrap().describe(), "repeat(12)");
}

#[test]
fn estimates_by_position() {
    let p = Pattern::parse("cafe", false).unwrap();
    assert_eq!(p.estimated_attempts(MatchPosition::Contains), 65536 / 37);
    assert_eq!(p.estimated_attempts(MatchPosition::End), 65536);
    let s = Pattern::parse("aaxxx", false).unwrap();
    assert_eq!(s.estimated_attempts(MatchPosition::Start), 256 * 4096 / 16);
    assert_eq!(s.estimated_attempts(MatchPosition::Contains), 256 * 4096 / 16 / 36);
    assert_eq!(Pattern::parse("repeat:3", false).unwrap().estimated_attempts(MatchPosition::Contains), 256);
}

#[test]
fn repeat_matches_any_run_position() {
    let p = Pattern::parse("repeat:4", false).unwrap();
    let mut hash = [0x12, 0x34, 0x56, 0x78, 0x9a, 0xbc, 0xde, 0xf0, 0x12, 0x34,
            0x56, 0x78, 0x9a, 0xbc, 0xde, 0xf0, 0x12, 0x34, 0x56, 0x78];
    assert!(!p.matches_raw(&hash, MatchPosition::End));
    // nibbles 31..34 = 7,7,7,7 (run across a byte border)
    hash[15] = 0x77;
    hash[16] = 0x77;
    assert!(p.matches_raw(&hash, MatchPosition::End));
    assert!(p.matches_raw(&hash, MatchPosition::Start));
}

#[test]
fn pair_matches_across_bytes() {
    let p = Pattern::parse("xx", false).unwrap();
    let hash = [0x12, 0x23, 0x45, 0x67, 0x89, 0xab, 0xcd, 0xef, 0x12, 0x34,
            0x56, 0x78, 0x9a, 0xbc, 0xde, 0xf0, 0x12, 0x34, 0x56, 0x78];
    // low nibble of byte 0 (2) equals high nibble of byte 1 (2)
    assert!(p.matches_raw(&hash, MatchPosition::Start));
}

#[test]
fn regex_sees_lowercase_hex() {
    let p = Pattern::parse("/ab$/", false).unwrap();
    let mut hash = [0u8; 20];
    hash[19] = 0xab;
    assert!(p.matches_raw(&hash, MatchPosition::Start));
    let upper = Pattern::parse("/AB$/", false).unwrap();
    assert!(!upper.matches_raw(&hash, MatchPosition::Start));
    let cloned = p.clone();
    assert!(cloned.matches_raw(&hash, MatchPosition::End));
}

#[test]
fn structured_start_needs_run_after_prefix() {
    let p = Pattern::parse("1997xxx", false).unwrap();
    let mut hash = [0u8; 20];
    hash[0] = 0x19;
    hash[1] = 0x97;
    hash[2] = 0x55;
    hash[3] = 0x50;
    assert!(p.matches_raw(&hash, MatchPosition::Start));
    hash[3] = 0x40;
    assert!(!p.matches_raw(&hash, MatchPosition::Start));
}

#[test]
fn compiled_regex_outcomes() {
    match Pattern::from_compiled_regex(Err("boom".to_string())) {
        Err(e) => assert_eq!(e, "Invalid regex: boom"),
        Ok(_) => panic!("expected an error"),
    }
    let e = Pattern::parse("/(/", false).unwrap_err();
    assert!(e.starts_with("Invalid regex: ") && e.len() > "Invalid regex: ".len());
}

#[test]
fn structured_without_repeat_matches_prefix_only() {
    let p = Pattern::Structured { prefix_nibbles: vec![0xa], repeat_count: 0 };
    let mut hash = [0u8; 20];
    hash[0] = 0xa0;
    assert!(p.matches_raw(&hash, MatchPosition::Start));
    assert!(p.matches_raw(&hash, MatchPosition::Contains));
    // the prefix is not at the end, so an end match is defined and fails
    assert!(!p.matches_raw(&hash, MatchPosition::End));
}
