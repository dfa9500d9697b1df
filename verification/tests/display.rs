use git_vanity::display::{
    bold_green, detect_vanity, format_hash, format_hash_is_defined, format_log_hash,
    format_log_hash_is_defined, format_number, AppError,
};
use git_vanity::pattern::MatchPosition;

#[test]
fn test_format_number_small() {
    assert_eq!(format_number(42), "42");
    assert_eq!(format_number(999), "999");
}

#[test]
fn test_format_number_thousands() {
    assert_eq!(format_number(1234), "1,234");
    assert_eq!(format_number(1_234_567), "1,234,567");
}

#[test]
fn test_format_hash_start() {
    let h = "cafebabe12345678901234567890abcdef123456";
    let result = format_hash(h, "cafe", MatchPosition::Start, false);
    assert!(result.contains("cafe"));
    assert!(result.ends_with("..."));
}

#[test]
fn test_format_hash_end() {
    let h = "1234567890abcdef1234567890abcdef1234cafe";
    let result = format_hash(h, "cafe", MatchPosition::End, false);
    assert!(result.contains("cafe"));
    assert!(result.starts_with("..."));
}

#[test]
fn test_format_hash_contains() {
    let h = "1234567890cafe567890abcdef1234567890abcd";
    let result = format_hash(h, "cafe", MatchPosition::Contains, false);
    assert!(result.contains("cafe"));
}

#[test]
fn test_detect_vanity_leading_zeros() {
    let v = detect_vanity("00001234567890abcdef1234567890abcdef1234");
    assert!(v.is_some());
    assert_eq!(v.unwrap(), ("0000".to_string(), MatchPosition::Start));

    let v = detect_vanity("aaaa1234567890abcdef1234567890abcdef1234");
    assert!(v.is_some());
    assert_eq!(v.unwrap(), ("aaaa".to_string(), MatchPosition::Start));

    assert!(detect_vanity("0123456789abcdef0123456789abcdef01234567").is_none());
}

#[test]
fn test_detect_vanity_preset_start() {
    let v = detect_vanity("cafebabe12345678901234567890abcdef123456");
    assert!(v.is_some());
    assert_eq!(v.unwrap().1, MatchPosition::Start);
}

#[test]
fn test_detect_vanity_preset_end() {
    let v = detect_vanity("1234567890abcdef1234567890abcdef1234cafe");
    assert!(v.is_some());
    assert_eq!(v.unwrap().1, MatchPosition::End);
}

#[test]
fn test_detect_vanity_preset_contains() {
    let v = detect_vanity("1234567890abcafe1234567890abcdef12345678");
    assert!(v.is_some());
    assert_eq!(v.unwrap().1, MatchPosition::Contains);
}

#[test]
fn test_format_log_hash_start() {
    let vanity = Some(("0000".to_string(), MatchPosition::Start));
    let result = format_log_hash("00001234567890abcdef1234567890abcdef1234", &vanity, false);
    assert_eq!(result, "0000123");
}

#[test]
fn test_format_log_hash_end() {
    let vanity = Some(("cafe".to_string(), MatchPosition::End));
    let result = format_log_hash("1234567890abcdef1234567890abcdef1234cafe", &vanity, false);
    assert!(result.contains("cafe"));
    assert!(result.starts_with(".."));
}

#[test]
fn test_format_log_hash_no_vanity() {
    let result = format_log_hash("0123456789abcdef0123456789abcdef01234567", &None, false);
    assert_eq!(result, "0123456");
}

#[test]
fn test_bold_green_no_color() {
    assert_eq!(bold_green("test", false), "test");
}

#[test]
fn test_bold_green_with_color() {
    let result = bold_green("test", true);
    assert!(result.contains("\x1b[1;32m"));
    assert!(result.contains("\x1b[0m"));
    assert!(result.contains("test"));
}

#[test]
fn bold_green_exact() {
    assert_eq!(bold_green("cafe", true), "\x1b[1;32mcafe\x1b[0m");
    assert_eq!(bold_green("", true), "\x1b[1;32m\x1b[0m");
}

#[test]
fn format_number_edges() {
    assert_eq!(format_number(0), "0");
    assert_eq!(format_number(100), "100");
    assert_eq!(format_number(1000), "1,000");
    assert_eq!(format_number(999_999), "999,999");
    assert_eq!(format_number(u64::MAX), "18,446,744,073,709,551,615");
}

#[test]
fn format_hash_exact_windows() {
    assert_eq!(
        format_hash("cafebabe12345678901234567890abcdef123456", "cafe", MatchPosition::Start, false),
        "cafebabe1234..."
    );
    assert_eq!(
        format_hash("1234567890abcdef1234567890abcdef1234cafe", "cafe", MatchPosition::End, false),
        "...cdef1234cafe"
    );
    assert_eq!(
        format_hash("1234567890cafe567890abcdef1234567890abcd", "CAFE", MatchPosition::Contains, false),
        "...890cafe567..."
    );
    // pattern not in the hash: the whole hash, nothing highlighted
    assert_eq!(
        format_hash("0123456789abcdef0123456789abcdef01234567", "cafe", MatchPosition::Contains, false),
        "0123456789abcdef0123456789abcdef01234567"
    );
    assert_eq!(
        format_hash("cafebabe12345678901234567890abcdef123456", "cafe", MatchPosition::Start, true),
        "\x1b[1;32mcafe\x1b[0mbabe1234..."
    );
}

#[test]
fn detect_vanity_priorities() {
    // start beats end; longest wins within a position
    assert_eq!(
        detect_vanity("c0ffee0000000000000000000000000000000000"),
        Some(("c0ffee".to_string(), MatchPosition::Start))
    );
    assert_eq!(
        detect_vanity("01234567890123456789012345678901234decaf"),
        Some(("decaf".to_string(), MatchPosition::End))
    );
    // the whole leading run is taken
    assert_eq!(
        detect_vanity("1111111111deface11111111111111111111111a"),
        Some(("1111111111".to_string(), MatchPosition::Start))
    );
    // equal lengths: the later preset in the list
    assert_eq!(
        detect_vanity("1cafe2dead333333333333333333333333333332"),
        Some(("dead".to_string(), MatchPosition::Contains))
    );
    // three-character presets do not count
    assert_eq!(detect_vanity("ace1234567890123456789012345678901234567"), None);
}

#[test]
fn format_log_hash_exact() {
    let end = Some(("cafe".to_string(), MatchPosition::End));
    assert_eq!(format_log_hash("1234567890abcdef1234567890abcdef1234cafe", &end, false), "..234cafe");
    let contains = Some(("cafe".to_string(), MatchPosition::Contains));
    assert_eq!(format_log_hash("1234567890abcafe1234567890abcdef12345678", &contains, false), "..abcafe12");
    let start = Some(("0000".to_string(), MatchPosition::Start));
    assert_eq!(
        format_log_hash("00001234567890abcdef1234567890abcdef1234", &start, true),
        "\x1b[1;32m0000\x1b[0m123"
    );
    // a pattern that is not there falls back to the short hash
    let missing = Some(("dead".to_string(), MatchPosition::End));
    assert_eq!(format_log_hash("1234567890abcdef1234567890abcdef1234cafe", &missing, false), "1234567");
}

#[test]
fn app_error_codes_and_messages() {
    assert_eq!(AppError::Args("a".to_string()).exit_code(), 1);
    assert_eq!(AppError::Timeout("t".to_string()).exit_code(), 2);
    assert_eq!(AppError::Git("g".to_string()).exit_code(), 3);
    assert_eq!(AppError::Git("no repo".to_string()).message(), "no repo");
    assert_eq!(AppError::Args("bad".to_string()).message(), "bad");
    assert_eq!(AppError::Timeout("slow".to_string()).message(), "slow");
}

#[test]
fn detect_vanity_leading_run_counts_bytes() {
    // four two-byte characters: the first four bytes are two of them
    assert_eq!(
        detect_vanity("\u{e9}\u{e9}\u{e9}\u{e9}0123456789"),
        Some(("\u{e9}\u{e9}".to_string(), MatchPosition::Start))
    );
}

#[test]
fn format_hash_cuts_by_bytes() {
    let h = "\u{e9}".repeat(10);
    assert!(format_hash_is_defined(&h, "\u{e9}\u{e9}", MatchPosition::Start));
    assert_eq!(
        format_hash(&h, "\u{e9}\u{e9}", MatchPosition::Start, false),
        format!("{}...", "\u{e9}".repeat(6))
    );
    // a three-byte cut falls inside the second character
    assert!(!format_hash_is_defined(&h, "abc", MatchPosition::Start));
    // an end match longer than the hash
    assert!(!format_hash_is_defined("abc", "abcd", MatchPosition::End));
    assert!(format_hash_is_defined("cafebabe12345678901234567890abcdef123456", "cafe", MatchPosition::Contains));
}

#[test]
fn format_log_hash_cuts_by_bytes() {
    assert!(format_log_hash_is_defined("abcdefg\u{e9}0123", &None));
    assert_eq!(format_log_hash("abcdefg\u{e9}0123", &None, false), "abcdefg");
    // the seventh byte is inside a character
    assert!(!format_log_hash_is_defined("abcdef\u{e9}0123", &None));
    assert!(!format_log_hash_is_defined("abc", &None));
    let v = Some(("\u{e9}".to_string(), MatchPosition::Contains));
    assert!(format_log_hash_is_defined("0123456789\u{e9}abcdef", &v));
    assert_eq!(format_log_hash("0123456789\u{e9}abcdef", &v, false), "..89\u{e9}ab");
}

#[test]
fn format_number_groups_of_three() {
    for n in [0u64, 7, 12, 999, 1000, 12_345, 999_999, 1_000_000, u64::MAX] {
        let s = format_number(n);
        assert_eq!(s.replace(',', "").parse::<u64>().unwrap(), n);
        let groups: Vec<&str> = s.split(',').collect();
        assert!((1..=3).contains(&groups[0].len()));
        assert!(groups[1..].iter().all(|g| g.len() == 3));
    }
}
