use git_vanity::preset::{find, list, presets};

#[test]
fn test_find_existing() {
    assert_eq!(find("cafe").unwrap().hex, "cafe");
    assert_eq!(find("coffee").unwrap().hex, "c0ffee");
    assert_eq!(find("dead").unwrap().hex, "dead");
}

#[test]
fn test_find_case_insensitive() {
    assert!(find("CAFE").is_some());
    assert!(find("Cafe").is_some());
}

#[test]
fn test_find_nonexistent() {
    assert!(find("banana").is_none());
    assert!(find("").is_none());
}

#[test]
fn test_all_presets_are_valid_hex() {
    for p in presets() {
        assert!(
            p.hex.chars().all(|c| c.is_ascii_hexdigit()),
            "Preset '{}' has invalid hex: {}",
            p.name,
            p.hex
        );
    }
}

#[test]
fn test_list_contains_all_presets() {
    let output = list();
    for p in presets() {
        assert!(output.contains(p.name), "Missing preset: {}", p.name);
    }
}

#[test]
fn presets_count_order_and_lookup() {
    let ps = presets();
    assert_eq!(ps.len(), 27);
    assert_eq!(ps[0].name, "ace");
    assert_eq!(ps[26].name, "effaced");
    for w in ps.windows(2) {
        assert!(w[0].hex.len() <= w[1].hex.len());
    }
    for p in &ps {
        assert!(p.hex.chars().all(|c| c.is_ascii_digit() || ('a'..='f').contains(&c)));
        assert_eq!(find(p.name).unwrap().hex, p.hex);
        assert_eq!(find(&p.name.to_uppercase()).unwrap().name, p.name);
    }
    assert_eq!(find("FOOD").unwrap().hex, "f00d");
    assert_eq!(find("daze").unwrap().description, "in a da2e");
}

#[test]
fn list_lines_are_padded() {
    let out = list();
    let lines: Vec<&str> = out.split('\n').collect();
    assert_eq!(lines.len(), 27);
    assert_eq!(lines[0], "  ace      ace       instant  an ace up your sleeve");
    assert_eq!(lines[11], "  cafe     cafe         < 1s  coffee shop vibes");
    assert_eq!(lines[20], "  decaf    decaf        ~ 2s  decaf coffee");
    assert_eq!(lines[21], "  coffee   c0ffee       ~ 5s  powered by c0ffee");
    assert_eq!(lines[26], "  effaced  effaced    ~ 30s+  effaced from history");
    assert!(!out.ends_with('\n'));
}
