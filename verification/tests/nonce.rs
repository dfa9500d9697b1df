use git_vanity::nonce::{generate_nonce, nonce_len, NONCE_LEN};

#[test]
fn test_nonce_no_newline() {
    (0..1000u64).for_each(|i| {
        let nonce = generate_nonce(i, 0);
        assert!(!nonce.contains(&0x0A), "Nonce contains newline");
        assert!(nonce.iter().all(|&b| b >= 0x80), "Nonce has printable byte");
    });
}

#[test]
fn test_nonce_different_threads() {
    let a = generate_nonce(0, 0);
    let b = generate_nonce(0, 1);
    assert_ne!(a, b);
}

#[test]
fn test_nonce_different_counters() {
    let a = generate_nonce(0, 0);
    let b = generate_nonce(1, 0);
    assert_ne!(a, b);
}

#[test]
fn nonce_layout_exact() {
    assert_eq!(nonce_len(), 13);
    assert_eq!(NONCE_LEN, 13);
    let n = generate_nonce(0x0102030405060708, 0x0a0b);
    assert_eq!(n, [0x8b, 0x94, 0x80, 0x88, 0x8e, 0x98, 0xa8, 0xc0, 0xe0, 0x80, 0x81, 0x81, 0x80]);
    assert_eq!(generate_nonce(0, 0), [0x80; 13]);
    assert_eq!(
        generate_nonce(u64::MAX, u16::MAX),
        [0xff, 0xff, 0x83, 0xff, 0xff, 0xff, 0xff, 0xff, 0xff, 0xff, 0xff, 0xff, 0x81]
    );
}

#[test]
fn nonces_never_repeat() {
    // counters that share their low seven bits per byte, and thread ids too
    assert_ne!(generate_nonce(0x80, 0), generate_nonce(0x00, 0));
    assert_ne!(generate_nonce(5, 0x0080), generate_nonce(5, 0));
    assert_ne!(generate_nonce(1 << 63, 0), generate_nonce(0, 0));
    assert_ne!(generate_nonce(0, 1 << 15), generate_nonce(0, 0));
    let mut seen = std::collections::HashSet::new();
    for t in 0..4u16 {
        for c in 0..70_000u64 {
            assert!(seen.insert(generate_nonce(c, t)));
        }
    }
}
