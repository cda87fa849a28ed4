use superinstance_hdc_core::fingerprint::{fingerprint, multi_fingerprint};

#[test]
fn test_fingerprint_empty_string() {
    let fp = fingerprint("", 0xDEAD);
    assert_ne!(fp, 0, "Empty string should still produce a hash");
}

#[test]
fn fingerprint_test_fingerprint_deterministic() {
    let text = "test input";
    let seed = 0x12345678;
    let fp1 = fingerprint(text, seed);
    let fp2 = fingerprint(text, seed);
    assert_eq!(fp1, fp2, "Must be deterministic");
}

#[test]
fn test_fingerprint_seed_sensitivity() {
    let text = "same text";
    let fp1 = fingerprint(text, 0x1111);
    let fp2 = fingerprint(text, 0x2222);
    assert_ne!(fp1, fp2, "Different seeds must produce different fingerprints");
}

#[test]
fn test_fingerprint_unicode() {
    let fp1 = fingerprint("héllo", 0xDEAD);
    let fp2 = fingerprint("héllo", 0xDEAD);
    assert_eq!(fp1, fp2, "Unicode must be handled correctly");
}

#[test]
fn test_fingerprint_long_text() {
    let text = "a".repeat(10000);
    let fp = fingerprint(&text, 0xDEAD);
    assert_ne!(fp, 0, "Long text must produce valid hash");
}

#[test]
fn test_multi_fingerprint() {
    let fps = multi_fingerprint("test", 0x1000, 5);
    assert_eq!(fps.len(), 5);
    for i in 0..fps.len() {
        for j in (i + 1)..fps.len() {
            assert_ne!(fps[i], fps[j]);
        }
    }
}

#[test]
fn fingerprint_of_empty_text_with_zero_seed_is_zero() {
    // MurmurHash3 x64_128 of no bytes under seed 0 finalizes zero to zero.
    assert_eq!(fingerprint("", 0), 0);
}

#[test]
fn multi_fingerprint_uses_consecutive_wrapping_seeds() {
    let fps = multi_fingerprint("lesson", u64::MAX, 3);
    assert_eq!(fps[0], fingerprint("lesson", u64::MAX));
    assert_eq!(fps[1], fingerprint("lesson", 0));
    assert_eq!(fps[2], fingerprint("lesson", 1));
}

#[test]
fn multi_fingerprint_zero_count_is_empty() {
    assert!(multi_fingerprint("x", 7, 0).is_empty());
}
