use superinstance_hdc_core::{fingerprint, BloomFilter, HyperVector};

#[test]
fn lib_test_fingerprint_deterministic() {
    let text = "hello world";
    let seed = 0xDEADBEEF;
    let a = fingerprint(text, seed);
    let b = fingerprint(text, seed);
    assert_eq!(a, b, "Same text+seed must produce same fingerprint");
}

#[test]
fn test_fingerprint_different_seeds() {
    let text = "hello world";
    let a = fingerprint(text, 0xAAAA);
    let b = fingerprint(text, 0xBBBB);
    assert_ne!(a, b, "Different seeds must produce different fingerprints");
}

#[test]
fn test_fingerprint_different_texts() {
    let seed = 0xDEADBEEF;
    let a = fingerprint("hello", seed);
    let b = fingerprint("world", seed);
    assert_ne!(a, b, "Different texts must produce different fingerprints");
}

#[test]
fn test_hypervector_creation() {
    let hv = HyperVector::from_seed(0xDEADBEEF);
    let density = hv.popcount() as f64 / 1024.0;
    assert!(density > 0.3 && density < 0.7, "from_seed should produce ~50% dense vector");
}

#[test]
fn test_hypervector_xor() {
    let a = HyperVector::from_text("hello", 0xDEAD);
    let b = HyperVector::from_text("world", 0xBEEF);
    let c = a.xor(&b);
    let d = c.xor(&a);
    let dist = d.hamming_distance(&b);
    assert_eq!(dist, 0, "XOR is self-inverse");
}

#[test]
fn test_hypervector_hamming() {
    let a = HyperVector::from_text("test", 0x1234);
    let dist = a.hamming_distance(&a);
    assert_eq!(dist, 0, "Hamming distance to self is 0");
}

#[test]
fn lib_test_bloom_insert_and_check() {
    // with_capacity(100, 0.01): ceil(100 * ln(100) / ln(2)^2) = 959 bits, 6 hashes
    let mut bloom = BloomFilter::with_params(100, 6, 959);
    let fp = fingerprint("test", 0xDEAD);
    bloom.insert(fp);
    assert!(bloom.contains(fp), "Inserted fingerprint should be found");
    assert!(!bloom.contains(fp + 1), "Non-inserted fingerprint should not be found (with low FPR)");
}
