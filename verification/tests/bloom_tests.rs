use superinstance_hdc_core::{BloomFilter, Error};

/// Parameters that a filter for `capacity` elements at the given false-positive
/// rate uses: m = ceil(-n ln p / ln(2)^2) bits and k = max(1, m / n * ln 2) hashes.
fn sized_filter(capacity: usize, false_positive_rate: f64) -> BloomFilter {
    let n = capacity.max(1) as f64;
    let p = false_positive_rate.max(1e-10);
    let ln2 = std::f64::consts::LN_2;
    let m = (-(n * p.ln()) / (ln2 * ln2)).ceil() as usize;
    let k = ((m as f64 / n) * ln2).max(1.0) as usize;
    BloomFilter::with_params(capacity, k, m)
}

#[test]
fn bloom_test_bloom_insert_and_check() {
    let mut bloom = sized_filter(100, 0.01);
    let fp = 0xDEADBEEF_u64;
    bloom.insert(fp);
    assert!(bloom.contains(fp), "Inserted fingerprint should be found");
}

#[test]
fn test_bloom_definite_negatives() {
    let mut bloom = sized_filter(1000, 0.001);
    bloom.insert(0x12345678);
    let mut not_found = 0;
    for i in 0..1000_u64 {
        if !bloom.contains(0x10000000 + i * 0x911) {
            not_found += 1;
        }
    }
    assert!(not_found > 990, "Most non-inserted items should not be found");
}

#[test]
fn test_bloom_false_positive_rate() {
    let mut bloom = sized_filter(1000, 0.1);
    for i in 0..500_u64 {
        bloom.insert(i * 0x9E3779B9);
    }
    let mut false_positives = 0;
    for i in 500..1000_u64 {
        if bloom.contains(i * 0x9E3779B9) {
            false_positives += 1;
        }
    }
    let fpr = false_positives as f64 / 500.0;
    assert!(fpr < 0.2 && fpr > 0.02, "FPR should be around 10%, got {}", fpr);
}

#[test]
fn test_bloom_clear() {
    let mut bloom = sized_filter(100, 0.01);
    bloom.insert(0xDEAD);
    bloom.clear();
    assert!(!bloom.contains(0xDEAD), "Cleared bloom filter should not contain anything");
}

#[test]
fn test_bloom_serialization() {
    let mut bloom = sized_filter(100, 0.01);
    bloom.insert(0xDEADBEEF);
    bloom.insert(0xCAFEBABE);
    let bytes = bloom.to_bytes();
    let restored = BloomFilter::from_bytes(&bytes).unwrap();
    assert_eq!(bloom.num_hashes(), restored.num_hashes());
    assert!(restored.contains(0xDEADBEEF));
    assert!(restored.contains(0xCAFEBABE));
}

#[test]
fn test_bloom_empty() {
    let bloom = sized_filter(100, 0.01);
    assert!(!bloom.contains(0xDEAD));
}

#[test]
fn test_bloom_very_low_fpr() {
    let mut bloom = sized_filter(100, 0.0001);
    bloom.insert(42);
    let mut false_positives = 0;
    for i in 0..10000_u64 {
        if bloom.contains((i + 1000) * 0x12345) {
            false_positives += 1;
        }
    }
    assert!(false_positives < 10, "Very low FPR should produce few false positives");
}

#[test]
fn with_params_sets_parameters() {
    let bloom = BloomFilter::with_params(10, 3, 130);
    assert_eq!(bloom.num_hashes(), 3);
    assert_eq!(bloom.bit_count(), 130);
    // 130 bits need three words: 16 header bytes + 24 data bytes.
    assert_eq!(bloom.to_bytes().len(), 40);
}

#[test]
fn serialization_layout_is_little_endian() {
    let mut bloom = BloomFilter::with_params(0x0102, 1, 64);
    bloom.insert(5);
    let bytes = bloom.to_bytes();
    assert_eq!(&bytes[0..4], &[1, 0, 0, 0]);
    assert_eq!(&bytes[4..8], &[64, 0, 0, 0]);
    assert_eq!(&bytes[8..12], &[2, 1, 0, 0]);
    assert_eq!(&bytes[12..16], &[0, 0, 0, 0]);
    // probe 0 of fingerprint 5 is 5 % 64 = 5: bit 5 of the only word.
    assert_eq!(&bytes[16..24], &[0x20, 0, 0, 0, 0, 0, 0, 0]);
}

#[test]
fn from_bytes_rejects_short_header() {
    match BloomFilter::from_bytes(&[0u8; 15]) {
        Err(Error::Bloom(_)) => {}
        other => panic!("expected a Bloom error, got {:?}", other.map(|b| b.bit_count())),
    }
}

#[test]
fn from_bytes_rejects_missing_words() {
    let mut bytes = vec![0u8; 16 + 8];
    bytes[4] = 65; // 65 bits need two words
    match BloomFilter::from_bytes(&bytes) {
        Err(Error::Bloom(_)) => {}
        other => panic!("expected a Bloom error, got {:?}", other.map(|b| b.bit_count())),
    }
    bytes.extend_from_slice(&[0u8; 8]);
    assert!(BloomFilter::from_bytes(&bytes).is_ok());
}

#[test]
fn roundtrip_preserves_every_answer() {
    let mut bloom = BloomFilter::with_params(50, 4, 500);
    for i in 0..50_u64 {
        bloom.insert(i * 0x1234_5678_9ABC);
    }
    let restored = BloomFilter::from_bytes(&bloom.to_bytes()).unwrap();
    assert_eq!(restored.bit_count(), 500);
    for i in 0..2000_u64 {
        assert_eq!(bloom.contains(i * 7919), restored.contains(i * 7919));
    }
    assert_eq!(restored.to_bytes(), bloom.to_bytes());
}

#[test]
fn insertion_keeps_earlier_answers() {
    let mut bloom = BloomFilter::with_params(10, 3, 64);
    bloom.insert(1);
    let before: Vec<bool> = (0..300_u64).map(|x| bloom.contains(x)).collect();
    bloom.insert(99);
    for x in 0..300_u64 {
        if before[x as usize] {
            assert!(bloom.contains(x));
        }
    }
    assert!(bloom.contains(99));
}

#[test]
fn zero_hash_functions_admit_everything() {
    let bloom = BloomFilter::with_params(1, 0, 0);
    assert!(bloom.contains(12345));
}

#[test]
fn inserting_twice_changes_nothing() {
    let mut bloom = sized_filter(10, 0.01);
    bloom.insert(0xFEED);
    let once = bloom.to_bytes();
    bloom.insert(0xFEED);
    assert_eq!(bloom.to_bytes(), once);
    assert!(bloom.contains(0xFEED));
}
