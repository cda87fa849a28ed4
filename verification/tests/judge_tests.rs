use superinstance_hdc_core::judge::{
    hamming_distance, hamming_distance_portable, judge_with_fingerprint,
};
use superinstance_hdc_core::{
    fingerprint, judge, judge_batch, judge_detailed, BloomFilter, SramImage, SramImageBuilder,
    MAX_THRESHOLD,
};

/// The filter that building sizes for `capacity` records at a 1% false-positive rate.
fn sized_filter(capacity: usize, false_positive_rate: f64) -> BloomFilter {
    let n = capacity.max(1) as f64;
    let p = false_positive_rate.max(1e-10);
    let ln2 = std::f64::consts::LN_2;
    let m = (-(n * p.ln()) / (ln2 * ln2)).ceil() as usize;
    let k = ((m as f64 / n) * ln2).max(1.0) as usize;
    BloomFilter::with_params(capacity, k, m)
}

/// Builds the image, saves it to bytes and loads it back.
fn bake(builder: SramImageBuilder, records: usize) -> SramImage {
    let image = builder.build(sized_filter(records.max(1), 0.01)).unwrap();
    let bytes = image.to_bytes();
    SramImage::from_bytes(&bytes).unwrap()
}

#[test]
fn test_hamming_distance_self() {
    let a = 0xDEADBEEFDEADBEEF_u64;
    let dist = hamming_distance_portable(a, a);
    assert_eq!(dist, 0, "Self distance should be 0");
}

#[test]
fn test_hamming_distance_opposite() {
    let a = 0xFFFFFFFFFFFFFFFF_u64;
    let b = 0x0000000000000000_u64;
    let dist = hamming_distance_portable(a, b);
    assert_eq!(dist, 64, "Opposite values should have distance 64");
}

#[test]
fn test_hamming_distance_partial() {
    let a = 0xF0F0F0F0F0F0F0F0_u64;
    let b = 0x0F0F0F0F0F0F0F0F_u64;
    let dist = hamming_distance_portable(a, b);
    assert_eq!(dist, 64, "Complement should have distance 64");
}

#[test]
fn test_judge_exact_match() {
    let mut builder = SramImageBuilder::new();
    let fp = fingerprint("test answer", 0xDEAD);
    builder = builder.canary(fp).add_record(fp, 42);
    let loaded = bake(builder, 1);
    let result = judge(&loaded, "test answer", 0xDEAD, 0);
    assert_eq!(result, Some(42), "Exact match should be found");
}

#[test]
fn test_judge_fuzzy_match() {
    let mut builder = SramImageBuilder::new();
    let fp = fingerprint("correct answer", 0xDEAD);
    builder = builder.canary(fp).add_record(fp, 1);
    let loaded = bake(builder, 1);
    assert_eq!(judge(&loaded, "correct answer", 0xDEAD, 0), Some(1));
    let result = judge(&loaded, "wrong answer", 0xDEAD, 0);
    assert_eq!(result, None, "Wrong answer should not match");
}

#[test]
fn test_judge_bloom_reject() {
    let mut builder = SramImageBuilder::new();
    builder = builder.canary(0xDEAD).add_record(0x1111, 1).add_record(0x2222, 2);
    let loaded = bake(builder, 2);
    let result = judge(&loaded, "unrelated text that definitely won't match", 0xDEAD, 64);
    assert_eq!(result, None, "Unrelated text should not match");
}

#[test]
fn test_judge_batch() {
    let mut builder = SramImageBuilder::new();
    let fp1 = fingerprint("answer 1", 0xDEAD);
    let fp2 = fingerprint("answer 2", 0xDEAD);
    builder = builder.canary(fp1).add_record(fp1, 1).add_record(fp2, 2);
    let loaded = bake(builder, 2);
    let inputs = [
        ("answer 1", 0xDEAD, 0u32),
        ("answer 2", 0xDEAD, 0u32),
        ("wrong", 0xDEAD, 0u32),
    ];
    let results = judge_batch(&loaded, &inputs);
    assert_eq!(results.len(), 3);
    assert_eq!(results[0], Some(1));
    assert_eq!(results[1], Some(2));
    assert_eq!(results[2], None);
}

#[test]
fn test_judgment_detailed() {
    let mut builder = SramImageBuilder::new();
    let fp = fingerprint("test", 0xDEAD);
    builder = builder.canary(fp).add_record(fp, 1);
    let loaded = bake(builder, 1);
    let judgment = judge_detailed(&loaded, "test", 0xDEAD, 5);
    assert_eq!(judgment.lesson_id, Some(1));
    assert_eq!(judgment.distance, Some(0));
    assert!(judgment.bloom_passed);
    assert!(judgment.is_match());
}

#[test]
fn test_threshold_validation() {
    let mut builder = SramImageBuilder::new();
    builder = builder.canary(0xDEAD).add_record(0x1111, 1);
    let loaded = bake(builder, 1);
    let result = judge(&loaded, "test", 0xDEAD, MAX_THRESHOLD + 1);
    assert_eq!(result, None);
}

#[test]
fn hamming_distance_counts_differing_bits() {
    assert_eq!(hamming_distance(0b1011, 0b0001), 2);
    assert_eq!(hamming_distance(u64::MAX, 0), 64);
    assert_eq!(hamming_distance(0x8000_0000_0000_0001, 0), 2);
}

#[test]
fn judging_a_precomputed_fingerprint() {
    let builder = SramImageBuilder::new().add_record(0xAAAA_0000, 7).add_record(0xAAAA_0001, 8);
    let loaded = bake(builder, 2);
    assert_eq!(judge_with_fingerprint(&loaded, 0xAAAA_0000, 0), Some(7));
    assert_eq!(judge_with_fingerprint(&loaded, 0xAAAA_0001, 0), Some(8));
    assert_eq!(judge_with_fingerprint(&loaded, 0xAAAA_0001, 1), Some(7));
}

#[test]
fn detailed_judgment_reports_distance_beyond_threshold() {
    let fp = fingerprint("close", 1);
    let builder = SramImageBuilder::new().add_record(fp ^ 0b111, 3);
    let image = builder.build(sized_filter(1, 0.01)).unwrap();
    let judgment = judge_detailed(&image, "close", 1, 2);
    assert_eq!(judgment.input_hash, fp);
    if judgment.bloom_passed {
        assert_eq!(judgment.distance, Some(3));
        assert_eq!(judgment.lesson_id, None);
    } else {
        assert_eq!(judgment.distance, None);
    }
}

#[test]
fn judging_a_fingerprint_refuses_large_thresholds() {
    let builder = SramImageBuilder::new().add_record(0xAAAA_0000, 7);
    let loaded = bake(builder, 1);
    assert_eq!(judge_with_fingerprint(&loaded, 0xAAAA_0000, MAX_THRESHOLD), Some(7));
    assert_eq!(judge_with_fingerprint(&loaded, 0xAAAA_0000, MAX_THRESHOLD + 1), None);
    let fp = fingerprint("text", 9);
    assert_eq!(judge(&loaded, "text", 9, 70), judge_with_fingerprint(&loaded, fp, 70));
}

#[test]
fn truncated_images_do_not_load() {
    let fp = fingerprint("kept", 5);
    let builder = SramImageBuilder::new().add_record(fp, 1).add_record(fp ^ 1, 2);
    let image = builder.build(sized_filter(2, 0.01)).unwrap();
    let mut bytes = image.to_bytes();
    assert!(SramImage::from_bytes(&bytes).is_ok());
    bytes.truncate(bytes.len() - 24);
    assert!(SramImage::from_bytes(&bytes).is_err());
}
