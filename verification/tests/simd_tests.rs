use superinstance_hdc_core::simd_avx512::{hypervector_hamming_avx512, hypervector_xor_avx512};
use superinstance_hdc_core::{
    batch_compare_avx512, batch_judge, batch_judge_multi, fingerprint, AutoBatch, HyperVector,
    SimdBatch, SimdMode,
};

#[test]
fn test_batch_compare_basic() {
    let batch = SimdBatch::new(vec![0x1111, 0x2222, 0x3333]);
    let results = batch.compare_against(0x1111, 0);
    assert_eq!(results.len(), 1);
    assert_eq!(results[0].index, 0);
    assert_eq!(results[0].distance, 0);
}

#[test]
fn test_batch_compare_threshold() {
    let batch = SimdBatch::new(vec![
        0xFFFFFFFFFFFFFFFF,
        0x0000000000000000,
        0xFFFFFFFFFFFFFFFE,
    ]);
    let results = batch.compare_against(0xFFFFFFFFFFFFFFFF, 1);
    assert_eq!(results.len(), 2);
}

#[test]
fn test_batch_from_texts() {
    let batch = SimdBatch::from_texts(&["hello", "world", "hello"], 0xDEAD);
    assert_eq!(batch.len(), 3);
    let query = fingerprint("hello", 0xDEAD);
    let results = batch.compare_against(query, 0);
    assert_eq!(results.len(), 2);
}

#[test]
fn test_batch_judge_function() {
    let records = vec![0x1111, 0x2222, 0x3333];
    let results = batch_judge(0x1111, &records, 0);
    assert_eq!(results.len(), 1);
    assert_eq!(results[0].index, 0);
}

#[test]
fn test_batch_judge_multi() {
    let records = vec![0x1111, 0x2222, 0x3333];
    let queries = vec![0x1111, 0x9999];
    let results = batch_judge_multi(&queries, &records, 0);
    assert_eq!(results.len(), 2);
    assert_eq!(results[0].len(), 1);
    assert_eq!(results[1].len(), 0);
}

#[test]
fn test_empty_batch() {
    let batch = SimdBatch::new(vec![]);
    assert!(batch.is_empty());
    let results = batch.compare_against(0xDEAD, 64);
    assert!(results.is_empty());
}

#[test]
fn test_auto_batch_basic() {
    let records: Vec<u64> = (0..100)
        .map(|i| fingerprint(&format!("record_{}", i), 0xDEAD))
        .collect();
    let query = fingerprint("record_50", 0xDEAD);
    let batch = AutoBatch::new(records, false);
    let matches = batch.compare(query, 0);
    assert_eq!(matches.len(), 1);
    assert_eq!(matches[0].index, 50);
    assert_eq!(matches[0].distance, 0);
}

#[test]
fn auto_batch_paths_agree() {
    let records: Vec<u64> = (0..40u64).map(|i| i * 0x0101).collect();
    let wide = AutoBatch::new(records.clone(), true).compare(0x0303, 3);
    let portable = AutoBatch::new(records, false).compare(0x0303, 3);
    assert_eq!(wide.len(), portable.len());
    for (a, b) in wide.iter().zip(portable.iter()) {
        assert_eq!(a.index, b.index);
        assert_eq!(a.distance, b.distance);
    }
}

#[test]
fn test_hypervector_xor_matches_scalar() {
    let a: [u64; 16] = [0xDEADBEEF; 16];
    let b: [u64; 16] = [0x12345678; 16];
    let mut out = [0u64; 16];
    hypervector_xor_avx512(&a, &b, &mut out);
    for i in 0..16 {
        assert_eq!(out[i], a[i] ^ b[i], "Lane {} mismatch", i);
    }
}

#[test]
fn test_batch_compare_matches_scalar() {
    let records: Vec<u64> = (0..100).map(|i| i * 0x1111).collect();
    let query = 0x2222;
    let threshold = 10;
    let avx_results = batch_compare_avx512(&records, query, threshold);
    let scalar = SimdBatch::new(records);
    let scalar_results = scalar.compare_against(query, threshold);
    assert_eq!(avx_results.len(), scalar_results.len());
    for (a, s) in avx_results.iter().zip(scalar_results.iter()) {
        assert_eq!(a.index, s.index);
        assert_eq!(a.distance, s.distance);
    }
}

#[test]
fn wide_hamming_matches_hypervector_hamming() {
    let a = HyperVector::from_seed(11);
    let b = HyperVector::from_seed(12);
    assert_eq!(hypervector_hamming_avx512(&a.0, &b.0), a.hamming_distance(&b));
}

#[test]
fn every_mode_gives_the_same_matches() {
    let fingerprints = vec![0b1111u64, 0b0111, 0b0011, 0b0001, 0];
    for mode in [SimdMode::Scalar, SimdMode::Avx512, SimdMode::Avx2] {
        let batch = SimdBatch { fingerprints: fingerprints.clone(), mode };
        let results = batch.compare_against(0b1111, 2);
        let found: Vec<(usize, u32)> = results.iter().map(|r| (r.index, r.distance)).collect();
        assert_eq!(found, vec![(0, 0), (1, 1), (2, 2)]);
        assert!(results.iter().all(|r| r.is_match));
    }
    assert_eq!(SimdMode::default(), SimdMode::Scalar);
}
