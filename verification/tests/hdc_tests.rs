use superinstance_hdc_core::hdc::{
    bundle_fingerprints, permute_fingerprints, HyperVector, HYPERVECTOR_WORDS,
};
use superinstance_hdc_core::{bundle_words, fingerprint, permute_sequence};

#[test]
fn test_hypervector_from_fingerprint() {
    let hv = HyperVector::from_fingerprint(0xDEADBEEF);
    for word in &hv.0 {
        assert_eq!(*word, 0xDEADBEEF);
    }
}

#[test]
fn test_hypervector_xor_self_inverse() {
    let a = HyperVector::from_seed(0xDEAD);
    let b = HyperVector::from_seed(0xBEEF);
    let c = a.xor(&b);
    let d = c.xor(&b);
    assert_eq!(a, d, "XOR should be self-inverse");
}

#[test]
fn test_hypervector_xor_commutative() {
    let a = HyperVector::from_seed(0xDEAD);
    let b = HyperVector::from_seed(0xBEEF);
    let ab = a.xor(&b);
    let ba = b.xor(&a);
    assert_eq!(ab, ba, "XOR should be commutative");
}

#[test]
fn test_hypervector_rotate() {
    let hv = HyperVector::from_fingerprint(0x123456789ABCDEF0);
    let rotated = hv.rotate(1);
    assert_eq!(rotated.0[0], hv.0[15]);
    assert_eq!(rotated.0[1], hv.0[0]);
}

#[test]
fn test_hypervector_hamming_distance() {
    let a = HyperVector::from_fingerprint(0xFFFFFFFFFFFFFFFF);
    let b = HyperVector::from_fingerprint(0x0000000000000000);
    let dist = a.hamming_distance(&b);
    assert_eq!(dist, 1024, "Max distance should be 1024 bits");
}

#[test]
fn test_hypervector_hamming_self() {
    let a = HyperVector::from_seed(0x12345);
    let dist = a.hamming_distance(&a);
    assert_eq!(dist, 0, "Self distance should be 0");
}

#[test]
fn test_hypervector_bit_density() {
    let hv = HyperVector::from_seed(0xDEAD);
    let density = hv.popcount() as f64 / 1024.0;
    assert!(density > 0.3 && density < 0.7, "Random-ish vector should be ~50% dense");
}

#[test]
fn test_hypervector_bundle() {
    let a = HyperVector::from_fingerprint(0xFFFFFFFFFFFFFFFF);
    let b = HyperVector::from_fingerprint(0x0000000000000000);
    let c = HyperVector::from_fingerprint(0xFFFFFFFFFFFFFFFF);
    let bundled = a.bundle(&[b, c]);
    assert_eq!(bundled.0, [u64::MAX; HYPERVECTOR_WORDS]);
}

#[test]
fn test_permute_sequence_different_order() {
    let seed = 0xDEAD;
    let ab = permute_sequence(&["A", "B"], seed);
    let ba = permute_sequence(&["B", "A"], seed);
    assert_ne!(ab, ba, "Different orders should produce different vectors");
}

#[test]
fn test_permute_sequence_same_order() {
    let seed = 0xDEAD;
    let a = permute_sequence(&["hello", "world"], seed);
    let b = permute_sequence(&["hello", "world"], seed);
    assert_eq!(a, b, "Same order should produce same vector");
}

#[test]
fn test_bundle_words_order_independent() {
    let seed = 0xDEAD;
    let ab = bundle_words(&["A", "B"], seed);
    let ba = bundle_words(&["B", "A"], seed);
    assert_eq!(ab, ba, "Bundle should be order-independent");
}

#[test]
fn test_hypervector_from_text() {
    let hv = HyperVector::from_text("test", 0xDEAD);
    assert!(hv.is_zero() || hv.popcount() > 0, "Should produce a valid vector");
}

#[test]
fn test_hypervector_popcount() {
    let hv = HyperVector::from_fingerprint(0xAAAAAAAAAAAAAAAA);
    let ones = hv.0[0].count_ones();
    assert_eq!(hv.popcount(), ones * HYPERVECTOR_WORDS as u32);
}

#[test]
fn test_hypervector_raw_conversion() {
    let hv = HyperVector::from_seed(0x12345678);
    let bytes = hv.to_raw();
    let restored = HyperVector::from_raw(&bytes);
    assert_eq!(hv, restored, "Round-trip via raw bytes should preserve vector");
}

#[test]
fn from_seed_first_word_is_the_mixed_seed() {
    let hv = HyperVector::from_seed(1);
    assert_eq!(hv.0[0], 0x9E37_79B9_7F4A_7C15);
    // word 1: (K + K) rotated right by 3
    assert_eq!(hv.0[1], 0x9E37_79B9_7F4A_7C15u64.wrapping_mul(2).rotate_right(3));
}

#[test]
fn raw_bytes_are_little_endian_words() {
    let mut hv = HyperVector::zero();
    hv.0[0] = 0x0102_0304_0506_0708;
    hv.0[15] = 0xFF;
    let bytes = hv.to_raw();
    assert_eq!(&bytes[0..8], &[8, 7, 6, 5, 4, 3, 2, 1]);
    assert_eq!(bytes[120], 0xFF);
    assert_eq!(HyperVector::from_raw(&bytes).to_raw(), bytes);
}

#[test]
fn rotations_are_undone_by_their_complement() {
    let hv = HyperVector::from_seed(0xC0FFEE);
    assert_eq!(hv.rotate(5).rotate(11), hv);
    assert_eq!(hv.rotate(21).rotate(11), hv);
    assert_eq!(hv.rotate(16), hv);
    assert_eq!(hv.bit_rotate(13).bit_rotate(51), hv);
    assert_eq!(hv.bit_rotate(64), hv);
}

#[test]
fn bit_rotate_rotates_each_word() {
    let hv = HyperVector::from_fingerprint(1);
    let r = hv.bit_rotate(1);
    assert_eq!(r.0[7], 1u64 << 63);
}

#[test]
fn xor_with_fingerprint_matches_xor_with_broadcast() {
    let hv = HyperVector::from_seed(99);
    assert_eq!(hv.xor_fp(0x5555), hv.xor(&HyperVector::from_fingerprint(0x5555)));
}

#[test]
fn binding_preserves_distance() {
    let a = HyperVector::from_seed(1);
    let b = HyperVector::from_seed(2);
    let c = HyperVector::from_seed(3);
    assert_eq!(a.xor(&c).hamming_distance(&b.xor(&c)), a.hamming_distance(&b));
    assert_eq!(a.hamming_distance(&b), b.hamming_distance(&a));
}

#[test]
fn majority_of_two_vectors_needs_both() {
    // With two inputs a bit is kept only when both have it (2 of 2 is more than half).
    let a = HyperVector::from_fingerprint(0xFF00_FF00_FF00_FF00);
    let b = HyperVector::from_fingerprint(0xF0F0_F0F0_F0F0_F0F0);
    assert_eq!(a.bundle(&[b]), HyperVector::from_fingerprint(0xF000_F000_F000_F000));
    assert_eq!(a.bundle(&[b]), b.bundle(&[a]));
}

#[test]
fn majority_of_three_vectors_per_bit() {
    let a = HyperVector::from_fingerprint(0b1100);
    let b = HyperVector::from_fingerprint(0b1010);
    let c = HyperVector::from_fingerprint(0b1001);
    assert_eq!(a.bundle(&[b, c]), HyperVector::from_fingerprint(0b1000));
    assert_eq!(HyperVector::all_ones().bundle(&[HyperVector::zero(), HyperVector::zero()]), HyperVector::zero());
}

#[test]
fn bundling_with_nothing_keeps_the_vector() {
    let a = HyperVector::from_seed(77);
    assert_eq!(a.bundle(&[]), a);
}

#[test]
fn bundle_of_no_words_is_zero() {
    assert!(bundle_words(&[], 1).is_zero());
    assert_eq!(bundle_fingerprints(&[7]), HyperVector::from_fingerprint(7));
}

#[test]
fn sequence_code_of_two_fingerprints() {
    let x: u64 = 0x00FF_00FF_00FF_00FF;
    let y: u64 = 0x1234_5678_9ABC_DEF0;
    // position 0 is unrotated, position 1 is bit-rotated by 7
    let expected = HyperVector::from_fingerprint(x ^ y.rotate_right(7));
    assert_eq!(permute_fingerprints(&[x, y]), expected);
    assert_eq!(
        permute_sequence(&["p", "q"], 3),
        permute_fingerprints(&[fingerprint("p", 3), fingerprint("q", 3)])
    );
}

#[test]
fn zero_and_ones_vectors() {
    assert!(HyperVector::zero().is_zero());
    assert_eq!(HyperVector::all_ones().popcount(), 1024);
    assert_eq!(HyperVector::default(), HyperVector::zero());
}

#[test]
fn bundling_does_not_depend_on_order() {
    let x = (1u64 << 40) - 1;
    let y = ((1u64 << 40) - 1) << 24;
    assert_eq!(bundle_fingerprints(&[x, y, 0]), bundle_fingerprints(&[0, x, y]));
    assert_eq!(bundle_fingerprints(&[x, y, 0]), HyperVector::from_fingerprint(x & y));
    assert_eq!(bundle_fingerprints(&[x, y]), bundle_fingerprints(&[y, x]));
    assert_eq!(bundle_words(&["A", "B", "C"], 0xDEAD), bundle_words(&["C", "A", "B"], 0xDEAD));
}

#[test]
fn text_vector_is_the_majority_of_its_fingerprints() {
    let fps: Vec<u64> = (0..16u64).map(|i| fingerprint("concept", 0x1000 + i)).collect();
    let mut expected = 0u64;
    for bit in 0..64 {
        let ones = fps.iter().filter(|fp| (*fp >> bit) & 1 == 1).count();
        if 2 * ones > 17 {
            expected |= 1u64 << bit;
        }
    }
    assert_eq!(HyperVector::from_text("concept", 0x1000), HyperVector::from_fingerprint(expected));
}
