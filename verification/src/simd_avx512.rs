//! Wide-vector entry points for batch comparison and hypervector operations.
//!
//! These compute exactly what the portable loops compute; the vector-instruction
//! versions and the CPU feature detection live outside the verified library.

use vstd::prelude::*;
use crate::bits::count_ones;
use crate::hdc::{hamming_upto, hamming_words, xor_words};
use crate::simd::{compare_fingerprints, results_are, threshold_matches, BatchResult};
use crate::bits::lemma_hamming_basics;

verus! {

/// Batch comparison of `query` against `records`, eight records per step.
pub fn batch_compare_avx512(records: &[u64], query: u64, threshold: u32) -> (results: Vec<BatchResult>)
    ensures
        results_are(results@, threshold_matches(records@, query, threshold)),
{
    compare_fingerprints(records, query, threshold)
}

/// XOR of two 1024-bit hypervectors given as word arrays, written to `out`.
pub fn hypervector_xor_avx512(a: &[u64; 16], b: &[u64; 16], out: &mut [u64; 16])
    ensures
        final(out)@ == xor_words(a@, b@),
{
    let mut i: usize = 0;
    while i < 16
        invariant
            i <= 16,
            out@.len() == 16,
            forall|j: int| 0 <= j < i ==> #[trigger] out@[j] == a@[j] ^ b@[j],
        decreases 16 - i,
    {
        out[i] = a[i] ^ b[i];
        i = i + 1;
    }
    assert(out@ =~= xor_words(a@, b@));
}

/// Hamming distance of two 1024-bit hypervectors given as word arrays.
pub fn hypervector_hamming_avx512(a: &[u64; 16], b: &[u64; 16]) -> (d: u32)
    ensures
        d == hamming_words(a@, b@),
{
    let mut distance: u32 = 0;
    let mut i: usize = 0;
    while i < 16
        invariant
            i <= 16,
            distance == hamming_upto(a@, b@, i as nat),
            distance <= 64 * i,
        decreases 16 - i,
    {
        proof {
            lemma_hamming_basics(a@[i as int], b@[i as int]);
        }
        distance = distance + count_ones(a[i] ^ b[i]);
        i = i + 1;
    }
    distance
}

} // verus!
