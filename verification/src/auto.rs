//! Batch comparison that dispatches on the CPU's capabilities.
//!
//! Whether the wide-vector path is available is detected by the caller and
//! handed in; both paths give the same results.

use vstd::prelude::*;
use crate::simd::{results_are, threshold_matches, BatchResult, SimdBatch};
use crate::simd_avx512::batch_compare_avx512;

verus! {

/// Batch comparison over a fixed set of records, using the wide-vector path when
/// the CPU supports it.
pub struct AutoBatch {
    records: Vec<u64>,
    has_avx512: bool,
}

impl AutoBatch {
    /// The records of the batch.
    pub closed spec fn records(self) -> Seq<u64> {
        self.records@
    }

    /// Creates a batch; `has_avx512` says whether the CPU offers AVX-512 BITALG.
    pub fn new(records: Vec<u64>, has_avx512: bool) -> (batch: Self)
        ensures
            batch.records() == records@,
    {
        AutoBatch { records, has_avx512 }
    }

    /// All records within Hamming distance `threshold` of `query`, in order.
    pub fn compare(&self, query: u64, threshold: u32) -> (results: Vec<BatchResult>)
        ensures
            results_are(results@, threshold_matches(self.records(), query, threshold)),
    {
        if self.has_avx512 {
            batch_compare_avx512(self.records.as_slice(), query, threshold)
        } else {
            let batch = SimdBatch::new(self.records.clone());
            assert(batch.fingerprints@ =~= self.records@);
            batch.compare_against(query, threshold)
        }
    }
}

} // verus!
