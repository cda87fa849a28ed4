//! Batch comparison of a query fingerprint against many fingerprints.
//!
//! Every mode computes the same results; the portable scalar loop is the
//! reference implementation.

use vstd::prelude::*;
use crate::bits::{count_ones, hamming};
use crate::fingerprint::{fingerprints_for, fingerprints_of};

verus! {

/// Vector instruction set used for batch operations.
#[derive(Debug, Clone, Copy, PartialEq, Eq, Structural)]
pub enum SimdMode {
    /// Portable scalar loop.
    Scalar,
    /// 512-bit AVX-512 operations.
    Avx512,
    /// 256-bit AVX2 operations.
    Avx2,
}

impl Default for SimdMode {
    fn default() -> (mode: Self)
        ensures
            mode == SimdMode::Scalar,
    {
        SimdMode::Scalar
    }
}

/// One match of a batch comparison.
#[derive(Debug, Clone)]
pub struct BatchResult {
    /// Position of the matching fingerprint in the batch.
    pub index: usize,
    /// Hamming distance between the query and that fingerprint.
    pub distance: u32,
    /// Whether the distance is within the threshold (always true for results).
    pub is_match: bool,
}

/// The matches of `query` among `records`, in increasing index order: the pairs
/// (index, distance) of every record within Hamming distance `threshold`.
pub open spec fn threshold_matches(records: Seq<u64>, query: u64, threshold: u32) -> Seq<(int, nat)>
    decreases records.len(),
{
    if records.len() == 0 {
        seq![]
    } else {
        let prev = threshold_matches(records.drop_last(), query, threshold);
        let d = hamming(query, records.last());
        if d <= threshold {
            prev.push((records.len() - 1, d))
        } else {
            prev
        }
    }
}

/// The results list exactly the given matches, in order.
pub open spec fn results_are(results: Seq<BatchResult>, matches: Seq<(int, nat)>) -> bool {
    &&& results.len() == matches.len()
    &&& forall|k: int|
        0 <= k < results.len() ==> {
            &&& #[trigger] results[k].index == matches[k].0
            &&& results[k].distance == matches[k].1
            &&& results[k].is_match
        }
}

/// Every listed match is a record within the threshold, the indices increase, and
/// every record within the threshold is listed.
pub proof fn lemma_threshold_matches_exact(records: Seq<u64>, query: u64, threshold: u32)
    ensures
        forall|k: int|
            0 <= k < threshold_matches(records, query, threshold).len() ==> {
                let m = #[trigger] threshold_matches(records, query, threshold)[k];
                &&& 0 <= m.0 < records.len()
                &&& m.1 == hamming(query, records[m.0])
                &&& m.1 <= threshold
            },
        forall|k1: int, k2: int|
            0 <= k1 < k2 < threshold_matches(records, query, threshold).len() ==> (
            #[trigger] threshold_matches(records, query, threshold)[k1]).0 < (
            #[trigger] threshold_matches(records, query, threshold)[k2]).0,
        forall|j: int|
            0 <= j < records.len() && hamming(query, #[trigger] records[j]) <= threshold ==> exists|k: int|
                0 <= k < threshold_matches(records, query, threshold).len()
                    && #[trigger] threshold_matches(records, query, threshold)[k].0 == j,
    decreases records.len(),
{
    if records.len() > 0 {
        let prev_recs = records.drop_last();
        lemma_threshold_matches_exact(prev_recs, query, threshold);
        let prev = threshold_matches(prev_recs, query, threshold);
        let all = threshold_matches(records, query, threshold);
        assert(forall|k: int| 0 <= k < prev.len() ==> prev[k].0 < records.len() - 1);
        assert forall|j: int|
            0 <= j < records.len() && hamming(query, #[trigger] records[j]) <= threshold implies exists|k: int|
                0 <= k < all.len() && #[trigger] all[k].0 == j by {
            if j < records.len() - 1 {
                assert(prev_recs[j] == records[j]);
                let k = choose|k: int| 0 <= k < prev.len() && #[trigger] prev[k].0 == j;
                assert(all[k] == prev[k]);
            } else {
                assert(all[all.len() - 1].0 == j);
            }
        }
        assert forall|k: int| 0 <= k < all.len() implies {
            let m = #[trigger] all[k];
            &&& 0 <= m.0 < records.len()
            &&& m.1 == hamming(query, records[m.0])
            &&& m.1 <= threshold
        } by {
            if k < prev.len() {
                assert(all[k] == prev[k]);
                assert(prev_recs[prev[k].0] == records[prev[k].0]);
            }
        }
    }
}

/// Scalar comparison of `query` against every fingerprint of `fps`.
pub(crate) fn compare_fingerprints(fps: &[u64], query: u64, threshold: u32) -> (results: Vec<BatchResult>)
    ensures
        results_are(results@, threshold_matches(fps@, query, threshold)),
{
    let mut results: Vec<BatchResult> = Vec::new();
    let mut index: usize = 0;
    while index < fps.len()
        invariant
            index <= fps@.len(),
            results_are(results@, threshold_matches(fps@.take(index as int), query, threshold)),
        decreases fps@.len() - index,
    {
        let distance = count_ones(query ^ fps[index]);
        proof {
            assert(fps@.take(index + 1).drop_last() =~= fps@.take(index as int));
            assert(fps@.take(index + 1).last() == fps@[index as int]);
        }
        if distance <= threshold {
            results.push(BatchResult { index, distance, is_match: true });
        }
        index = index + 1;
    }
    assert(fps@.take(fps@.len() as int) =~= fps@);
    results
}

/// A batch of fingerprints ready for comparison.
#[derive(Debug, Clone)]
pub struct SimdBatch {
    /// The fingerprints of the batch.
    pub fingerprints: Vec<u64>,
    /// The instruction set used for comparisons.
    pub mode: SimdMode,
}

impl SimdBatch {
    /// Creates a batch in the default (scalar) mode.
    pub fn new(fingerprints: Vec<u64>) -> (batch: Self)
        ensures
            batch.fingerprints@ == fingerprints@,
            batch.mode == SimdMode::Scalar,
    {
        SimdBatch { fingerprints, mode: SimdMode::default() }
    }

    /// Creates a batch from the fingerprints of texts under one seed.
    pub fn from_texts(texts: &[&str], seed: u64) -> (batch: Self)
        ensures
            batch.fingerprints@ == fingerprints_of(texts@, seed),
            batch.mode == SimdMode::Scalar,
    {
        let fingerprints = fingerprints_for(texts, seed);
        SimdBatch::new(fingerprints)
    }

    /// All fingerprints within Hamming distance `threshold` of `query`, in batch
    /// order.
    pub fn compare_against(&self, query: u64, threshold: u32) -> (results: Vec<BatchResult>)
        ensures
            results_are(results@, threshold_matches(self.fingerprints@, query, threshold)),
    {
        match self.mode {
            SimdMode::Scalar => self.compare_scalar(query, threshold),
            SimdMode::Avx512 => self.compare_scalar(query, threshold),
            SimdMode::Avx2 => self.compare_scalar(query, threshold),
        }
    }

    /// Portable implementation of [`SimdBatch::compare_against`].
    fn compare_scalar(&self, query: u64, threshold: u32) -> (results: Vec<BatchResult>)
        ensures
            results_are(results@, threshold_matches(self.fingerprints@, query, threshold)),
    {
        compare_fingerprints(self.fingerprints.as_slice(), query, threshold)
    }

    /// Number of fingerprints in the batch.
    pub fn len(&self) -> (n: usize)
        ensures
            n == self.fingerprints@.len(),
    {
        self.fingerprints.len()
    }

    /// Whether the batch holds no fingerprint.
    pub fn is_empty(&self) -> (empty: bool)
        ensures
            empty == (self.fingerprints@.len() == 0),
    {
        self.fingerprints.len() == 0
    }
}

/// All records within Hamming distance `threshold` of `query`, in order.
pub fn batch_judge(query: u64, records: &[u64], threshold: u32) -> (results: Vec<BatchResult>)
    ensures
        results_are(results@, threshold_matches(records@, query, threshold)),
{
    let batch = SimdBatch::new(vstd::slice::slice_to_vec(records));
    batch.compare_against(query, threshold)
}

/// For each query, in order, all records within Hamming distance `threshold`.
pub fn batch_judge_multi(queries: &[u64], records: &[u64], threshold: u32) -> (results: Vec<Vec<BatchResult>>)
    ensures
        results@.len() == queries@.len(),
        forall|q: int|
            0 <= q < queries@.len() ==> results_are(
                #[trigger] results@[q]@,
                threshold_matches(records@, queries@[q], threshold),
            ),
{
    let batch = SimdBatch::new(vstd::slice::slice_to_vec(records));
    let mut results: Vec<Vec<BatchResult>> = Vec::new();
    let mut q: usize = 0;
    while q < queries.len()
        invariant
            q <= queries@.len(),
            batch.fingerprints@ == records@,
            results@.len() == q,
            forall|p: int|
                0 <= p < q ==> results_are(
                    #[trigger] results@[p]@,
                    threshold_matches(records@, queries@[p], threshold),
                ),
        decreases queries@.len() - q,
    {
        results.push(batch.compare_against(queries[q], threshold));
        q = q + 1;
    }
    results
}

/// Flattened matches of several queries: for each query in order, the
/// (query index, record index, distance) triple of each of its matches, indices
/// truncated to 32 bits.
pub open spec fn match_triples(records: Seq<u64>, queries: Seq<u64>, threshold: u32) -> Seq<(u32, u32, u32)>
    decreases queries.len(),
{
    if queries.len() == 0 {
        seq![]
    } else {
        match_triples(records, queries.drop_last(), threshold) + threshold_matches(
            records,
            queries.last(),
            threshold,
        ).map_values(|m: (int, nat)| ((queries.len() - 1) as u32, m.0 as u32, m.1 as u32))
    }
}

/// All matches of all queries as (query index, record index, distance) triples.
pub fn batch_judge_triples(queries: &[u64], records: &[u64], threshold: u32) -> (triples: Vec<(u32, u32, u32)>)
    ensures
        triples@ == match_triples(records@, queries@, threshold),
{
    let batch = SimdBatch::new(vstd::slice::slice_to_vec(records));
    let mut triples: Vec<(u32, u32, u32)> = Vec::new();
    let mut q: usize = 0;
    while q < queries.len()
        invariant
            q <= queries@.len(),
            batch.fingerprints@ == records@,
            triples@ == match_triples(records@, queries@.take(q as int), threshold),
        decreases queries@.len() - q,
    {
        let matches = batch.compare_against(queries[q], threshold);
        let ghost expected = threshold_matches(records@, queries@[q as int], threshold);
        let ghost before = triples@;
        let mut k: usize = 0;
        while k < matches.len()
            invariant
                k <= matches@.len(),
                q < queries@.len(),
                results_are(matches@, expected),
                triples@ == before + expected.take(k as int).map_values(
                    |m: (int, nat)| (q as u32, m.0 as u32, m.1 as u32),
                ),
            decreases matches@.len() - k,
        {
            let m = &matches[k];
            triples.push((q as u32, m.index as u32, m.distance));
            proof {
                assert(expected.take(k + 1).map_values(|m: (int, nat)| (q as u32, m.0 as u32, m.1 as u32))
                    =~= expected.take(k as int).map_values(
                    |m: (int, nat)| (q as u32, m.0 as u32, m.1 as u32),
                ).push((q as u32, expected[k as int].0 as u32, expected[k as int].1 as u32)));
            }
            k = k + 1;
        }
        proof {
            assert(expected.take(matches@.len() as int) =~= expected);
            assert(queries@.take(q + 1).drop_last() =~= queries@.take(q as int));
            assert(queries@.take(q + 1).last() == queries@[q as int]);
        }
        q = q + 1;
    }
    assert(queries@.take(queries@.len() as int) =~= queries@);
    triples
}

} // verus!
