//! Hyperdimensional computing core for bit-level agent cognition.
//!
//! Lessons are encoded as 64-bit fingerprints, stored in 64-byte SRAM records
//! behind a Bloom filter, and matched against inputs by XOR + popcount
//! (Hamming distance).

use vstd::prelude::*;

pub mod bits;
pub mod fingerprint;
pub mod bloom;
pub mod hdc;
pub mod simd;
pub mod simd_avx512;
pub mod auto;
pub mod sram;
pub mod judge;
pub mod lessons;

pub use fingerprint::fingerprint;
pub use bloom::BloomFilter;
pub use sram::{SramImage, SramImageBuilder, SramRecord};
pub use hdc::{bundle_words, permute_sequence, HyperVector};
pub use judge::{judge, judge_batch, judge_detailed, Judgment, DEFAULT_THRESHOLD, MAX_THRESHOLD};
pub use simd::{batch_judge, batch_judge_multi, BatchResult, SimdBatch, SimdMode};
pub use simd_avx512::batch_compare_avx512;
pub use auto::AutoBatch;

verus! {

/// Identifier of a lesson stored in an SRAM image.
pub type LessonId = u32;

/// The platform's I/O error, carried unchanged by [`Error::Io`].
#[verifier::external_type_specification]
#[verifier::external_body]
pub struct ExIoError(std::io::Error);

/// Errors of the HDC operations.
#[derive(Debug)]
pub enum Error {
    /// An I/O operation failed.
    Io(std::io::Error),
    /// The bytes do not form a valid SRAM image.
    InvalidImage(String),
    /// The bytes do not form a valid Bloom filter.
    Bloom(String),
    /// A parameter was out of range.
    InvalidParam(String),
}

} // verus!
