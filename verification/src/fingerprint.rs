//! MurmurHash3-based 64-bit fingerprints of text.
//!
//! A fingerprint is the low half of the x64 128-bit MurmurHash3 digest of the
//! text's UTF-8 bytes, computed by the `murmurhash` crate.

use vstd::prelude::*;
use vstd::utf8::encode_utf8;

verus! {

/// The 128-bit MurmurHash3 (x64 variant) digest that `murmurhash::sum128with_seed`
/// returns for `bytes` under `seed`, as a pair (low half, high half). The crate
/// reads the input in 64-bit words of the machine's byte order; the digest named
/// here is the one of little-endian machines.
pub uninterp spec fn murmur3_x64_128(bytes: Seq<u8>, seed: u64) -> (u64, u64);

/// Calls `murmurhash::sum128with_seed`, which hashes every byte slice under every
/// seed without failing; the contract only names the digest, whose value depends on
/// the bytes and the seed alone (on a machine of a given byte order).
#[verifier::external_body]
fn murmur128(bytes: &[u8], seed: u64) -> (digest: (u64, u64))
    ensures
        digest == murmur3_x64_128(bytes@, seed),
{
    murmurhash::sum128with_seed(bytes, seed)
}

/// The fingerprint of a text: the low 64 bits of the digest of its UTF-8 encoding.
pub open spec fn fingerprint_of(text: Seq<char>, seed: u64) -> u64 {
    murmur3_x64_128(encode_utf8(text), seed).0
}

/// The seed used for the `i`-th fingerprint of a multi-fingerprint: `base + i`,
/// wrapping around modulo 2^64.
pub open spec fn nth_seed(base: u64, i: int) -> u64 {
    ((base + i) % 0x1_0000_0000_0000_0000) as u64
}

/// Generates the 64-bit fingerprint of `text` under `seed`.
pub fn fingerprint(text: &str, seed: u64) -> (fp: u64)
    ensures
        fp == fingerprint_of(text@, seed),
{
    let (low, _high) = murmur128(text.as_bytes(), seed);
    low
}

/// Fingerprints of the same text under `count` consecutive seeds starting at
/// `base_seed`.
pub fn multi_fingerprint(text: &str, base_seed: u64, count: usize) -> (fps: Vec<u64>)
    ensures
        fps@.len() == count,
        forall|i: int| 0 <= i < count ==> #[trigger] fps@[i] == fingerprint_of(text@, nth_seed(base_seed, i)),
{
    let mut fps: Vec<u64> = Vec::new();
    let mut i: usize = 0;
    while i < count
        invariant
            i <= count,
            fps@.len() == i,
            forall|j: int| 0 <= j < i ==> #[trigger] fps@[j] == fingerprint_of(text@, nth_seed(base_seed, j)),
        decreases count - i,
    {
        let seed = base_seed.wrapping_add(i as u64);
        assert(seed == nth_seed(base_seed, i as int));
        fps.push(fingerprint(text, seed));
        i = i + 1;
    }
    fps
}

/// The fingerprints of a sequence of words.
pub open spec fn fingerprints_of(words: Seq<&str>, seed: u64) -> Seq<u64> {
    Seq::new(words.len(), |i: int| fingerprint_of(words[i]@, seed))
}

/// The fingerprints of the given words under one seed.
pub(crate) fn fingerprints_for(words: &[&str], seed: u64) -> (fps: Vec<u64>)
    ensures
        fps@ == fingerprints_of(words@, seed),
{
    let mut fps: Vec<u64> = Vec::new();
    let mut i: usize = 0;
    while i < words.len()
        invariant
            i <= words@.len(),
            fps@ == fingerprints_of(words@.take(i as int), seed),
        decreases words@.len() - i,
    {
        fps.push(fingerprint(words[i], seed));
        proof {
            assert(fingerprints_of(words@.take(i + 1), seed) =~= fps@);
        }
        i = i + 1;
    }
    assert(words@.take(words@.len() as int) =~= words@);
    fps
}

} // verus!
