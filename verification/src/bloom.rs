//! Bloom filter for fast first-pass fuzzy matching of fingerprints.
//!
//! The filter keeps `bit_count` bits in 64-bit words and simulates
//! `num_hashes` hash functions by double hashing of the fingerprint.
//! Choosing the parameters from a false-positive rate needs floating point and
//! is left to callers; here the filter is built from explicit parameters.

use vstd::prelude::*;
use vstd::bytes::{
    lemma_auto_spec_u32_to_from_le_bytes, lemma_auto_spec_u64_to_from_le_bytes, spec_u32_from_le_bytes, spec_u32_to_le_bytes, spec_u64_from_le_bytes, spec_u64_to_le_bytes,
    u32_from_le_bytes, u32_to_le_bytes, u64_from_le_bytes, u64_to_le_bytes,
};
use vstd::wrapping::{u64_specs, usize_specs};
use crate::bits::{bit_set, count_ones, lemma_bits_determine_word, lemma_popcount_bound, popcount};
use crate::Error;

verus! {

/// Number of 64-bit words needed to hold `bit_count` bits.
pub open spec fn words_for(bit_count: int) -> int {
    (bit_count + 63) / 64
}

/// Bit position probed by the `i`-th simulated hash function for `fingerprint` in a
/// filter of `bit_count` bits: double hashing `h1 + i * h2` with wrapping machine
/// arithmetic, reduced modulo `bit_count`.
pub open spec fn probe(fingerprint: u64, i: usize, bit_count: usize) -> usize {
    let h1 = fingerprint as usize;
    let h2 = ((fingerprint >> 32u64) as usize) ^ (u64_specs::wrapping_mul(
        fingerprint,
        0x9E37_79B9,
    ) as usize);
    (usize_specs::wrapping_add(h1, usize_specs::wrapping_mul(i, h2)) % bit_count) as usize
}

/// Whether bit position `idx` is probed by one of the first `num_hashes` hash
/// functions for `fingerprint`.
pub open spec fn probed(fingerprint: u64, num_hashes: usize, bit_count: usize, idx: int) -> bool {
    exists|i: usize| i < num_hashes && #[trigger] probe(fingerprint, i, bit_count) == idx
}

/// Bit `idx` of a bit array laid out in 64-bit words, least significant bit first.
pub open spec fn word_bit(words: Seq<u64>, idx: int) -> bool {
    bit_set(words[idx / 64], (idx % 64) as u64)
}

/// Total number of set bits of the words.
pub open spec fn words_popcount(words: Seq<u64>) -> nat
    decreases words.len(),
{
    if words.len() == 0 {
        0
    } else {
        words_popcount(words.drop_last()) + popcount(words.last())
    }
}

/// Little-endian `u32` stored at `off` in `s`.
pub open spec fn le_u32_at(s: Seq<u8>, off: int) -> u32 {
    spec_u32_from_le_bytes(s.subrange(off, off + 4))
}

/// Little-endian `u64` stored at `off` in `s`.
pub open spec fn le_u64_at(s: Seq<u8>, off: int) -> u64 {
    spec_u64_from_le_bytes(s.subrange(off, off + 8))
}

/// Concatenated little-endian encodings of the words.
pub open spec fn words_le_bytes(words: Seq<u64>) -> Seq<u8>
    decreases words.len(),
{
    if words.len() == 0 {
        seq![]
    } else {
        words_le_bytes(words.drop_last()) + spec_u64_to_le_bytes(words.last())
    }
}

/// The 16-byte header of a serialized filter: hash count, bit count and capacity as
/// little-endian `u32` (truncated), then four zero bytes.
pub open spec fn bloom_header_bytes(num_hashes: usize, bit_count: usize, capacity: usize) -> Seq<u8> {
    spec_u32_to_le_bytes(num_hashes as u32) + spec_u32_to_le_bytes(bit_count as u32)
        + spec_u32_to_le_bytes(capacity as u32) + seq![0u8, 0u8, 0u8, 0u8]
}

/// Whether `s` is long enough to hold the header and all the words that the bit
/// count in its header calls for (a bit count that, rounded up to whole words,
/// still fits in `usize`; always the case where `usize` has 64 bits).
pub open spec fn bloom_bytes_complete(s: Seq<u8>) -> bool {
    &&& s.len() >= 16
    &&& le_u32_at(s, 4) + 63 <= usize::MAX
    &&& s.len() >= 16 + 8 * words_for(le_u32_at(s, 4) as int)
}

/// `filter` is what the serialized bytes `s` describe: its parameters are the
/// header fields and its words are read from the bytes after the header.
pub open spec fn decodes_to(s: Seq<u8>, filter: BloomFilter) -> bool {
    &&& bloom_bytes_complete(s)
    &&& filter.hash_count() == le_u32_at(s, 0) as usize
    &&& filter.size_in_bits() == le_u32_at(s, 4) as usize
    &&& filter.expected_capacity() == le_u32_at(s, 8) as usize
    &&& filter.words() == Seq::new(
        words_for(le_u32_at(s, 4) as int) as nat,
        |i: int| le_u64_at(s, 16 + 8 * i),
    )
}

/// Two filters with the same parameters and the same bit array.
pub open spec fn same_filter(a: BloomFilter, b: BloomFilter) -> bool {
    &&& a.hash_count() == b.hash_count()
    &&& a.size_in_bits() == b.size_in_bits()
    &&& a.expected_capacity() == b.expected_capacity()
    &&& a.words() == b.words()
}

/// A Bloom filter over 64-bit fingerprints.
#[derive(Debug, Clone)]
pub struct BloomFilter {
    bitfield: Vec<u64>,
    num_hashes: usize,
    capacity: usize,
    bit_count: usize,
}

impl BloomFilter {
    /// The bit array has exactly the words that `bit_count` bits need, and
    /// rounding the bit count up to whole words does not overflow.
    pub closed spec fn well_formed(self) -> bool {
        &&& self.bit_count + 63 <= usize::MAX
        &&& self.bitfield@.len() == words_for(self.bit_count as int)
    }

    /// The words of the bit array.
    pub closed spec fn words(self) -> Seq<u64> {
        self.bitfield@
    }

    /// Number of simulated hash functions.
    pub closed spec fn hash_count(self) -> usize {
        self.num_hashes
    }

    /// Expected number of elements the filter was sized for.
    pub closed spec fn expected_capacity(self) -> usize {
        self.capacity
    }

    /// Number of bits of the filter.
    pub closed spec fn size_in_bits(self) -> usize {
        self.bit_count
    }

    /// Whether bit position `idx` of the bit array is set.
    pub open spec fn is_set(self, idx: int) -> bool {
        word_bit(self.words(), idx)
    }

    /// Insertion and lookup never divide by a zero bit count.
    pub open spec fn usable(self) -> bool {
        self.hash_count() == 0 || self.size_in_bits() > 0
    }

    /// Whether the filter answers "possibly present" for `fingerprint`: every probed
    /// bit is set.
    pub open spec fn admits(self, fingerprint: u64) -> bool {
        forall|i: usize|
            i < self.hash_count() ==> #[trigger] self.is_set(
                probe(fingerprint, i, self.size_in_bits()) as int,
            )
    }

    /// `after` has the same parameters as `self`, and its bits are those of `self`
    /// together with the bits probed for `fingerprint`.
    pub open spec fn inserted(self, fingerprint: u64, after: Self) -> bool {
        &&& after.hash_count() == self.hash_count()
        &&& after.size_in_bits() == self.size_in_bits()
        &&& after.expected_capacity() == self.expected_capacity()
        &&& after.words().len() == self.words().len()
        &&& forall|idx: int|
            0 <= idx < self.words().len() * 64 ==> (#[trigger] after.is_set(idx) <==> self.is_set(idx)
                || probed(fingerprint, self.hash_count(), self.size_in_bits(), idx))
    }

    /// `after` has the same parameters as `self`, and its bits are those of `self`
    /// together with the bits probed for every fingerprint of `fps`.
    pub open spec fn filled(self, fps: Seq<u64>, after: Self) -> bool {
        &&& after.hash_count() == self.hash_count()
        &&& after.size_in_bits() == self.size_in_bits()
        &&& after.expected_capacity() == self.expected_capacity()
        &&& after.words().len() == self.words().len()
        &&& forall|idx: int|
            0 <= idx < self.words().len() * 64 ==> (#[trigger] after.is_set(idx) <==> self.is_set(idx)
                || exists|r: int|
                0 <= r < fps.len() && probed(fps[r], self.hash_count(), self.size_in_bits(), idx))
    }

    /// The serialized form: header, then the words in little-endian order.
    pub open spec fn serialized(self) -> Seq<u8> {
        bloom_header_bytes(self.hash_count(), self.size_in_bits(), self.expected_capacity())
            + words_le_bytes(self.words())
    }

    /// Length of the serialized form.
    pub open spec fn serialized_len(self) -> nat {
        16 + 8 * self.words().len()
    }

    /// Creates an empty filter with explicit parameters.
    pub fn with_params(capacity: usize, num_hashes: usize, bit_count: usize) -> (bloom: Self)
        requires
            bit_count <= usize::MAX - 63,
        ensures
            bloom.well_formed(),
            bloom.expected_capacity() == capacity,
            bloom.hash_count() == num_hashes,
            bloom.size_in_bits() == bit_count,
            bloom.words() == Seq::new(words_for(bit_count as int) as nat, |i: int| 0u64),
    {
        let words_needed = (bit_count + 63) / 64;
        let bitfield = vec![0u64; words_needed];
        let bloom = BloomFilter { bitfield, num_hashes, capacity, bit_count };
        assert(bloom.words() =~= Seq::new(words_for(bit_count as int) as nat, |i: int| 0u64));
        bloom
    }

    /// The bit position probed by hash function `i` for `fingerprint`.
    fn hash_index(&self, fingerprint: u64, i: usize) -> (idx: usize)
        requires
            self.bit_count > 0,
        ensures
            idx == probe(fingerprint, i, self.bit_count),
            idx < self.bit_count,
    {
        let h1 = fingerprint as usize;
        let h2 = ((fingerprint >> 32) as usize) ^ (fingerprint.wrapping_mul(0x9E37_79B9) as usize);
        let combined = h1.wrapping_add(i.wrapping_mul(h2));
        combined % self.bit_count
    }

    /// Inserts a fingerprint: sets every bit probed for it.
    pub fn insert(&mut self, fingerprint: u64)
        requires
            old(self).well_formed(),
            old(self).usable(),
        ensures
            final(self).well_formed(),
            old(self).inserted(fingerprint, *final(self)),
    {
        let ghost before = *self;
        let mut i: usize = 0;
        while i < self.num_hashes
            invariant
                before.usable(),
                before.well_formed(),
                self.num_hashes == before.num_hashes,
                self.bit_count == before.bit_count,
                self.capacity == before.capacity,
                self.bitfield@.len() == before.bitfield@.len(),
                i <= self.num_hashes,
                forall|idx: int|
                    0 <= idx < before.words().len() * 64 ==> (#[trigger] self.is_set(idx)
                        <==> before.is_set(idx) || probed(fingerprint, i, before.bit_count, idx)),
            decreases self.num_hashes - i,
        {
            let idx = self.hash_index(fingerprint, i);
            let w = idx / 64;
            let b = idx % 64;
            proof {
                lemma_bit_index_in_range(idx as int, self.bit_count as int);
            }
            let old_word = self.bitfield[w];
            let ghost mid = self.bitfield@;
            let ghost mid_self = *self;
            self.bitfield.set(w, old_word | (1u64 << (b as u64)));
            proof {
                lemma_word_set_bit(mid, idx as int);
                assert(self.bitfield@ == mid.update(idx as int / 64, mid[idx as int / 64] | (1u64 << ((idx % 64) as u64))));
                lemma_probed_step(fingerprint, i, before.bit_count);
                assert forall|j: int| 0 <= j < before.words().len() * 64 implies (#[trigger] self.is_set(j)
                    <==> before.is_set(j) || probed(fingerprint, (i + 1) as usize, before.bit_count, j)) by {
                    assert(word_bit(self.bitfield@, j) == (word_bit(mid, j) || j == idx));
                    assert(mid_self.is_set(j) == word_bit(mid, j));
                    assert(probed(fingerprint, (i + 1) as usize, before.bit_count, j) == (probed(fingerprint, i, before.bit_count, j) || probe(fingerprint, i, before.bit_count) == j));
                }
            }
            i = i + 1;
        }
    }

    /// Whether `fingerprint` might be in the set: false means it was definitely
    /// never inserted.
    pub fn contains(&self, fingerprint: u64) -> (present: bool)
        requires
            self.well_formed(),
            self.usable(),
        ensures
            present == self.admits(fingerprint),
    {
        let mut i: usize = 0;
        while i < self.num_hashes
            invariant
                self.usable(),
                self.well_formed(),
                i <= self.num_hashes,
                forall|k: usize| k < i ==> #[trigger] self.is_set(probe(fingerprint, k, self.bit_count) as int),
            decreases self.num_hashes - i,
        {
            let idx = self.hash_index(fingerprint, i);
            proof {
                lemma_bit_index_in_range(idx as int, self.bit_count as int);
            }
            let word = self.bitfield[idx / 64];
            if word & (1u64 << ((idx % 64) as u64)) == 0 {
                proof {
                    lemma_test_bit(word, (idx % 64) as u64);
                    assert(!self.is_set(probe(fingerprint, i, self.bit_count) as int));
                }
                return false;
            }
            proof {
                lemma_test_bit(word, (idx % 64) as u64);
            }
            i = i + 1;
        }
        true
    }

    /// Clears every bit of the filter.
    pub fn clear(&mut self)
        requires
            old(self).well_formed(),
        ensures
            final(self).well_formed(),
            final(self).hash_count() == old(self).hash_count(),
            final(self).size_in_bits() == old(self).size_in_bits(),
            final(self).expected_capacity() == old(self).expected_capacity(),
            final(self).words() == Seq::new(old(self).words().len(), |i: int| 0u64),
    {
        let n = self.bitfield.len();
        let mut i: usize = 0;
        while i < n
            invariant
                n == self.bitfield@.len(),
                n == old(self).bitfield@.len(),
                self.num_hashes == old(self).num_hashes,
                self.bit_count == old(self).bit_count,
                self.capacity == old(self).capacity,
                i <= n,
                forall|j: int| 0 <= j < i ==> self.bitfield@[j] == 0u64,
                n == words_for(self.bit_count as int),
            decreases n - i,
        {
            self.bitfield.set(i, 0u64);
            i = i + 1;
        }
        assert(self.words() =~= Seq::new(old(self).words().len(), |i: int| 0u64));
    }

    /// Serializes the filter: a 16-byte header (hash count, bit count, capacity as
    /// little-endian `u32`, four reserved zero bytes), then the words.
    pub fn to_bytes(&self) -> (bytes: Vec<u8>)
        requires
            self.well_formed(),
        ensures
            bytes@ == self.serialized(),
    {
        let mut bytes: Vec<u8> = Vec::new();
        let mut field = u32_to_le_bytes(self.num_hashes as u32);
        bytes.append(&mut field);
        let mut field = u32_to_le_bytes(self.bit_count as u32);
        bytes.append(&mut field);
        let mut field = u32_to_le_bytes(self.capacity as u32);
        bytes.append(&mut field);
        bytes.push(0u8);
        bytes.push(0u8);
        bytes.push(0u8);
        bytes.push(0u8);
        let ghost header = bloom_header_bytes(self.num_hashes, self.bit_count, self.capacity);
        assert(bytes@ =~= header);
        let n = self.bitfield.len();
        let mut i: usize = 0;
        while i < n
            invariant
                n == self.bitfield@.len(),
                i <= n,
                header == bloom_header_bytes(self.num_hashes, self.bit_count, self.capacity),
                bytes@ == header + words_le_bytes(self.words().take(i as int)),
            decreases n - i,
        {
            let mut word = u64_to_le_bytes(self.bitfield[i]);
            bytes.append(&mut word);
            proof {
                assert(self.words().take(i + 1).drop_last() =~= self.words().take(i as int));
                assert(self.words().take(i + 1).last() == self.bitfield@[i as int]);
                assert(bytes@ =~= header + words_le_bytes(self.words().take(i + 1)));
            }
            i = i + 1;
        }
        assert(self.words().take(n as int) =~= self.words());
        bytes
    }

    /// Deserializes a filter written by [`BloomFilter::to_bytes`]. Fails with a
    /// `Bloom` error when the buffer is shorter than the header or than the words
    /// that the header's bit count calls for; bytes past those are ignored.
    pub fn from_bytes(bytes: &[u8]) -> (result: Result<BloomFilter, Error>)
        ensures
            match result {
                Ok(filter) => filter.well_formed() && decodes_to(bytes@, filter),
                Err(e) => !bloom_bytes_complete(bytes@) && e is Bloom,
            },
    {
        if bytes.len() < 16 {
            return Err(Error::Bloom("Buffer too small for bloom filter header".to_owned()));
        }
        let num_hashes = u32_from_le_bytes(&bytes[0..4]) as usize;
        let bit_count32 = u32_from_le_bytes(&bytes[4..8]);
        let capacity = u32_from_le_bytes(&bytes[8..12]) as usize;
        if bit_count32 as u64 + 63 > usize::MAX as u64 {
            return Err(Error::Bloom("Bloom filter too large for this platform".to_owned()));
        }
        let bit_count = bit_count32 as usize;
        let words_needed = ((bit_count32 as u64 + 63) / 64) as usize;
        let expected_len = 16 + words_needed * 8;
        if bytes.len() < expected_len {
            return Err(Error::Bloom("Buffer too small for bloom filter data".to_owned()));
        }
        let mut bitfield: Vec<u64> = Vec::with_capacity(words_needed);
        let mut i: usize = 0;
        while i < words_needed
            invariant
                i <= words_needed,
                words_needed == words_for(le_u32_at(bytes@, 4) as int),
                16 + 8 * words_needed <= bytes@.len(),
                bitfield@.len() == i,
                forall|j: int| 0 <= j < i ==> #[trigger] bitfield@[j] == le_u64_at(bytes@, 16 + 8 * j),
            decreases words_needed - i,
        {
            let offset = 16 + i * 8;
            let word = u64_from_le_bytes(&bytes[offset..offset + 8]);
            bitfield.push(word);
            i = i + 1;
        }
        let filter = BloomFilter { bitfield, num_hashes, capacity, bit_count };
        assert(filter.words() =~= Seq::new(
            words_for(le_u32_at(bytes@, 4) as int) as nat,
            |i: int| le_u64_at(bytes@, 16 + 8 * i),
        ));
        Ok(filter)
    }

    /// Number of set bits in the bit array.
    pub fn fill_count(&self) -> (n: usize)
        requires
            self.well_formed(),
        ensures
            n == words_popcount(self.words()),
    {
        let mut total: usize = 0;
        let mut i: usize = 0;
        while i < self.bitfield.len()
            invariant
                self.well_formed(),
                i <= self.bitfield@.len(),
                total == words_popcount(self.words().take(i as int)),
                total <= 64 * i,
            decreases self.bitfield@.len() - i,
        {
            proof {
                lemma_popcount_bound(self.bitfield@[i as int]);
                assert(self.words().take(i + 1).drop_last() =~= self.words().take(i as int));
                assert(64 * (i + 1) <= self.bit_count + 63);
            }
            total = total + count_ones(self.bitfield[i]) as usize;
            i = i + 1;
        }
        assert(self.words().take(self.bitfield@.len() as int) =~= self.words());
        total
    }

    /// Length of the serialized form, computed without serializing.
    pub fn byte_len(&self) -> (n: usize)
        requires
            self.well_formed(),
        ensures
            n == self.serialized_len(),
    {
        16 + self.bitfield.len() * 8
    }

    /// Number of bits of the filter.
    pub fn bit_count(&self) -> (n: usize)
        ensures
            n == self.size_in_bits(),
    {
        self.bit_count
    }

    /// Number of simulated hash functions.
    pub fn num_hashes(&self) -> (n: usize)
        ensures
            n == self.hash_count(),
    {
        self.num_hashes
    }
}

/// An inserted fingerprint is always admitted afterwards: the filter has no false
/// negatives.
pub proof fn lemma_insert_then_admits(before: BloomFilter, after: BloomFilter, fingerprint: u64)
    requires
        before.well_formed(),
        before.usable(),
        before.inserted(fingerprint, after),
    ensures
        after.admits(fingerprint),
{
    assert forall|i: usize| i < after.hash_count() implies #[trigger] after.is_set(
        probe(fingerprint, i, after.size_in_bits()) as int,
    ) by {
        let idx = probe(fingerprint, i, before.size_in_bits()) as int;
        lemma_bit_index_in_range(idx, before.size_in_bits() as int);
        assert(probed(fingerprint, before.hash_count(), before.size_in_bits(), idx));
    }
}

/// Filling with one more fingerprint is inserting it.
pub proof fn lemma_filled_step(start: BloomFilter, fps: Seq<u64>, mid: BloomFilter, fp: u64, after: BloomFilter)
    requires
        start.filled(fps, mid),
        mid.inserted(fp, after),
    ensures
        start.filled(fps.push(fp), after),
{
    let all = fps.push(fp);
    assert forall|idx: int| 0 <= idx < start.words().len() * 64 implies (#[trigger] after.is_set(idx)
        <==> start.is_set(idx) || exists|r: int|
        0 <= r < all.len() && probed(all[r], start.hash_count(), start.size_in_bits(), idx)) by {
        if after.is_set(idx) && !start.is_set(idx) {
            if probed(fp, start.hash_count(), start.size_in_bits(), idx) {
                assert(all[fps.len() as int] == fp);
            } else {
                assert(mid.is_set(idx));
                let r = choose|r: int|
                    0 <= r < fps.len() && probed(fps[r], start.hash_count(), start.size_in_bits(), idx);
                assert(all[r] == fps[r]);
            }
        }
        if exists|r: int| 0 <= r < all.len() && probed(all[r], start.hash_count(), start.size_in_bits(), idx) {
            let r = choose|r: int|
                0 <= r < all.len() && probed(all[r], start.hash_count(), start.size_in_bits(), idx);
            if r < fps.len() {
                assert(all[r] == fps[r]);
                assert(mid.is_set(idx));
            }
        }
    }
}

/// Every fingerprint filled into a filter is admitted by the result.
pub proof fn lemma_filled_admits_all(before: BloomFilter, fps: Seq<u64>, after: BloomFilter, r: int)
    requires
        before.well_formed(),
        before.usable(),
        before.filled(fps, after),
        0 <= r < fps.len(),
    ensures
        after.admits(fps[r]),
{
    assert forall|i: usize| i < after.hash_count() implies #[trigger] after.is_set(
        probe(fps[r], i, after.size_in_bits()) as int,
    ) by {
        let idx = probe(fps[r], i, before.size_in_bits()) as int;
        lemma_bit_index_in_range(idx, before.size_in_bits() as int);
        assert(probed(fps[r], before.hash_count(), before.size_in_bits(), idx));
    }
}

/// Inserting never withdraws an answer: whatever was admitted before an insertion
/// is still admitted after it.
pub proof fn lemma_insert_keeps_admitted(
    before: BloomFilter,
    after: BloomFilter,
    fingerprint: u64,
    other: u64,
)
    requires
        before.well_formed(),
        before.usable(),
        before.inserted(fingerprint, after),
        before.admits(other),
    ensures
        after.admits(other),
{
    assert forall|i: usize| i < after.hash_count() implies #[trigger] after.is_set(
        probe(other, i, after.size_in_bits()) as int,
    ) by {
        let idx = probe(other, i, before.size_in_bits()) as int;
        lemma_bit_index_in_range(idx, before.size_in_bits() as int);
        assert(before.is_set(idx));
    }
}

/// A filter whose bits are all clear admits no fingerprint, as long as it uses at
/// least one hash function.
pub proof fn lemma_empty_admits_nothing(filter: BloomFilter, fingerprint: u64)
    requires
        filter.well_formed(),
        filter.usable(),
        filter.hash_count() > 0,
        forall|i: int| 0 <= i < filter.words().len() ==> filter.words()[i] == 0u64,
    ensures
        !filter.admits(fingerprint),
{
    let idx = probe(fingerprint, 0, filter.size_in_bits()) as int;
    lemma_bit_index_in_range(idx, filter.size_in_bits() as int);
    let b = (idx % 64) as u64;
    assert(!bit_set(0u64, b)) by (bit_vector)
        requires
            b < 64,
    ;
    assert(!filter.is_set(idx));
}

/// Layout of the concatenated word encodings: eight bytes per word, in order.
pub proof fn lemma_words_le_bytes(words: Seq<u64>)
    ensures
        words_le_bytes(words).len() == 8 * words.len(),
        forall|i: int|
            0 <= i < words.len() ==> #[trigger] words_le_bytes(words).subrange(8 * i, 8 * i + 8)
                == spec_u64_to_le_bytes(words[i]),
    decreases words.len(),
{
    lemma_auto_spec_u64_to_from_le_bytes();
    if words.len() > 0 {
        let prev = words.drop_last();
        lemma_words_le_bytes(prev);
        let all = words_le_bytes(words);
        assert(all == words_le_bytes(prev) + spec_u64_to_le_bytes(words.last()));
        assert forall|i: int| 0 <= i < words.len() implies #[trigger] all.subrange(8 * i, 8 * i + 8)
            == spec_u64_to_le_bytes(words[i]) by {
            if i < words.len() - 1 {
                assert(all.subrange(8 * i, 8 * i + 8) =~= words_le_bytes(prev).subrange(8 * i, 8 * i + 8));
            } else {
                assert(all.subrange(8 * i, 8 * i + 8) =~= spec_u64_to_le_bytes(words.last()));
            }
        }
    }
}

/// The serialized form has the header's 16 bytes and eight bytes per word.
pub proof fn lemma_serialized_len(filter: BloomFilter)
    ensures
        filter.serialized().len() == filter.serialized_len(),
{
    lemma_auto_spec_u32_to_from_le_bytes();
    lemma_words_le_bytes(filter.words());
}

/// Inserting a fingerprint a second time changes nothing: the filter keeps its
/// parameters and bits, so it serializes to the same bytes.
pub proof fn lemma_insert_twice(before: BloomFilter, mid: BloomFilter, after: BloomFilter, fingerprint: u64)
    requires
        before.inserted(fingerprint, mid),
        mid.inserted(fingerprint, after),
    ensures
        same_filter(mid, after),
        after.serialized() == mid.serialized(),
{
    assert forall|k: int| 0 <= k < mid.words().len() implies #[trigger] after.words()[k] == mid.words()[k] by {
        assert forall|t: u64| t < 64 implies #[trigger] bit_set(after.words()[k], t) == bit_set(
            mid.words()[k],
            t,
        ) by {
            let idx = 64 * k + t;
            assert(idx / 64 == k && idx % 64 == t);
            assert(after.is_set(idx) == mid.is_set(idx));
        }
        lemma_bits_determine_word(after.words()[k], mid.words()[k]);
    }
    assert(after.words() =~= mid.words());
}

/// A filter decoded from some bytes serializes to no more than those bytes.
pub proof fn lemma_decoded_len(s: Seq<u8>, filter: BloomFilter)
    requires
        decodes_to(s, filter),
    ensures
        filter.serialized_len() <= s.len(),
{
}

/// Filters with the same parameters and bits give the same answers.
pub proof fn lemma_same_filter_same_answers(a: BloomFilter, b: BloomFilter, fingerprint: u64)
    requires
        same_filter(a, b),
    ensures
        a.admits(fingerprint) == b.admits(fingerprint),
        a.usable() == b.usable(),
        a.serialized_len() == b.serialized_len(),
{
    if a.admits(fingerprint) {
        assert forall|i: usize| i < b.hash_count() implies #[trigger] b.is_set(
            probe(fingerprint, i, b.size_in_bits()) as int,
        ) by {
            assert(a.is_set(probe(fingerprint, i, a.size_in_bits()) as int));
        }
    }
    if b.admits(fingerprint) {
        assert forall|i: usize| i < a.hash_count() implies #[trigger] a.is_set(
            probe(fingerprint, i, a.size_in_bits()) as int,
        ) by {
            assert(b.is_set(probe(fingerprint, i, b.size_in_bits()) as int));
        }
    }
}

/// A filter of at most `u32::MAX` bits serializes to fewer than 2^31 bytes.
pub proof fn lemma_serialized_len_bound(filter: BloomFilter)
    requires
        filter.well_formed(),
        filter.size_in_bits() <= u32::MAX,
    ensures
        filter.serialized_len() <= u32::MAX,
{
}

/// Serializing a filter whose parameters fit in 32 bits and deserializing the
/// bytes gives back the same filter.
pub proof fn lemma_serialization_roundtrip(filter: BloomFilter, decoded: BloomFilter)
    requires
        filter.well_formed(),
        filter.hash_count() <= u32::MAX,
        filter.size_in_bits() <= u32::MAX,
        filter.expected_capacity() <= u32::MAX,
    ensures
        bloom_bytes_complete(filter.serialized()),
        decodes_to(filter.serialized(), decoded) ==> same_filter(filter, decoded),
{
    lemma_auto_spec_u32_to_from_le_bytes();
    lemma_auto_spec_u64_to_from_le_bytes();
    let s = filter.serialized();
    let k = spec_u32_to_le_bytes(filter.hash_count() as u32);
    let m = spec_u32_to_le_bytes(filter.size_in_bits() as u32);
    let c = spec_u32_to_le_bytes(filter.expected_capacity() as u32);
    let words = filter.words();
    lemma_words_le_bytes(words);
    assert(s.subrange(0, 4) =~= k);
    assert(s.subrange(4, 8) =~= m);
    assert(s.subrange(8, 12) =~= c);
    assert(le_u32_at(s, 4) == filter.size_in_bits());
    let decoded_words = Seq::new(
        words_for(le_u32_at(s, 4) as int) as nat,
        |i: int| le_u64_at(s, 16 + 8 * i),
    );
    assert forall|i: int| 0 <= i < words.len() implies decoded_words[i] == words[i] by {
        assert(s.subrange(16 + 8 * i, 16 + 8 * i + 8) =~= words_le_bytes(words).subrange(8 * i, 8 * i + 8));
    }
    assert(decoded_words =~= words);
}

/// Position `idx < bit_count` lies within the words of a well-formed filter.
proof fn lemma_bit_index_in_range(idx: int, bit_count: int)
    requires
        0 <= idx < bit_count,
    ensures
        idx / 64 < words_for(bit_count),
        idx < words_for(bit_count) * 64,
{
}

/// Setting the word bit of position `idx` sets exactly that position.
proof fn lemma_word_set_bit(words: Seq<u64>, idx: int)
    requires
        0 <= idx < words.len() * 64,
    ensures
        forall|j: int|
            0 <= j < words.len() * 64 ==> #[trigger] word_bit(
                words.update(idx / 64, words[idx / 64] | (1u64 << ((idx % 64) as u64))),
                j,
            ) == (word_bit(words, j) || j == idx),
{
    let after = words.update(idx / 64, words[idx / 64] | (1u64 << ((idx % 64) as u64)));
    assert forall|j: int| 0 <= j < words.len() * 64 implies #[trigger] word_bit(after, j) == (
    word_bit(words, j) || j == idx) by {
        if j / 64 == idx / 64 {
            lemma_set_bit(words[idx / 64], (idx % 64) as u64, (j % 64) as u64);
        }
    }
}

/// Allowing one more hash function adds exactly its probe position.
proof fn lemma_probed_step(fingerprint: u64, i: usize, bit_count: usize)
    requires
        i < usize::MAX,
    ensures
        forall|j: int|
            #[trigger] probed(fingerprint, (i + 1) as usize, bit_count, j) == (probed(
                fingerprint,
                i,
                bit_count,
                j,
            ) || probe(fingerprint, i, bit_count) == j),
{
    assert forall|j: int|
        #[trigger] probed(fingerprint, (i + 1) as usize, bit_count, j) == (probed(
            fingerprint,
            i,
            bit_count,
            j,
        ) || probe(fingerprint, i, bit_count) == j) by {
        if probed(fingerprint, (i + 1) as usize, bit_count, j) {
            let k = choose|k: usize| k < i + 1 && #[trigger] probe(fingerprint, k, bit_count) == j;
            if k != i {
                assert(probed(fingerprint, i, bit_count, j));
            }
        }
        if probe(fingerprint, i, bit_count) == j {
            assert(probed(fingerprint, (i + 1) as usize, bit_count, j));
        }
        if probed(fingerprint, i, bit_count, j) {
            let k = choose|k: usize| k < i && #[trigger] probe(fingerprint, k, bit_count) == j;
            assert(probed(fingerprint, (i + 1) as usize, bit_count, j));
        }
    }
}

/// Setting bit `b` of `w` sets exactly that bit.
proof fn lemma_set_bit(w: u64, b: u64, j: u64)
    requires
        b < 64,
        j < 64,
    ensures
        bit_set(w | (1u64 << b), j) == (bit_set(w, j) || j == b),
{
    assert(bit_set(w | (1u64 << b), j) == (bit_set(w, j) || j == b)) by (bit_vector)
        requires
            b < 64,
            j < 64,
    ;
}

/// Masking with `1 << b` tests bit `b`.
proof fn lemma_test_bit(w: u64, b: u64)
    requires
        b < 64,
    ensures
        (w & (1u64 << b) == 0) == !bit_set(w, b),
{
    assert((w & (1u64 << b) == 0) == !bit_set(w, b)) by (bit_vector)
        requires
            b < 64,
    ;
}

} // verus!
