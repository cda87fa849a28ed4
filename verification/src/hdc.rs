//! 1024-bit hypervectors: XOR binding, word and bit permutation, majority
//! bundling and Hamming distance.
//!
//! A hypervector is viewed as the sequence of its sixteen 64-bit words.

use vstd::prelude::*;
use vstd::bytes::{
    lemma_auto_spec_u64_to_from_le_bytes, spec_u64_from_le_bytes, spec_u64_to_le_bytes,
    u64_from_le_bytes, u64_to_le_bytes,
};
use vstd::wrapping::u64_specs;
use crate::bits::{bit_set, count_ones, differing_below, lemma_hamming_counts_differing_bits, hamming, lemma_bit_set_or, lemma_bits_determine_word, lemma_hamming_basics, lemma_low_bit, lemma_popcount_bound, lemma_rotr_inverse, popcount, rotate_right, rotr};
use crate::bloom::{lemma_words_le_bytes, le_u64_at, words_le_bytes};
use crate::fingerprint::{fingerprint_of, fingerprints_for, fingerprints_of, multi_fingerprint, nth_seed};

verus! {

/// Number of 64-bit words in a hypervector (1024 bits).
pub const HYPERVECTOR_WORDS: usize = 16;

/// Number of atomic fingerprints bundled into a text hypervector.
pub const BUNDLE_SIZE: usize = 16;

/// Multiplier of the seed and position mixing in [`HyperVector::from_seed`].
pub const SEED_MIX: u64 = 0x9E37_79B9_7F4A_7C15;

/// Word sequence with every word zero.
pub open spec fn zero_words() -> Seq<u64> {
    Seq::new(16, |i: int| 0u64)
}

/// Word sequence with every word `fp`.
pub open spec fn broadcast(fp: u64) -> Seq<u64> {
    Seq::new(16, |i: int| fp)
}

/// Word-wise XOR.
pub open spec fn xor_words(a: Seq<u64>, b: Seq<u64>) -> Seq<u64> {
    Seq::new(16, |i: int| a[i] ^ b[i])
}

/// Words rotated by `shift` positions: word `i` of the result is word
/// `i - shift` (modulo 16) of `a`.
pub open spec fn rotate_words(a: Seq<u64>, shift: int) -> Seq<u64> {
    Seq::new(16, |i: int| a[(i + 16 - shift % 16) % 16])
}

/// Every word rotated right by `bits` bit positions (modulo 64).
pub open spec fn bit_rotate_words(a: Seq<u64>, bits: int) -> Seq<u64> {
    Seq::new(16, |i: int| rotr(a[i], (bits % 64) as u64))
}

/// Number of elements of `s` that satisfy `p`.
pub open spec fn count_where<A>(s: Seq<A>, p: spec_fn(A) -> bool) -> nat
    decreases s.len(),
{
    if s.len() == 0 {
        0
    } else {
        count_where(s.drop_last(), p) + if p(s.last()) {
            1nat
        } else {
            0nat
        }
    }
}

/// Whether bit `b` of word `w` of a vector is set: the vector's bit at position
/// `64 w + b`.
pub open spec fn bit_of(w: int, b: u64) -> spec_fn(Seq<u64>) -> bool {
    |v: Seq<u64>| bit_set(v[w], b)
}

/// Number of the vectors of `vs` whose bit `b` of word `w` is set.
pub open spec fn ones_at(vs: Seq<Seq<u64>>, w: int, b: u64) -> nat {
    count_where(vs, bit_of(w, b))
}

/// Majority rule for one bit position: more than half of the vectors have it set.
pub open spec fn majority_bit(vs: Seq<Seq<u64>>, w: int, b: u64) -> bool {
    2 * ones_at(vs, w, b) > vs.len()
}

/// Word `w` of the majority of `vs`, with its `n` lowest bits assembled.
pub open spec fn majority_word_upto(vs: Seq<Seq<u64>>, w: int, n: nat) -> u64
    decreases n,
{
    if n == 0 {
        0
    } else {
        let prev = majority_word_upto(vs, w, (n - 1) as nat);
        if majority_bit(vs, w, (n - 1) as u64) {
            prev | (1u64 << ((n - 1) as u64))
        } else {
            prev
        }
    }
}

/// Per-bit majority of vectors: each of the 1024 bits is set exactly when more
/// than half of the vectors have it set.
pub open spec fn majority(vs: Seq<Seq<u64>>) -> Seq<u64> {
    Seq::new(16, |w: int| majority_word_upto(vs, w, 64))
}

/// The word sequences of a sequence of vectors.
pub open spec fn views_of(vs: Seq<HyperVector>) -> Seq<Seq<u64>> {
    Seq::new(vs.len(), |i: int| vs[i]@)
}

/// The broadcast vectors of a sequence of fingerprints.
pub open spec fn broadcasts(fps: Seq<u64>) -> Seq<Seq<u64>> {
    Seq::new(fps.len(), |i: int| broadcast(fps[i]))
}

/// Bag-of-words code of fingerprints: the majority of their broadcasts; zero when
/// there are none.
pub open spec fn word_bundle(fps: Seq<u64>) -> Seq<u64> {
    if fps.len() == 0 {
        zero_words()
    } else {
        majority(broadcasts(fps))
    }
}

/// Contribution of the fingerprint at position `i` of a sequence: its broadcast,
/// word-rotated by `i` at even positions and bit-rotated by `7 i` at odd ones.
pub open spec fn position_code(fp: u64, i: int) -> Seq<u64> {
    if i % 2 == 0 {
        rotate_words(broadcast(fp), i % 16)
    } else {
        bit_rotate_words(broadcast(fp), (i * 7) % 64)
    }
}

/// Order-sensitive code of a fingerprint sequence: XOR of the position codes.
pub open spec fn sequence_code(fps: Seq<u64>) -> Seq<u64>
    decreases fps.len(),
{
    if fps.len() == 0 {
        zero_words()
    } else {
        xor_words(sequence_code(fps.drop_last()), position_code(fps.last(), fps.len() - 1))
    }
}

/// Word `i` of the vector generated from `seed`.
pub open spec fn seed_word(seed: u64, i: int) -> u64 {
    rotr(
        u64_specs::wrapping_add(
            u64_specs::wrapping_mul(seed, SEED_MIX),
            u64_specs::wrapping_mul(i as u64, SEED_MIX),
        ),
        (3 * i) as u64,
    )
}

/// Sum of the Hamming distances of the first `n` word pairs.
pub open spec fn hamming_upto(a: Seq<u64>, b: Seq<u64>, n: nat) -> nat
    decreases n,
{
    if n == 0 {
        0
    } else {
        hamming_upto(a, b, (n - 1) as nat) + hamming(a[n - 1], b[n - 1])
    }
}

/// Number of differing bits between two 1024-bit vectors.
pub open spec fn hamming_words(a: Seq<u64>, b: Seq<u64>) -> nat {
    hamming_upto(a, b, 16)
}

/// Number of set bits among the first `n` words.
pub open spec fn popcount_upto(a: Seq<u64>, n: nat) -> nat
    decreases n,
{
    if n == 0 {
        0
    } else {
        popcount_upto(a, (n - 1) as nat) + popcount(a[n - 1])
    }
}

/// Number of set bits of a 1024-bit vector.
pub open spec fn popcount_words(a: Seq<u64>) -> nat {
    popcount_upto(a, 16)
}

/// A 1024-bit hypervector stored as sixteen 64-bit words.
#[derive(Debug, Clone, Copy)]
pub struct HyperVector(pub [u64; HYPERVECTOR_WORDS]);

impl View for HyperVector {
    type V = Seq<u64>;

    open spec fn view(&self) -> Seq<u64> {
        self.0@
    }
}

impl PartialEq for HyperVector {
    fn eq(&self, other: &Self) -> (equal: bool) {
        let mut i: usize = 0;
        while i < HYPERVECTOR_WORDS
            invariant
                i <= 16,
                forall|j: int| 0 <= j < i ==> self.0@[j] == other.0@[j],
            decreases 16 - i,
        {
            if self.0[i] != other.0[i] {
                return false;
            }
            i = i + 1;
        }
        assert(self.0@ =~= other.0@);
        true
    }
}

impl vstd::std_specs::cmp::PartialEqSpecImpl for HyperVector {
    open spec fn obeys_eq_spec() -> bool {
        true
    }

    open spec fn eq_spec(&self, other: &HyperVector) -> bool {
        self@ == other@
    }
}

impl Eq for HyperVector {

}

impl Default for HyperVector {
    fn default() -> (hv: Self)
        ensures
            hv@ == zero_words(),
    {
        HyperVector::zero()
    }
}

impl HyperVector {
    /// The zero vector.
    pub fn zero() -> (hv: Self)
        ensures
            hv@ == zero_words(),
    {
        let hv = HyperVector([0u64; 16]);
        assert(hv@ =~= zero_words());
        hv
    }

    /// The vector with every bit set.
    pub fn all_ones() -> (hv: Self)
        ensures
            hv@ == broadcast(0xffff_ffff_ffff_ffffu64),
    {
        let hv = HyperVector([0xffff_ffff_ffff_ffffu64; 16]);
        assert(hv@ =~= broadcast(0xffff_ffff_ffff_ffffu64));
        hv
    }

    /// Broadcasts a fingerprint to all sixteen words.
    pub fn from_fingerprint(fp: u64) -> (hv: Self)
        ensures
            hv@ == broadcast(fp),
    {
        let hv = HyperVector([fp; 16]);
        assert(hv@ =~= broadcast(fp));
        hv
    }

    /// A pseudo-random but deterministic vector: word `i` is
    /// `seed * K + i * K` (wrapping) rotated right by `3 i` bits.
    pub fn from_seed(seed: u64) -> (hv: Self)
        ensures
            hv@ == Seq::new(16, |i: int| seed_word(seed, i)),
    {
        let mut words = [0u64; 16];
        let mut i: usize = 0;
        while i < HYPERVECTOR_WORDS
            invariant
                i <= 16,
                words@.len() == 16,
                forall|j: int| 0 <= j < i ==> #[trigger] words@[j] == seed_word(seed, j),
            decreases 16 - i,
        {
            let mixed = seed.wrapping_mul(SEED_MIX).wrapping_add((i as u64).wrapping_mul(SEED_MIX));
            words[i] = rotate_right(mixed, i as u32 * 3);
            i = i + 1;
        }
        let hv = HyperVector(words);
        assert(hv@ =~= Seq::new(16, |i: int| seed_word(seed, i)));
        hv
    }

    /// Semantic vector of a text: the zero vector bundled by majority with the
    /// broadcasts of the text's sixteen atomic fingerprints (consecutive seeds from
    /// `seed`).
    pub fn from_text(text: &str, seed: u64) -> (hv: Self)
        ensures
            hv@ == majority(
                seq![zero_words()] + broadcasts(
                    Seq::new(16, |i: int| fingerprint_of(text@, nth_seed(seed, i))),
                ),
            ),
    {
        let fps = multi_fingerprint(text, seed, BUNDLE_SIZE);
        assert(fps@ =~= Seq::new(16, |i: int| fingerprint_of(text@, nth_seed(seed, i))));
        let atomics = broadcast_all(fps.as_slice());
        let zero = HyperVector::zero();
        zero.bundle(atomics.as_slice())
    }

    /// Reads a vector from 128 bytes, eight little-endian bytes per word.
    pub fn from_raw(bytes: &[u8; 128]) -> (hv: Self)
        ensures
            hv@ == Seq::new(16, |i: int| le_u64_at(bytes@, 8 * i)),
    {
        let mut words = [0u64; 16];
        let mut i: usize = 0;
        while i < HYPERVECTOR_WORDS
            invariant
                i <= 16,
                words@.len() == 16,
                bytes@.len() == 128,
                forall|j: int| 0 <= j < i ==> #[trigger] words@[j] == le_u64_at(bytes@, 8 * j),
            decreases 16 - i,
        {
            let offset = i * 8;
            words[i] = u64_from_le_bytes(&bytes.as_slice()[offset..offset + 8]);
            i = i + 1;
        }
        let hv = HyperVector(words);
        assert(hv@ =~= Seq::new(16, |i: int| le_u64_at(bytes@, 8 * i)));
        hv
    }

    /// The 128-byte representation: each word as eight little-endian bytes.
    pub fn to_raw(&self) -> (bytes: [u8; 128])
        ensures
            bytes@ == words_le_bytes(self@),
    {
        let mut bytes = [0u8; 128];
        let mut i: usize = 0;
        proof {
            lemma_words_le_bytes(self@);
            lemma_auto_spec_u64_to_from_le_bytes();
        }
        while i < HYPERVECTOR_WORDS
            invariant
                i <= 16,
                bytes@.len() == 128,
                self@.len() == 16,
                words_le_bytes(self@).len() == 128,
                forall|j: int| 0 <= j < 16 ==> #[trigger] words_le_bytes(self@).subrange(8 * j, 8 * j + 8)
                    == spec_u64_to_le_bytes(self@[j]),
                forall|p: int| 0 <= p < 8 * i ==> #[trigger] bytes@[p] == words_le_bytes(self@)[p],
            decreases 16 - i,
        {
            let chunk = u64_to_le_bytes(self.0[i]);
            let mut k: usize = 0;
            while k < 8
                invariant
                    i < 16,
                    k <= 8,
                    bytes@.len() == 128,
                    chunk@ == spec_u64_to_le_bytes(self@[i as int]),
                    chunk@.len() == 8,
                    words_le_bytes(self@).len() == 128,
                    words_le_bytes(self@).subrange(8 * i, 8 * i + 8) == spec_u64_to_le_bytes(self@[i as int]),
                    forall|p: int| 0 <= p < 8 * i + k ==> #[trigger] bytes@[p] == words_le_bytes(self@)[p],
                decreases 8 - k,
            {
                bytes[i * 8 + k] = chunk[k];
                proof {
                    assert(words_le_bytes(self@).subrange(8 * i, 8 * i + 8)[k as int] == words_le_bytes(self@)[8 * i + k]);
                }
                k = k + 1;
            }
            i = i + 1;
        }
        assert(bytes@ =~= words_le_bytes(self@));
        bytes
    }

    /// XOR binding of two vectors.
    pub fn xor(&self, other: &HyperVector) -> (hv: Self)
        ensures
            hv@ == xor_words(self@, other@),
    {
        let mut words = [0u64; 16];
        let mut i: usize = 0;
        while i < HYPERVECTOR_WORDS
            invariant
                i <= 16,
                words@.len() == 16,
                forall|j: int| 0 <= j < i ==> #[trigger] words@[j] == self@[j] ^ other@[j],
            decreases 16 - i,
        {
            words[i] = self.0[i] ^ other.0[i];
            i = i + 1;
        }
        let hv = HyperVector(words);
        assert(hv@ =~= xor_words(self@, other@));
        hv
    }

    /// XOR binding with a broadcast fingerprint.
    pub fn xor_fp(&self, fp: u64) -> (hv: Self)
        ensures
            hv@ == xor_words(self@, broadcast(fp)),
    {
        let mut words = [0u64; 16];
        let mut i: usize = 0;
        while i < HYPERVECTOR_WORDS
            invariant
                i <= 16,
                words@.len() == 16,
                forall|j: int| 0 <= j < i ==> #[trigger] words@[j] == self@[j] ^ fp,
            decreases 16 - i,
        {
            words[i] = self.0[i] ^ fp;
            i = i + 1;
        }
        let hv = HyperVector(words);
        assert(hv@ =~= xor_words(self@, broadcast(fp)));
        hv
    }

    /// Permutes the words: rotation by `shift` word positions (modulo 16).
    pub fn rotate(&self, shift: usize) -> (hv: Self)
        ensures
            hv@ == rotate_words(self@, shift as int),
    {
        let shift = shift % HYPERVECTOR_WORDS;
        if shift == 0 {
            assert(self@ =~= rotate_words(self@, 0));
            return *self;
        }
        let mut words = [0u64; 16];
        let mut i: usize = 0;
        while i < HYPERVECTOR_WORDS
            invariant
                i <= 16,
                0 < shift < 16,
                words@.len() == 16,
                forall|j: int| 0 <= j < i ==> #[trigger] words@[j] == self@[(j + 16 - shift) % 16],
            decreases 16 - i,
        {
            words[i] = self.0[(i + HYPERVECTOR_WORDS - shift) % HYPERVECTOR_WORDS];
            i = i + 1;
        }
        let hv = HyperVector(words);
        assert(hv@ =~= rotate_words(self@, shift as int));
        hv
    }

    /// Rotates every word right by `bits` bit positions (modulo 64).
    pub fn bit_rotate(&self, bits: usize) -> (hv: Self)
        ensures
            hv@ == bit_rotate_words(self@, bits as int),
    {
        let b = (bits % 64) as u32;
        let mut words = [0u64; 16];
        let mut i: usize = 0;
        while i < HYPERVECTOR_WORDS
            invariant
                i <= 16,
                b == bits % 64,
                words@.len() == 16,
                forall|j: int| 0 <= j < i ==> #[trigger] words@[j] == rotr(self@[j], (bits % 64) as u64),
            decreases 16 - i,
        {
            words[i] = rotate_right(self.0[i], b);
            i = i + 1;
        }
        let hv = HyperVector(words);
        assert(hv@ =~= bit_rotate_words(self@, bits as int));
        hv
    }

    /// Bundles this vector with the given vectors by majority rule: each of the
    /// 1024 bits of the result is set exactly when more than half of the inputs
    /// (this vector and the others) have it set.
    pub fn bundle(&self, others: &[HyperVector]) -> (hv: Self)
        ensures
            hv@ == majority(seq![self@] + views_of(others@)),
            forall|w: int, b: u64|
                0 <= w < 16 && b < 64 ==> (#[trigger] bit_set(hv@[w], b) <==> 2 * ones_at(
                    seq![self@] + views_of(others@),
                    w,
                    b,
                ) > others@.len() + 1),
    {
        let ghost all = seq![self@] + views_of(others@);
        let n: u128 = others.len() as u128 + 1;
        let mut words = [0u64; 16];
        let mut w: usize = 0;
        while w < HYPERVECTOR_WORDS
            invariant
                w <= 16,
                words@.len() == 16,
                all == seq![self@] + views_of(others@),
                n == all.len(),
                forall|j: int| 0 <= j < w ==> #[trigger] words@[j] == majority(all)[j],
            decreases 16 - w,
        {
            let mut word: u64 = 0;
            let mut b: u64 = 0;
            while b < 64
                invariant
                    w < 16,
                    b <= 64,
                    all == seq![self@] + views_of(others@),
                    n == all.len(),
                    word == majority_word_upto(all, w as int, b as nat),
                decreases 64 - b,
            {
                proof {
                    lemma_low_bit(self@[w as int], b);
                    assert(all.take(1).drop_last() =~= Seq::<Seq<u64>>::empty());
                    assert(all.take(1).last() == self@);
                    assert(count_where(Seq::<Seq<u64>>::empty(), bit_of(w as int, b)) == 0);
                }
                let mut count: u128 = ((self.0[w] >> b) & 1) as u128;
                let mut k: usize = 0;
                while k < others.len()
                    invariant
                        w < 16,
                        b < 64,
                        k <= others@.len(),
                        all == seq![self@] + views_of(others@),
                        count == ones_at(all.take(k + 1), w as int, b),
                        count <= k + 1,
                    decreases others@.len() - k,
                {
                    proof {
                        lemma_low_bit(others@[k as int]@[w as int], b);
                        assert(all.take(k + 2).drop_last() =~= all.take(k + 1));
                        assert(all.take(k + 2).last() == others@[k as int]@);
                    }
                    count = count + ((others[k].0[w] >> b) & 1) as u128;
                    k = k + 1;
                }
                proof {
                    assert(all.take(others@.len() as int + 1) =~= all);
                }
                if 2 * count > n {
                    word = word | (1u64 << b);
                }
                b = b + 1;
            }
            words[w] = word;
            w = w + 1;
        }
        let hv = HyperVector(words);
        assert(hv@ =~= majority(all));
        assert forall|w: int, b: u64| 0 <= w < 16 && b < 64 implies (#[trigger] bit_set(hv@[w], b) <==> 2
            * ones_at(all, w, b) > others@.len() + 1) by {
            lemma_majority_bits(all, w, b);
        }
        hv
    }

    /// Number of bits in which the two vectors differ.
    pub fn hamming_distance(&self, other: &HyperVector) -> (d: u32)
        ensures
            d == hamming_words(self@, other@),
    {
        let mut distance: u32 = 0;
        let mut i: usize = 0;
        while i < HYPERVECTOR_WORDS
            invariant
                i <= 16,
                distance == hamming_upto(self@, other@, i as nat),
                distance <= 64 * i,
            decreases 16 - i,
        {
            proof {
                lemma_hamming_basics(self@[i as int], other@[i as int]);
            }
            distance = distance + count_ones(self.0[i] ^ other.0[i]);
            i = i + 1;
        }
        distance
    }

    /// Total number of set bits.
    pub fn popcount(&self) -> (n: u32)
        ensures
            n == popcount_words(self@),
    {
        let mut total: u32 = 0;
        let mut i: usize = 0;
        while i < HYPERVECTOR_WORDS
            invariant
                i <= 16,
                total == popcount_upto(self@, i as nat),
                total <= 64 * i,
            decreases 16 - i,
        {
            proof {
                lemma_popcount_bound(self@[i as int]);
            }
            total = total + count_ones(self.0[i]);
            i = i + 1;
        }
        total
    }

    /// Whether every word is zero.
    pub fn is_zero(&self) -> (zero: bool)
        ensures
            zero == (self@ == zero_words()),
    {
        let mut i: usize = 0;
        while i < HYPERVECTOR_WORDS
            invariant
                i <= 16,
                forall|j: int| 0 <= j < i ==> self@[j] == 0u64,
            decreases 16 - i,
        {
            if self.0[i] != 0 {
                assert(self@[i as int] != zero_words()[i as int]);
                return false;
            }
            i = i + 1;
        }
        assert(self@ =~= zero_words());
        true
    }
}

/// Order-sensitive code of precomputed fingerprints: the XOR of each broadcast
/// fingerprint, word-rotated at even positions and bit-rotated at odd ones.
pub fn permute_fingerprints(fps: &[u64]) -> (hv: HyperVector)
    ensures
        hv@ == sequence_code(fps@),
{
    let mut result = HyperVector::zero();
    let mut i: usize = 0;
    while i < fps.len()
        invariant
            i <= fps@.len(),
            result@ == sequence_code(fps@.take(i as int)),
        decreases fps@.len() - i,
    {
        let mut hv = HyperVector::from_fingerprint(fps[i]);
        if i % 2 == 0 {
            hv = hv.rotate(i % HYPERVECTOR_WORDS);
        } else {
            let bits = ((i % 64) * 7) % 64;
            proof {
                lemma_times7_mod64(i as int);
            }
            hv = hv.bit_rotate(bits);
            assert(bit_rotate_words(broadcast(fps@[i as int]), bits as int) =~= bit_rotate_words(
                broadcast(fps@[i as int]),
                (i * 7) % 64,
            ));
        }
        result = result.xor(&hv);
        proof {
            assert(fps@.take(i + 1).drop_last() =~= fps@.take(i as int));
        }
        i = i + 1;
    }
    assert(fps@.take(fps@.len() as int) =~= fps@);
    result
}

proof fn lemma_times7_mod64(i: int)
    requires
        i >= 0,
    ensures
        ((i % 64) * 7) % 64 == (i * 7) % 64,
{
    assert(((i % 64) * 7) % 64 == (i * 7) % 64) by (nonlinear_arith)
        requires
            i >= 0,
    ;
}

/// Encodes a sequence of words order-sensitively: XOR of the position-dependent
/// rotations of the words' fingerprint broadcasts.
pub fn permute_sequence(words: &[&str], seed: u64) -> (hv: HyperVector)
    ensures
        hv@ == sequence_code(fingerprints_of(words@, seed)),
{
    let fps = fingerprints_for(words, seed);
    permute_fingerprints(fps.as_slice())
}

/// The broadcast vectors of the given fingerprints.
fn broadcast_all(fps: &[u64]) -> (hvs: Vec<HyperVector>)
    ensures
        hvs@.len() == fps@.len(),
        views_of(hvs@) == broadcasts(fps@),
{
    let mut hvs: Vec<HyperVector> = Vec::new();
    let mut i: usize = 0;
    while i < fps.len()
        invariant
            i <= fps@.len(),
            hvs@.len() == i,
            forall|j: int| 0 <= j < i ==> #[trigger] hvs@[j]@ == broadcast(fps@[j]),
        decreases fps@.len() - i,
    {
        hvs.push(HyperVector::from_fingerprint(fps[i]));
        i = i + 1;
    }
    assert(views_of(hvs@) =~= broadcasts(fps@));
    hvs
}

/// Bag-of-words code of precomputed fingerprints: the first broadcast bundled
/// with the others by majority; the zero vector when there are none.
pub fn bundle_fingerprints(fps: &[u64]) -> (hv: HyperVector)
    ensures
        hv@ == word_bundle(fps@),
{
    if fps.len() == 0 {
        return HyperVector::zero();
    }
    let hvs = broadcast_all(fps);
    let rest = &hvs.as_slice()[1..hvs.len()];
    let first = hvs[0];
    let hv = first.bundle(rest);
    assert(seq![first@] + views_of(rest@) =~= broadcasts(fps@)) by {
        assert(rest@ =~= hvs@.subrange(1, hvs@.len() as int));
        assert(views_of(hvs@)[0] == first@);
    }
    hv
}

/// Encodes a bag of words by majority bundling of their fingerprint broadcasts.
pub fn bundle_words(words: &[&str], seed: u64) -> (hv: HyperVector)
    ensures
        hv@ == word_bundle(fingerprints_of(words@, seed)),
{
    let fps = fingerprints_for(words, seed);
    bundle_fingerprints(fps.as_slice())
}

/// Number of bit positions `(w, t)`, `w < n`, `t < 64`, in which the word
/// sequences differ.
pub open spec fn differing_bits_upto(a: Seq<u64>, b: Seq<u64>, n: nat) -> nat
    decreases n,
{
    if n == 0 {
        0
    } else {
        differing_bits_upto(a, b, (n - 1) as nat) + differing_below(a[n - 1], b[n - 1], 64)
    }
}

proof fn lemma_hamming_upto_counts_bits(a: Seq<u64>, b: Seq<u64>, n: nat)
    ensures
        hamming_upto(a, b, n) == differing_bits_upto(a, b, n),
    decreases n,
{
    if n > 0 {
        lemma_hamming_upto_counts_bits(a, b, (n - 1) as nat);
        lemma_hamming_counts_differing_bits(a[n - 1], b[n - 1]);
    }
}

/// The Hamming distance of two hypervectors is the number of their 1024 bit
/// positions (bit `t` of word `w`) in which they differ.
pub proof fn lemma_hamming_words_counts_bits(a: Seq<u64>, b: Seq<u64>)
    ensures
        hamming_words(a, b) == differing_bits_upto(a, b, 16),
{
    lemma_hamming_upto_counts_bits(a, b, 16);
}

/// Appending a fingerprint at position `n` of a sequence XORs into every word
/// the fingerprint itself when `n` is even, and the fingerprint rotated right by
/// `7 n mod 64` bits when `n` is odd; the empty sequence has the zero code.
pub proof fn lemma_sequence_code_push(fps: Seq<u64>, fp: u64)
    ensures
        sequence_code(Seq::<u64>::empty()) == zero_words(),
        forall|w: int|
            0 <= w < 16 ==> #[trigger] sequence_code(fps.push(fp))[w] == sequence_code(fps)[w] ^ (if fps.len()
                % 2 == 0 {
                fp
            } else {
                rotr(fp, ((7 * fps.len()) % 64) as u64)
            }),
{
    let n = fps.len() as int;
    let s = fps.push(fp);
    assert(s.drop_last() =~= fps);
    assert(s.last() == fp);
    assert(sequence_code(s) == xor_words(sequence_code(fps), position_code(fp, n)));
    assert forall|w: int| 0 <= w < 16 implies #[trigger] sequence_code(s)[w] == sequence_code(fps)[w] ^ (if n
        % 2 == 0 {
        fp
    } else {
        rotr(fp, ((7 * n) % 64) as u64)
    }) by {
        if n % 2 == 0 {
            let k = (w + 16 - (n % 16) % 16) % 16;
            assert(0 <= k < 16);
            assert(position_code(fp, n)[w] == broadcast(fp)[k]);
        } else {
            assert((n * 7) % 64 % 64 == (7 * n) % 64) by (nonlinear_arith)
                requires
                    n >= 0,
            ;
            assert(position_code(fp, n)[w] == rotr(fp, ((n * 7) % 64 % 64) as u64));
        }
    }
}

/// Each bit of the bag-of-words code of a nonempty sequence of fingerprints, in
/// every word, is set exactly when more than half of the fingerprints have that
/// bit set.
pub proof fn lemma_word_bundle_bits(fps: Seq<u64>, w: int, b: u64)
    requires
        fps.len() > 0,
        0 <= w < 16,
        b < 64,
    ensures
        bit_set(word_bundle(fps)[w], b) <==> 2 * count_where(fps, fp_bit(b)) > fps.len(),
{
    lemma_majority_bits(broadcasts(fps), w, b);
    lemma_broadcast_ones(fps, w, b);
}

/// Whether bit `b` of a fingerprint is set.
pub open spec fn fp_bit(b: u64) -> spec_fn(u64) -> bool {
    |fp: u64| bit_set(fp, b)
}

proof fn lemma_broadcast_ones(fps: Seq<u64>, w: int, b: u64)
    requires
        0 <= w < 16,
    ensures
        ones_at(broadcasts(fps), w, b) == count_where(fps, fp_bit(b)),
    decreases fps.len(),
{
    if fps.len() > 0 {
        lemma_broadcast_ones(fps.drop_last(), w, b);
        assert(broadcasts(fps).drop_last() =~= broadcasts(fps.drop_last()));
        assert(broadcasts(fps).last()[w] == fps.last());
    }
}

/// XOR binding is self-inverse: binding with `b` twice gives back `a`.
pub proof fn lemma_xor_self_inverse(a: Seq<u64>, b: Seq<u64>)
    requires
        a.len() == 16,
        b.len() == 16,
    ensures
        xor_words(xor_words(a, b), b) == a,
{
    assert forall|i: int| 0 <= i < 16 implies #[trigger] xor_words(xor_words(a, b), b)[i] == a[i] by {
        let x = a[i];
        let y = b[i];
        assert((x ^ y) ^ y == x) by (bit_vector);
    }
    assert(xor_words(xor_words(a, b), b) =~= a);
}

/// XOR binding is commutative.
pub proof fn lemma_xor_commutative(a: Seq<u64>, b: Seq<u64>)
    ensures
        xor_words(a, b) == xor_words(b, a),
{
    assert forall|i: int| 0 <= i < 16 implies #[trigger] xor_words(a, b)[i] == xor_words(b, a)[i] by {
        let x = a[i];
        let y = b[i];
        assert(x ^ y == y ^ x) by (bit_vector);
    }
    assert(xor_words(a, b) =~= xor_words(b, a));
}

proof fn lemma_hamming_upto(a: Seq<u64>, b: Seq<u64>, n: nat)
    requires
        n <= 16,
        a.len() == 16,
        b.len() == 16,
    ensures
        hamming_upto(a, a, n) == 0,
        hamming_upto(a, b, n) == hamming_upto(b, a, n),
        hamming_upto(a, b, n) <= 64 * n,
        hamming_upto(a, b, n) == 0 <==> (forall|i: int| 0 <= i < n ==> a[i] == b[i]),
    decreases n,
{
    if n > 0 {
        lemma_hamming_upto(a, b, (n - 1) as nat);
        lemma_hamming_basics(a[n - 1], b[n - 1]);
        lemma_hamming_basics(a[n - 1], a[n - 1]);
        if hamming_upto(a, b, n) == 0 {
            assert forall|i: int| 0 <= i < n implies a[i] == b[i] by {
                if i < n - 1 {
                }
            }
        }
    }
}

/// Hamming distance of hypervectors is zero exactly on equal vectors, symmetric,
/// and at most 1024.
pub proof fn lemma_hamming_words_basics(a: Seq<u64>, b: Seq<u64>)
    requires
        a.len() == 16,
        b.len() == 16,
    ensures
        hamming_words(a, a) == 0,
        hamming_words(a, b) == hamming_words(b, a),
        hamming_words(a, b) <= 1024,
        hamming_words(a, b) == 0 <==> a == b,
{
    lemma_hamming_upto(a, b, 16);
    if hamming_words(a, b) == 0 {
        assert(a =~= b);
    }
}

/// Binding both vectors with the same vector preserves their Hamming distance.
pub proof fn lemma_xor_preserves_distance(a: Seq<u64>, b: Seq<u64>, c: Seq<u64>)
    ensures
        hamming_words(xor_words(a, c), xor_words(b, c)) == hamming_words(a, b),
{
    let ac = xor_words(a, c);
    let bc = xor_words(b, c);
    assert forall|n: nat| n <= 16 implies #[trigger] hamming_upto(ac, bc, n) == hamming_upto(a, b, n) by {
        lemma_hamming_upto_xor(a, b, c, n);
    }
}

proof fn lemma_hamming_upto_xor(a: Seq<u64>, b: Seq<u64>, c: Seq<u64>, n: nat)
    requires
        n <= 16,
    ensures
        hamming_upto(xor_words(a, c), xor_words(b, c), n) == hamming_upto(a, b, n),
    decreases n,
{
    if n > 0 {
        lemma_hamming_upto_xor(a, b, c, (n - 1) as nat);
        let x = a[n - 1];
        let y = b[n - 1];
        let z = c[n - 1];
        assert((x ^ z) ^ (y ^ z) == x ^ y) by (bit_vector);
    }
}

/// Rotating the words by `shift` and then by `16 - shift % 16` gives back the vector.
pub proof fn lemma_rotate_inverse(a: Seq<u64>, shift: int)
    requires
        a.len() == 16,
        shift >= 0,
    ensures
        rotate_words(rotate_words(a, shift), 16 - shift % 16) == a,
{
    let r = rotate_words(rotate_words(a, shift), 16 - shift % 16);
    assert forall|i: int| 0 <= i < 16 implies #[trigger] r[i] == a[i] by {
        let s = shift % 16;
        let t = (16 - s) % 16;
        let j = (i + 16 - t) % 16;
        let k = (j + 16 - s) % 16;
        assert(k == i);
    }
    assert(r =~= a);
}

/// Rotating every word right by `bits` and then by `64 - bits % 64` gives back the
/// vector.
pub proof fn lemma_bit_rotate_inverse(a: Seq<u64>, bits: int)
    requires
        a.len() == 16,
        bits >= 0,
    ensures
        bit_rotate_words(bit_rotate_words(a, bits), 64 - bits % 64) == a,
{
    let r = bit_rotate_words(bit_rotate_words(a, bits), 64 - bits % 64);
    assert forall|i: int| 0 <= i < 16 implies #[trigger] r[i] == a[i] by {
        let b = (bits % 64) as u64;
        lemma_rotr_inverse(a[i], b);
        assert(((64 - bits % 64) % 64) as u64 == ((64 - b) as u64) % 64);
        if b == 0 {
            assert(rotr(a[i], 0) == a[i]);
        }
    }
    assert(r =~= a);
}

/// Reading back the 128-byte representation of a vector gives the vector.
pub proof fn lemma_raw_roundtrip(a: Seq<u64>)
    requires
        a.len() == 16,
    ensures
        Seq::new(16, |i: int| le_u64_at(words_le_bytes(a), 8 * i)) == a,
{
    lemma_words_le_bytes(a);
    lemma_auto_spec_u64_to_from_le_bytes();
    let r = Seq::new(16, |i: int| le_u64_at(words_le_bytes(a), 8 * i));
    assert forall|i: int| 0 <= i < 16 implies #[trigger] r[i] == a[i] by {
        assert(words_le_bytes(a).subrange(8 * i, 8 * i + 8) == spec_u64_to_le_bytes(a[i]));
    }
    assert(r =~= a);
}

/// Writing out the vector read from 128 bytes gives back the bytes.
pub proof fn lemma_raw_bytes_roundtrip(bytes: Seq<u8>)
    requires
        bytes.len() == 128,
    ensures
        words_le_bytes(Seq::new(16, |i: int| le_u64_at(bytes, 8 * i))) == bytes,
{
    let words = Seq::new(16, |i: int| le_u64_at(bytes, 8 * i));
    lemma_words_le_bytes(words);
    lemma_auto_spec_u64_to_from_le_bytes();
    let out = words_le_bytes(words);
    assert forall|p: int| 0 <= p < 128 implies #[trigger] out[p] == bytes[p] by {
        let i = p / 8;
        assert(out.subrange(8 * i, 8 * i + 8) == spec_u64_to_le_bytes(words[i]));
        assert(bytes.subrange(8 * i, 8 * i + 8).len() == 8);
        assert(spec_u64_to_le_bytes(spec_u64_from_le_bytes(bytes.subrange(8 * i, 8 * i + 8)))
            == bytes.subrange(8 * i, 8 * i + 8));
        assert(out.subrange(8 * i, 8 * i + 8)[p - 8 * i] == out[p]);
        assert(bytes.subrange(8 * i, 8 * i + 8)[p - 8 * i] == bytes[p]);
    }
    assert(out =~= bytes);
}

proof fn lemma_majority_word_bits(vs: Seq<Seq<u64>>, w: int, n: nat, t: u64)
    requires
        n <= 64,
        t < 64,
    ensures
        bit_set(majority_word_upto(vs, w, n), t) == (t < n && majority_bit(vs, w, t)),
    decreases n,
{
    if n == 0 {
        assert((0u64 >> t) & 1 != 1) by (bit_vector);
    } else {
        lemma_majority_word_bits(vs, w, (n - 1) as nat, t);
        if majority_bit(vs, w, (n - 1) as u64) {
            lemma_bit_set_or(majority_word_upto(vs, w, (n - 1) as nat), (n - 1) as u64, t);
        }
    }
}

/// Bit `b` of word `w` of the majority of `vs` (its bit at position `64 w + b`) is
/// set exactly when more than half of the vectors have that bit set.
pub proof fn lemma_majority_bits(vs: Seq<Seq<u64>>, w: int, b: u64)
    requires
        0 <= w < 16,
        b < 64,
    ensures
        bit_set(majority(vs)[w], b) == majority_bit(vs, w, b),
{
    lemma_majority_word_bits(vs, w, 64, b);
}

proof fn lemma_majority_same_bits(a: Seq<Seq<u64>>, b: Seq<Seq<u64>>)
    requires
        forall|w: int, t: u64| 0 <= w < 16 && t < 64 ==> #[trigger] majority_bit(a, w, t) == majority_bit(b, w, t),
    ensures
        majority(a) == majority(b),
{
    assert forall|w: int| 0 <= w < 16 implies #[trigger] majority(a)[w] == majority(b)[w] by {
        assert forall|t: u64| t < 64 implies #[trigger] bit_set(majority(a)[w], t) == bit_set(majority(b)[w], t) by {
            lemma_majority_bits(a, w, t);
            lemma_majority_bits(b, w, t);
        }
        lemma_bits_determine_word(majority(a)[w], majority(b)[w]);
    }
    assert(majority(a) =~= majority(b));
}

proof fn lemma_count_where_remove<A>(s: Seq<A>, p: spec_fn(A) -> bool, i: int)
    requires
        0 <= i < s.len(),
    ensures
        count_where(s, p) == count_where(s.remove(i), p) + if p(s[i]) {
            1nat
        } else {
            0nat
        },
    decreases s.len(),
{
    if i == s.len() - 1 {
        assert(s.remove(i) =~= s.drop_last());
    } else {
        let t = s.drop_last();
        lemma_count_where_remove(t, p, i);
        assert(s.remove(i).drop_last() =~= t.remove(i));
        assert(s.remove(i).last() == s.last());
    }
}

/// Counting the elements that satisfy a predicate does not depend on their order.
proof fn lemma_count_where_permutation<A>(s1: Seq<A>, s2: Seq<A>, p: spec_fn(A) -> bool)
    requires
        s1.to_multiset() == s2.to_multiset(),
    ensures
        count_where(s1, p) == count_where(s2, p),
    decreases s1.len(),
{
    broadcast use vstd::seq_lib::group_to_multiset_ensures;

    vstd::seq_lib::to_multiset_len(s1);
    vstd::seq_lib::to_multiset_len(s2);
    if s1.len() == 0 {
        assert(s2.len() == 0);
    } else {
        let a = s1.last();
        let rest = s1.drop_last();
        assert(rest.push(a) =~= s1);
        assert(s1.to_multiset() == rest.to_multiset().insert(a));
        assert(s2.to_multiset().count(a) > 0);
        assert(s2.contains(a));
        let i = choose|i: int| 0 <= i < s2.len() && s2[i] == a;
        assert(s2.remove(i).to_multiset() == s2.to_multiset().remove(a));
        assert(rest.to_multiset() =~= s2.remove(i).to_multiset());
        lemma_count_where_permutation(rest, s2.remove(i), p);
        lemma_count_where_remove(s2, p, i);
    }
}

/// Bundling does not depend on the order of the inputs: any reordering of the
/// vectors gives the same majority.
pub proof fn lemma_majority_order_independent(a: Seq<Seq<u64>>, b: Seq<Seq<u64>>)
    requires
        a.to_multiset() == b.to_multiset(),
    ensures
        majority(a) == majority(b),
{
    broadcast use vstd::seq_lib::group_to_multiset_ensures;

    vstd::seq_lib::to_multiset_len(a);
    vstd::seq_lib::to_multiset_len(b);
    assert(a.len() == b.len());
    assert forall|w: int, t: u64| 0 <= w < 16 && t < 64 implies #[trigger] majority_bit(a, w, t) == majority_bit(
        b,
        w,
        t,
    ) by {
        lemma_count_where_permutation(a, b, bit_of(w, t));
    }
    lemma_majority_same_bits(a, b);
}

/// Bundling a vector with nothing gives the vector back.
pub proof fn lemma_majority_of_one(a: Seq<u64>)
    requires
        a.len() == 16,
    ensures
        majority(seq![a]) == a,
{
    let vs = seq![a];
    assert(vs.drop_last() =~= Seq::<Seq<u64>>::empty());
    assert(vs.last() == a);
    assert forall|w: int| 0 <= w < 16 implies #[trigger] majority(vs)[w] == a[w] by {
        assert forall|t: u64| t < 64 implies #[trigger] bit_set(majority(vs)[w], t) == bit_set(a[w], t) by {
            lemma_majority_bits(vs, w, t);
            assert(count_where(Seq::<Seq<u64>>::empty(), bit_of(w, t)) == 0);
            assert(ones_at(vs, w, t) == if bit_set(a[w], t) { 1nat } else { 0nat });
        }
        lemma_bits_determine_word(majority(vs)[w], a[w]);
    }
    assert(majority(vs) =~= a);
}

proof fn lemma_word_ones<'a>(ws: Seq<&'a str>, seed: u64, w: int, t: u64, q: spec_fn(&'a str) -> bool)
    requires
        0 <= w < 16,
        forall|s: &'a str| #[trigger] q(s) == bit_set(fingerprint_of(s@, seed), t),
    ensures
        ones_at(broadcasts(fingerprints_of(ws, seed)), w, t) == count_where(ws, q),
    decreases ws.len(),
{
    if ws.len() > 0 {
        lemma_word_ones(ws.drop_last(), seed, w, t, q);
        assert(broadcasts(fingerprints_of(ws, seed)).drop_last() =~= broadcasts(
            fingerprints_of(ws.drop_last(), seed),
        ));
        assert(q(ws.last()) == bit_set(fingerprint_of(ws.last()@, seed), t));
    }
}

/// A bag of words gives the same code whatever the order of its words.
pub proof fn lemma_bundle_words_order_independent<'a>(w1: Seq<&'a str>, w2: Seq<&'a str>, seed: u64)
    requires
        w1.to_multiset() == w2.to_multiset(),
    ensures
        word_bundle(fingerprints_of(w1, seed)) == word_bundle(fingerprints_of(w2, seed)),
{
    broadcast use vstd::seq_lib::group_to_multiset_ensures;

    vstd::seq_lib::to_multiset_len(w1);
    vstd::seq_lib::to_multiset_len(w2);
    assert(w1.len() == w2.len());
    if w1.len() > 0 {
        let a = broadcasts(fingerprints_of(w1, seed));
        let b = broadcasts(fingerprints_of(w2, seed));
        assert forall|w: int, t: u64| 0 <= w < 16 && t < 64 implies #[trigger] majority_bit(a, w, t)
            == majority_bit(b, w, t) by {
            let q = |s: &'a str| bit_set(fingerprint_of(s@, seed), t);
            lemma_word_ones(w1, seed, w, t, q);
            lemma_word_ones(w2, seed, w, t, q);
            lemma_count_where_permutation(w1, w2, q);
        }
        lemma_majority_same_bits(a, b);
    }
}

/// A broadcast fingerprint holds sixteen copies of the fingerprint's set bits.
pub proof fn lemma_broadcast_popcount(fp: u64)
    ensures
        popcount_words(broadcast(fp)) == 16 * popcount(fp),
{
    assert forall|n: nat| n <= 16 implies #[trigger] popcount_upto(broadcast(fp), n) == n * popcount(fp) by {
        lemma_broadcast_popcount_upto(fp, n);
    }
}

proof fn lemma_broadcast_popcount_upto(fp: u64, n: nat)
    requires
        n <= 16,
    ensures
        popcount_upto(broadcast(fp), n) == n * popcount(fp),
    decreases n,
{
    if n > 0 {
        lemma_broadcast_popcount_upto(fp, (n - 1) as nat);
        assert(broadcast(fp)[n - 1] == fp);
        let p = popcount(fp);
        let m = (n - 1) as nat;
        assert(n * p == m * p + p) by (nonlinear_arith)
            requires
                n == m + 1,
        ;
    } else {
        assert(0 * popcount(fp) == 0);
    }
}

} // verus!
