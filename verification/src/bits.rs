//! Word-level bit arithmetic shared by the fingerprint, hypervector and
//! Bloom filter code: population count and rotation of 64-bit words.

use vstd::prelude::*;

verus! {

/// Whether bit `i` (counted from the least significant end) of `x` is set.
pub open spec fn bit_set(x: u64, i: u64) -> bool {
    (x >> i) & 1 == 1
}

/// Number of set bits among the `n` lowest bits of `x`.
pub open spec fn ones_below(x: u64, n: nat) -> nat
    decreases n,
{
    if n == 0 {
        0
    } else {
        ones_below(x, (n - 1) as nat) + if bit_set(x, (n - 1) as u64) {
            1nat
        } else {
            0nat
        }
    }
}

/// Number of set bits of a 64-bit word.
pub open spec fn popcount(x: u64) -> nat {
    ones_below(x, 64)
}

/// Number of bit positions in which two words differ.
pub open spec fn hamming(a: u64, b: u64) -> nat {
    popcount(a ^ b)
}

/// `x` rotated right by `r` positions (modulo the word width).
pub open spec fn rotr(x: u64, r: u64) -> u64 {
    if r % 64 == 0 {
        x
    } else {
        (x >> (r % 64)) | (x << ((64 - r % 64) as u64))
    }
}

pub proof fn lemma_ones_below_bound(x: u64, n: nat)
    ensures
        ones_below(x, n) <= n,
    decreases n,
{
    if n > 0 {
        lemma_ones_below_bound(x, (n - 1) as nat);
    }
}

/// A word has at most 64 set bits.
pub proof fn lemma_popcount_bound(x: u64)
    ensures
        popcount(x) <= 64,
{
    lemma_ones_below_bound(x, 64);
}

proof fn lemma_ones_below_zero(n: nat)
    requires
        n <= 64,
    ensures
        ones_below(0, n) == 0,
    decreases n,
{
    if n > 0 {
        let k = (n - 1) as u64;
        assert((0u64 >> k) & 1 == 0) by (bit_vector);
        lemma_ones_below_zero((n - 1) as nat);
    }
}

proof fn lemma_ones_below_full(n: nat)
    requires
        n <= 64,
    ensures
        ones_below(0xffff_ffff_ffff_ffffu64, n) == n,
    decreases n,
{
    if n > 0 {
        let k = (n - 1) as u64;
        assert(k < 64 ==> (0xffff_ffff_ffff_ffffu64 >> k) & 1 == 1) by (bit_vector);
        lemma_ones_below_full((n - 1) as nat);
    }
}

/// The empty word has no set bit, the full word has all 64.
pub proof fn lemma_popcount_extremes()
    ensures
        popcount(0) == 0,
        popcount(0xffff_ffff_ffff_ffffu64) == 64,
{
    lemma_ones_below_zero(64);
    lemma_ones_below_full(64);
}

/// Hamming distance on words is a symmetric measure that vanishes on equal words
/// and never exceeds the word width.
pub proof fn lemma_hamming_basics(a: u64, b: u64)
    ensures
        hamming(a, a) == 0,
        hamming(a, b) == hamming(b, a),
        hamming(a, b) <= 64,
        hamming(a, b) == 0 <==> a == b,
{
    assert(a ^ a == 0) by (bit_vector);
    assert(a ^ b == b ^ a) by (bit_vector);
    lemma_popcount_extremes();
    lemma_popcount_bound(a ^ b);
    if a != b {
        assert(a ^ b != 0) by (bit_vector)
            requires
                a != b,
        ;
        lemma_popcount_nonzero(a ^ b);
    }
}

proof fn lemma_ones_below_nonzero(x: u64, n: nat)
    requires
        n <= 64,
        x != 0,
        x >> (n as u64) == 0,
    ensures
        ones_below(x, n) > 0,
    decreases n,
{
    let k = (n - 1) as u64;
    assert(n > 0) by {
        if n == 0 {
            assert(x >> 0u64 == x) by (bit_vector);
        }
    }
    if (x >> k) & 1 == 1 {
        lemma_ones_below_bound(x, (n - 1) as nat);
    } else {
        assert(x >> k == 0) by (bit_vector)
            requires
                k < 64,
                x >> ((k + 1) as u64) == 0,
                (x >> k) & 1 != 1,
        ;
        lemma_ones_below_nonzero(x, (n - 1) as nat);
    }
}

/// A nonzero word has a set bit.
pub proof fn lemma_popcount_nonzero(x: u64)
    requires
        x != 0,
    ensures
        popcount(x) > 0,
{
    assert(x >> 64u64 == 0) by (bit_vector);
    lemma_ones_below_nonzero(x, 64);
}

/// Setting bit `k` of `x` leaves the other bits as they were.
pub proof fn lemma_bit_set_or(x: u64, k: u64, t: u64)
    requires
        k < 64,
        t < 64,
    ensures
        bit_set(x | (1u64 << k), t) == (bit_set(x, t) || t == k),
{
    assert(((x | (1u64 << k)) >> t) & 1 == 1 <==> ((x >> t) & 1 == 1 || t == k)) by (bit_vector)
        requires
            k < 64,
            t < 64,
    ;
}

/// The lowest bit of `x >> k` is 1 exactly when bit `k` is set, and 0 otherwise.
pub proof fn lemma_low_bit(x: u64, k: u64)
    requires
        k < 64,
    ensures
        (x >> k) & 1 <= 1,
        bit_set(x, k) == ((x >> k) & 1 == 1),
{
    assert((x >> k) & 1 <= 1) by (bit_vector);
}

proof fn lemma_set_bit_found(x: u64, n: nat)
    requires
        n <= 64,
        ones_below(x, n) > 0,
    ensures
        exists|t: u64| t < n && #[trigger] bit_set(x, t),
    decreases n,
{
    if !bit_set(x, (n - 1) as u64) {
        lemma_set_bit_found(x, (n - 1) as nat);
    }
}

/// Two words with the same 64 bits are equal.
pub proof fn lemma_bits_determine_word(x: u64, y: u64)
    requires
        forall|t: u64| t < 64 ==> #[trigger] bit_set(x, t) == bit_set(y, t),
    ensures
        x == y,
{
    if x != y {
        let z = x ^ y;
        assert(z != 0) by (bit_vector)
            requires
                x != y,
                z == x ^ y,
        ;
        lemma_popcount_nonzero(z);
        lemma_set_bit_found(z, 64);
        let t = choose|t: u64| t < 64 && #[trigger] bit_set(z, t);
        assert(((x ^ y) >> t) & 1 == 1 ==> ((x >> t) & 1 == 1) != ((y >> t) & 1 == 1)) by (bit_vector)
            requires
                t < 64,
        ;
        assert(bit_set(x, t) == bit_set(y, t));
    }
}

/// Number of bit positions below `n` in which `x` and `y` differ.
pub open spec fn differing_below(x: u64, y: u64, n: nat) -> nat
    decreases n,
{
    if n == 0 {
        0
    } else {
        differing_below(x, y, (n - 1) as nat) + if bit_set(x, (n - 1) as u64) != bit_set(y, (n - 1) as u64) {
            1nat
        } else {
            0nat
        }
    }
}

proof fn lemma_ones_below_xor(x: u64, y: u64, n: nat)
    requires
        n <= 64,
    ensures
        ones_below(x ^ y, n) == differing_below(x, y, n),
    decreases n,
{
    if n > 0 {
        lemma_ones_below_xor(x, y, (n - 1) as nat);
        let t = (n - 1) as u64;
        assert((((x ^ y) >> t) & 1 == 1) == (((x >> t) & 1 == 1) != ((y >> t) & 1 == 1))) by (bit_vector)
            requires
                t < 64,
        ;
    }
}

/// The Hamming distance of two words is the number of bit positions in which
/// they differ.
pub proof fn lemma_hamming_counts_differing_bits(x: u64, y: u64)
    ensures
        hamming(x, y) == differing_below(x, y, 64),
{
    lemma_ones_below_xor(x, y, 64);
}

/// `u64::count_ones`: the number of ones in the binary representation of `x`.
#[verifier::external_body]
pub(crate) fn count_ones(x: u64) -> (r: u32)
    ensures
        r == popcount(x),
{
    x.count_ones()
}

/// Rotates `x` right by `r` bit positions, the amount taken modulo 64.
pub(crate) fn rotate_right(x: u64, r: u32) -> (y: u64)
    ensures
        y == rotr(x, r as u64),
{
    let s = r % 64;
    if s == 0 {
        x
    } else {
        (x >> s) | (x << (64 - s))
    }
}

/// Rotating right by `r` and then by `64 - r` restores the word.
pub proof fn lemma_rotr_inverse(x: u64, r: u64)
    requires
        r < 64,
    ensures
        rotr(rotr(x, r), (64 - r) as u64) == x,
{
    if r != 0 {
        let y = (x >> r) | (x << ((64 - r) as u64));
        assert(((y >> ((64 - r) as u64)) | (y << r)) == x) by (bit_vector)
            requires
                0 < r < 64,
                y == (x >> r) | (x << ((64 - r) as u64)),
        ;
        assert((64 - r) as u64 % 64 == 64 - r);
        assert(64 - (64 - r) as u64 % 64 == r);
    }
}

} // verus!
