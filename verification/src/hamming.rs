//! The distance between two perceptual hashes, and the budget that a
//! threshold in percent allows.

use vstd::prelude::*;
use crate::entry::HASH_SIZE_BYTES;

verus! {

/// Number of bits in a perceptual hash.
pub const HASH_SIZE_BITS: u32 = 64;

/// Bit `k` of a byte, as 0 or 1.
pub open spec fn bit_at(x: u8, k: u8) -> u8 {
    (x >> k) & 1u8
}

/// Number of bits that are set in a byte.
pub open spec fn bit_count(x: u8) -> nat {
    (bit_at(x, 0) + bit_at(x, 1) + bit_at(x, 2) + bit_at(x, 3) + bit_at(x, 4) + bit_at(x, 5)
        + bit_at(x, 6) + bit_at(x, 7)) as nat
}

/// Number of bits in which the first `n` bytes of two sequences differ.
pub open spec fn differing_bits(a: Seq<u8>, b: Seq<u8>, n: int) -> nat
    decreases n,
{
    if n <= 0 {
        0
    } else {
        differing_bits(a, b, n - 1) + bit_count(a[n - 1] ^ b[n - 1])
    }
}

/// The Hamming distance of two hashes: the number of bits in which they
/// differ.
pub open spec fn hamming_spec(a: [u8; HASH_SIZE_BYTES], b: [u8; HASH_SIZE_BYTES]) -> nat {
    differing_bits(a@, b@, HASH_SIZE_BYTES as int)
}

/// The distance that a threshold in percent allows: that share of the bits
/// of a hash, rounded down.
pub open spec fn budget_spec(threshold_percent: u8) -> nat {
    (threshold_percent as nat * HASH_SIZE_BITS as nat) / 100
}

proof fn lemma_bits_of_byte(x: u8)
    ensures
        bit_at(x, 0) <= 1,
        bit_at(x, 1) <= 1,
        bit_at(x, 2) <= 1,
        bit_at(x, 3) <= 1,
        bit_at(x, 4) <= 1,
        bit_at(x, 5) <= 1,
        bit_at(x, 6) <= 1,
        bit_at(x, 7) <= 1,
        bit_count(x) <= 8,
        bit_count(x) == 0 <==> x == 0,
{
    assert((x >> 0u8) & 1u8 <= 1 && (x >> 1u8) & 1u8 <= 1 && (x >> 2u8) & 1u8 <= 1 && (x >> 3u8)
        & 1u8 <= 1 && (x >> 4u8) & 1u8 <= 1 && (x >> 5u8) & 1u8 <= 1 && (x >> 6u8) & 1u8 <= 1 && (x
        >> 7u8) & 1u8 <= 1) by (bit_vector);
    assert(x == 0 <==> ((x >> 0u8) & 1u8 == 0 && (x >> 1u8) & 1u8 == 0 && (x >> 2u8) & 1u8 == 0
        && (x >> 3u8) & 1u8 == 0 && (x >> 4u8) & 1u8 == 0 && (x >> 5u8) & 1u8 == 0 && (x >> 6u8)
        & 1u8 == 0 && (x >> 7u8) & 1u8 == 0)) by (bit_vector);
}

/// The distance of the first `n` bytes is at most eight times `n`, it is the
/// same in both directions, and it is 0 exactly when the bytes are the same.
pub proof fn lemma_differing_bits(a: Seq<u8>, b: Seq<u8>, n: int)
    requires
        0 <= n <= a.len(),
        n <= b.len(),
    ensures
        differing_bits(a, b, n) <= 8 * n,
        differing_bits(a, b, n) == differing_bits(b, a, n),
        differing_bits(a, b, n) == 0 <==> (forall|i: int| 0 <= i < n ==> a[i] == b[i]),
    decreases n,
{
    if n > 0 {
        lemma_differing_bits(a, b, n - 1);
        let x = a[n - 1];
        let y = b[n - 1];
        lemma_bits_of_byte(x ^ y);
        assert(x ^ y == y ^ x) by (bit_vector);
        assert(x ^ y == 0 <==> x == y) by (bit_vector);
    }
}

/// The Hamming distance is at most the number of bits of a hash, it is the
/// same in both directions, and it is 0 exactly between equal hashes.
pub proof fn lemma_hamming(a: [u8; HASH_SIZE_BYTES], b: [u8; HASH_SIZE_BYTES])
    ensures
        hamming_spec(a, b) <= HASH_SIZE_BITS,
        hamming_spec(a, b) == hamming_spec(b, a),
        hamming_spec(a, b) == 0 <==> a == b,
{
    lemma_differing_bits(a@, b@, HASH_SIZE_BYTES as int);
    if hamming_spec(a, b) == 0 {
        assert(a =~= b);
    }
}

/// Number of bits that are set in `x`.
fn count_bits(x: u8) -> (n: u32)
    ensures
        n == bit_count(x),
        n <= 8,
{
    proof {
        lemma_bits_of_byte(x);
    }
    let n: u8 = ((x >> 0u8) & 1u8) + ((x >> 1u8) & 1u8) + ((x >> 2u8) & 1u8) + ((x >> 3u8) & 1u8)
        + ((x >> 4u8) & 1u8) + ((x >> 5u8) & 1u8) + ((x >> 6u8) & 1u8) + ((x >> 7u8) & 1u8);
    n as u32
}

/// The Hamming distance of two hashes.
pub fn hamming_distance(a: &[u8; HASH_SIZE_BYTES], b: &[u8; HASH_SIZE_BYTES]) -> (d: u32)
    ensures
        d == hamming_spec(*a, *b),
        d <= HASH_SIZE_BITS,
{
    let mut d: u32 = 0;
    let mut i: usize = 0;
    while i < HASH_SIZE_BYTES
        invariant
            i <= HASH_SIZE_BYTES,
            d == differing_bits(a@, b@, i as int),
            d <= 8 * i,
        decreases HASH_SIZE_BYTES - i,
    {
        d = d + count_bits(a[i] ^ b[i]);
        i = i + 1;
    }
    d
}

/// The distance that a threshold in percent allows. A threshold of 100 and
/// more allows every distance.
pub fn distance_budget(threshold_percent: u8) -> (budget: u32)
    ensures
        budget == budget_spec(threshold_percent),
        threshold_percent >= 100 ==> budget >= HASH_SIZE_BITS,
{
    let scaled: u32 = threshold_percent as u32 * HASH_SIZE_BITS;
    scaled / 100
}

} // verus!
