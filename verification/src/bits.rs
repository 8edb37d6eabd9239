//! The bits of 64-bit hashes and the distance between two of them.
use vstd::prelude::*;

verus! {

/// Bit `i` of `x`, counted from the least significant one.
pub open spec fn bit(x: u64, i: int) -> bool {
    (x >> (i as u64)) & 1 == 1
}

/// How many of the lowest `k` bits of `x` are set.
pub open spec fn ones_below(x: u64, k: nat) -> nat
    decreases k,
{
    if k == 0 {
        0
    } else {
        ones_below(x, (k - 1) as nat) + if bit(x, k - 1) {
            1nat
        } else {
            0nat
        }
    }
}

/// At how many of the lowest `k` positions `a` and `b` hold different bits.
pub open spec fn differing_below(a: u64, b: u64, k: nat) -> nat
    decreases k,
{
    if k == 0 {
        0
    } else {
        differing_below(a, b, (k - 1) as nat) + if bit(a, k - 1) != bit(b, k - 1) {
            1nat
        } else {
            0nat
        }
    }
}

/// The Hamming distance: at how many positions `a` and `b` hold different bits.
pub open spec fn hamming(a: u64, b: u64) -> nat {
    differing_below(a, b, 64)
}

/// `u64::count_ones` of the standard library: the number of ones in the binary
/// representation.
pub assume_specification[ u64::count_ones ](x: u64) -> (r: u32)
    ensures
        r == ones_below(x, 64),
;

proof fn lemma_xor_differs(a: u64, b: u64, k: nat)
    requires
        k <= 64,
    ensures
        ones_below(a ^ b, k) == differing_below(a, b, k),
    decreases k,
{
    if k > 0 {
        let i = (k - 1) as u64;
        lemma_xor_differs(a, b, (k - 1) as nat);
        assert((((a ^ b) >> i) & 1 == 1) == (((a >> i) & 1 == 1) != ((b >> i) & 1 == 1)))
            by (bit_vector)
            requires
                i < 64,
        ;
    }
}

/// The Hamming distance between two 64-bit hashes.
pub fn hamming_distance(a: u64, b: u64) -> (r: u32)
    ensures
        r == hamming(a, b),
{
    proof {
        lemma_xor_differs(a, b, 64);
    }
    (a ^ b).count_ones()
}

/// The Hamming distance between two perceptual hashes.
pub fn phash_distance(a: u64, b: u64) -> (r: u32)
    ensures
        r == hamming(a, b),
{
    hamming_distance(a, b)
}

proof fn lemma_differing_bounds(a: u64, b: u64, k: nat)
    ensures
        differing_below(a, b, k) <= k,
        differing_below(a, b, k) == differing_below(b, a, k),
        differing_below(a, a, k) == 0,
    decreases k,
{
    if k > 0 {
        lemma_differing_bounds(a, b, (k - 1) as nat);
    }
}

proof fn lemma_differing_triangle(a: u64, b: u64, c: u64, k: nat)
    ensures
        differing_below(a, c, k) <= differing_below(a, b, k) + differing_below(b, c, k),
    decreases k,
{
    if k > 0 {
        lemma_differing_triangle(a, b, c, (k - 1) as nat);
    }
}

proof fn lemma_no_difference(a: u64, b: u64, k: nat)
    requires
        differing_below(a, b, k) == 0,
    ensures
        forall|i: int| 0 <= i < k ==> bit(a, i) == bit(b, i),
    decreases k,
{
    if k > 0 {
        lemma_no_difference(a, b, (k - 1) as nat);
    }
}

proof fn lemma_low_bits_agree(a: u64, b: u64, k: nat)
    requires
        k <= 63,
        forall|i: int| 0 <= i < k ==> bit(a, i) == bit(b, i),
    ensures
        a << ((64 - k) as u64) == b << ((64 - k) as u64) || k == 0,
    decreases k,
{
    if k > 0 {
        let j = (64 - k) as u64;
        let i = (k - 1) as u64;
        lemma_low_bits_agree(a, b, (k - 1) as nat);
        assert(bit(a, i as int) == bit(b, i as int));
        if k == 1 {
            assert(a << 63 == b << 63) by (bit_vector)
                requires
                    ((a >> 0) & 1 == 1) == ((b >> 0) & 1 == 1),
            ;
        } else {
            let j1 = (j + 1) as u64;
            assert(a << j == b << j) by (bit_vector)
                requires
                    j < 63,
                    j1 == j + 1,
                    i == 63 - j,
                    a << j1 == b << j1,
                    ((a >> i) & 1 == 1) == ((b >> i) & 1 == 1),
            ;
        }
    }
}

/// A hash is its bits: two that agree at every position are equal.
pub proof fn bits_determine_the_hash(a: u64, b: u64)
    requires
        forall|i: int| 0 <= i < 64 ==> bit(a, i) == bit(b, i),
    ensures
        a == b,
{
    lemma_low_bits_agree(a, b, 63);
    assert(bit(a, 63) == bit(b, 63));
    assert(a == b) by (bit_vector)
        requires
            a << 1 == b << 1,
            ((a >> 63) & 1 == 1) == ((b >> 63) & 1 == 1),
    ;
}

proof fn lemma_differing_xor(a: u64, b: u64, c: u64, k: nat)
    requires
        k <= 64,
    ensures
        differing_below(a ^ c, b ^ c, k) == differing_below(a, b, k),
    decreases k,
{
    if k > 0 {
        let i = (k - 1) as u64;
        lemma_differing_xor(a, b, c, (k - 1) as nat);
        assert(((((a ^ c) >> i) & 1 == 1) != (((b ^ c) >> i) & 1 == 1)) == (((a >> i) & 1 == 1)
            != ((b >> i) & 1 == 1))) by (bit_vector)
            requires
                i < 64,
        ;
    }
}

proof fn lemma_differing_complement(a: u64, k: nat)
    requires
        k <= 64,
    ensures
        differing_below(a, !a, k) == k,
    decreases k,
{
    if k > 0 {
        let i = (k - 1) as u64;
        lemma_differing_complement(a, (k - 1) as nat);
        assert(((a >> i) & 1 == 1) != ((!a >> i) & 1 == 1)) by (bit_vector)
            requires
                i < 64,
        ;
    }
}

proof fn lemma_differing_flip(a: u64, b: u64, k: u64, m: nat)
    requires
        k < 64,
        m <= 64,
    ensures
        m <= k ==> differing_below(a, b ^ (1u64 << k), m) == differing_below(a, b, m),
        m > k && (a >> k) & 1 == (b >> k) & 1 ==> differing_below(a, b ^ (1u64 << k), m)
            == differing_below(a, b, m) + 1,
        m > k && (a >> k) & 1 != (b >> k) & 1 ==> differing_below(a, b ^ (1u64 << k), m) + 1
            == differing_below(a, b, m),
    decreases m,
{
    if m > 0 {
        let i = (m - 1) as u64;
        lemma_differing_flip(a, b, k, (m - 1) as nat);
        assert((((b ^ (1u64 << k)) >> i) & 1 == 1) == (((b >> i) & 1 == 1) != (i == k)))
            by (bit_vector)
            requires
                i < 64,
                k < 64,
        ;
        assert(((a >> k) & 1 == 1 || (a >> k) & 1 == 0) && ((b >> k) & 1 == 1 || (b >> k) & 1
            == 0)) by (bit_vector)
            requires
                k < 64,
        ;
    }
}

/// Each bit counts for one: a hash is at no distance from itself, and flipping bit `k` of
/// one of two hashes takes them one step apart where that bit was the same in both, and one
/// step together where it was not.
pub proof fn each_bit_counts_for_one(a: u64, b: u64, k: u64)
    requires
        k < 64,
    ensures
        hamming(a, a) == 0,
        (a >> k) & 1 == (b >> k) & 1 ==> hamming(a, b ^ (1u64 << k)) == hamming(a, b) + 1,
        (a >> k) & 1 != (b >> k) & 1 ==> hamming(a, b ^ (1u64 << k)) + 1 == hamming(a, b),
{
    lemma_differing_bounds(a, a, 64);
    lemma_differing_flip(a, b, k, 64);
}

/// The distance stays where the same bits are flipped in both hashes, and is largest, 64,
/// between a hash and its complement.
pub proof fn hamming_under_flips(a: u64, b: u64, c: u64)
    ensures
        hamming(a ^ c, b ^ c) == hamming(a, b),
        hamming(a, !a) == 64,
{
    lemma_differing_xor(a, b, c, 64);
    lemma_differing_complement(a, 64);
}

/// The distance between hashes is a metric with values up to 64: it is zero just between
/// equal hashes, the same in both directions, and a detour is never shorter.
pub proof fn hamming_is_a_metric(a: u64, b: u64, c: u64)
    ensures
        hamming(a, b) <= 64,
        hamming(a, b) == 0 <==> a == b,
        hamming(a, b) == hamming(b, a),
        hamming(a, c) <= hamming(a, b) + hamming(b, c),
{
    lemma_differing_bounds(a, b, 64);
    lemma_differing_triangle(a, b, c, 64);
    if hamming(a, b) == 0 {
        lemma_no_difference(a, b, 64);
        bits_determine_the_hash(a, b);
    }
}

} // verus!
