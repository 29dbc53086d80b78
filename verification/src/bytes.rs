//! Counting the bits in which two byte sequences differ.

use vstd::prelude::*;

verus! {

/// The longest byte sequence that the distance and estimation functions take:
/// eight bits per byte must still be countable in a `u64`.
pub const MAX_BYTES: u64 = 0x1fff_ffff_ffff_ffff;

/// The number of set bits among the `n` lowest bits of `b`.
pub open spec fn low_bits_set(b: u8, n: nat) -> nat
    decreases n,
{
    if n == 0 {
        0
    } else {
        low_bits_set(b, (n - 1) as nat) + ((b >> ((n - 1) as u8)) & 1u8) as nat
    }
}

/// The population count of a byte.
pub open spec fn bits_set(b: u8) -> nat {
    low_bits_set(b, 8)
}

/// The bits that differ over the first `n` aligned positions, each sequence
/// read cyclically.
pub open spec fn distance_upto(a: Seq<u8>, b: Seq<u8>, n: nat) -> nat
    decreases n,
{
    if n == 0 {
        0
    } else {
        distance_upto(a, b, (n - 1) as nat) + bits_set(
            a[(n - 1) % (a.len() as int)] ^ b[(n - 1) % (b.len() as int)],
        )
    }
}

/// The bit distance of two byte sequences: the differing bits over as many
/// positions as the longer one has, the shorter one repeated cyclically.
/// Where either is empty there is no position to compare and the distance is 0.
pub open spec fn bit_distance(a: Seq<u8>, b: Seq<u8>) -> nat {
    if a.len() == 0 || b.len() == 0 {
        0
    } else if a.len() >= b.len() {
        distance_upto(a, b, a.len())
    } else {
        distance_upto(a, b, b.len())
    }
}

/// Among `n` bits at most `n` are set.
proof fn lemma_low_bits_set_bound(b: u8, n: nat)
    requires
        n <= 8,
    ensures
        low_bits_set(b, n) <= n,
    decreases n,
{
    if n > 0 {
        lemma_low_bits_set_bound(b, (n - 1) as nat);
        let i = (n - 1) as u8;
        assert((b >> i) & 1u8 <= 1u8) by (bit_vector);
    }
}

/// Each position adds eight bits at most.
proof fn lemma_distance_upto_bound(a: Seq<u8>, b: Seq<u8>, n: nat)
    ensures
        distance_upto(a, b, n) <= 8 * n,
    decreases n,
{
    if n > 0 {
        lemma_distance_upto_bound(a, b, (n - 1) as nat);
        lemma_low_bits_set_bound(a[(n - 1) % (a.len() as int)] ^ b[(n - 1) % (b.len() as int)], 8);
    }
}

/// The distance never exceeds eight bits for each position of the longer
/// sequence: between sequences of one length it lies between 0 and eight
/// times that length.
pub proof fn lemma_bit_distance_bound(a: Seq<u8>, b: Seq<u8>)
    ensures
        bit_distance(a, b) <= 8 * if a.len() >= b.len() {
            a.len()
        } else {
            b.len()
        },
{
    lemma_distance_upto_bound(a, b, a.len());
    lemma_distance_upto_bound(a, b, b.len());
}

/// Position by position the two sequences may change places.
proof fn lemma_distance_upto_symmetric(a: Seq<u8>, b: Seq<u8>, n: nat)
    ensures
        distance_upto(a, b, n) == distance_upto(b, a, n),
    decreases n,
{
    if n > 0 {
        lemma_distance_upto_symmetric(a, b, (n - 1) as nat);
        let x = a[(n - 1) % (a.len() as int)];
        let y = b[(n - 1) % (b.len() as int)];
        assert(x ^ y == y ^ x) by (bit_vector);
    }
}

/// The bit distance is symmetric, whatever the two lengths are.
pub proof fn lemma_bit_distance_symmetric(a: Seq<u8>, b: Seq<u8>)
    ensures
        bit_distance(a, b) == bit_distance(b, a),
{
    lemma_distance_upto_symmetric(a, b, a.len());
    lemma_distance_upto_symmetric(a, b, b.len());
}

/// The byte 0 has no bit set.
proof fn lemma_bits_set_zero()
    ensures
        bits_set(0) == 0,
{
    reveal_with_fuel(low_bits_set, 9);
    assert(forall|i: u8| i < 8 ==> #[trigger] (0u8 >> i) & 1u8 == 0u8) by (bit_vector);
}

/// Position by position a sequence differs in nothing from itself.
proof fn lemma_distance_upto_self(a: Seq<u8>, n: nat)
    ensures
        distance_upto(a, a, n) == 0,
    decreases n,
{
    if n > 0 {
        lemma_distance_upto_self(a, (n - 1) as nat);
        let x = a[(n - 1) % (a.len() as int)];
        assert(x ^ x == 0u8) by (bit_vector);
        lemma_bits_set_zero();
    }
}

/// A sequence is at distance 0 from itself.
pub proof fn lemma_bit_distance_self(a: Seq<u8>)
    ensures
        bit_distance(a, a) == 0,
{
    lemma_distance_upto_self(a, a.len());
}

/// Counts the set bits of a byte.
pub fn bits_on(b: u8) -> (n: u8)
    ensures
        n == bits_set(b),
        n <= 8,
{
    let mut n: u8 = 0;
    let mut i: u8 = 0;
    while i < 8
        invariant
            i <= 8,
            n == low_bits_set(b, i as nat),
            n <= i,
        decreases 8 - i,
    {
        let bit: u8 = (b >> i) & 1;
        assert(bit <= 1) by (bit_vector)
            requires
                bit == (b >> i) & 1u8,
        ;
        n = n + bit;
        i = i + 1;
    }
    n
}

/// The bit distance of two byte slices (see [`bit_distance`]).
pub fn hamming_distance(input1: &[u8], input2: &[u8]) -> (distance: u64)
    requires
        input1.len() <= MAX_BYTES,
        input2.len() <= MAX_BYTES,
    ensures
        distance == bit_distance(input1@, input2@),
        distance <= 8 * if input1@.len() >= input2@.len() {
            input1@.len()
        } else {
            input2@.len()
        },
{
    let len1 = input1.len();
    let len2 = input2.len();
    if len1 == 0 || len2 == 0 {
        return 0;
    }
    let positions = if len1 >= len2 { len1 } else { len2 };
    let mut distance: u64 = 0;
    let mut i: usize = 0;
    while i < positions
        invariant
            i <= positions,
            positions <= MAX_BYTES,
            len1 == input1@.len(),
            len2 == input2@.len(),
            len1 > 0,
            len2 > 0,
            distance == distance_upto(input1@, input2@, i as nat),
            distance <= 8 * i,
        decreases positions - i,
    {
        let differing = bits_on(input1[i % len1] ^ input2[i % len2]);
        distance = distance + differing as u64;
        i = i + 1;
    }
    distance
}

} // verus!
