//! Perceptual fingerprints as bit vectors, and the Hamming distance on them.

use vstd::prelude::*;

verus! {

/// Largest number of bytes a fingerprint may hold: eight times as many bits
/// still fit in a `u32`, so that a distance always does.
pub const MAX_FINGERPRINT_BYTES: usize = 536_870_911;

/// Bit `k` of `b`, as 0 or 1.
pub open spec fn bit_at(b: u8, k: u8) -> u8 {
    (b >> k) & 1u8
}

/// The number of bits that are set in `b`.
pub open spec fn bit_count(b: u8) -> nat {
    (bit_at(b, 0) + bit_at(b, 1) + bit_at(b, 2) + bit_at(b, 3) + bit_at(b, 4) + bit_at(b, 5)
        + bit_at(b, 6) + bit_at(b, 7)) as nat
}

/// The number of bit positions in which the first `n` bytes of `a` and of `b`
/// differ.
pub open spec fn hamming_prefix(a: Seq<u8>, b: Seq<u8>, n: nat) -> nat
    decreases n,
{
    if n == 0 {
        0
    } else {
        hamming_prefix(a, b, (n - 1) as nat) + bit_count(a[n - 1] ^ b[n - 1])
    }
}

/// The Hamming distance of two bit vectors: the number of positions in which
/// they differ. Where one is longer, its surplus bytes are not counted.
pub open spec fn hamming(a: Seq<u8>, b: Seq<u8>) -> nat {
    hamming_prefix(
        a,
        b,
        if a.len() <= b.len() {
            a.len()
        } else {
            b.len()
        },
    )
}

/// A byte has at most eight bits set.
pub proof fn lemma_bit_count_bound(b: u8)
    ensures
        bit_count(b) <= 8,
        b == 0 ==> bit_count(b) == 0,
{
    assert(forall|k: u8| k < 8 ==> #[trigger] bit_at(b, k) <= 1) by {
        assert forall|k: u8| k < 8 implies #[trigger] bit_at(b, k) <= 1 by {
            assert((b >> k) & 1u8 <= 1) by (bit_vector);
        }
    }
    if b == 0 {
        assert(forall|k: u8| k < 8 ==> #[trigger] bit_at(0u8, k) == 0) by {
            assert forall|k: u8| k < 8 implies #[trigger] bit_at(0u8, k) == 0 by {
                assert((0u8 >> k) & 1u8 == 0) by (bit_vector);
            }
        }
    }
}

/// The first `n` bytes of a sequence differ from themselves in no bit.
proof fn lemma_hamming_prefix_self(a: Seq<u8>, n: nat)
    ensures
        hamming_prefix(a, a, n) == 0,
    decreases n,
{
    if n > 0 {
        lemma_hamming_prefix_self(a, (n - 1) as nat);
        let x = a[n - 1];
        assert(x ^ x == 0) by (bit_vector);
        lemma_bit_count_bound(0u8);
    }
}

/// The count over the first `n` bytes does not depend on the order of the two
/// sequences.
proof fn lemma_hamming_prefix_symmetric(a: Seq<u8>, b: Seq<u8>, n: nat)
    ensures
        hamming_prefix(a, b, n) == hamming_prefix(b, a, n),
    decreases n,
{
    if n > 0 {
        lemma_hamming_prefix_symmetric(a, b, (n - 1) as nat);
        let x = a[n - 1];
        let y = b[n - 1];
        assert(x ^ y == y ^ x) by (bit_vector);
    }
}

/// A bit vector is at distance 0 from itself.
pub proof fn lemma_hamming_self(a: Seq<u8>)
    ensures
        hamming(a, a) == 0,
{
    lemma_hamming_prefix_self(a, a.len());
}

/// The distance of two bit vectors does not depend on their order.
pub proof fn lemma_hamming_symmetric(a: Seq<u8>, b: Seq<u8>)
    ensures
        hamming(a, b) == hamming(b, a),
{
    let n = if a.len() <= b.len() {
        a.len()
    } else {
        b.len()
    };
    lemma_hamming_prefix_symmetric(a, b, n);
}

/// The number of bits set in `b`.
pub fn count_bits(b: u8) -> (n: u32)
    ensures
        n == bit_count(b),
        n <= 8,
{
    proof {
        lemma_bit_count_bound(b);
    }
    let n: u8 = ((b >> 0u8) & 1u8) + ((b >> 1u8) & 1u8) + ((b >> 2u8) & 1u8) + ((b >> 3u8) & 1u8)
        + ((b >> 4u8) & 1u8) + ((b >> 5u8) & 1u8) + ((b >> 6u8) & 1u8) + ((b >> 7u8) & 1u8);
    n as u32
}

/// A perceptual fingerprint: a bit vector, eight bits to the byte, of at most
/// `MAX_FINGERPRINT_BYTES` bytes.
#[derive(Debug, PartialEq, Eq)]
pub struct Fingerprint {
    bits: Vec<u8>,
}

impl View for Fingerprint {
    type V = Seq<u8>;

    closed spec fn view(&self) -> Seq<u8> {
        self.bits@
    }
}

impl Fingerprint {
    #[verifier::type_invariant]
    spec fn bounded(self) -> bool {
        self.bits@.len() <= MAX_FINGERPRINT_BYTES
    }

    /// The fingerprint that holds `bytes`, unless they are too many.
    pub fn from_bytes(bytes: Vec<u8>) -> (r: Option<Fingerprint>)
        ensures
            r is Some <==> bytes@.len() <= MAX_FINGERPRINT_BYTES,
            r is Some ==> r->0@ == bytes@,
    {
        if bytes.len() <= MAX_FINGERPRINT_BYTES {
            Some(Fingerprint { bits: bytes })
        } else {
            None
        }
    }

    /// The bytes of the fingerprint.
    pub fn as_bytes(&self) -> (r: &[u8])
        ensures
            r@ == self@,
            r@.len() <= MAX_FINGERPRINT_BYTES,
    {
        proof {
            use_type_invariant(self);
        }
        self.bits.as_slice()
    }

    /// The Hamming distance between this fingerprint and `other`.
    pub fn dist(&self, other: &Fingerprint) -> (d: u32)
        ensures
            d == hamming(self@, other@),
    {
        proof {
            use_type_invariant(self);
            use_type_invariant(other);
        }
        let n: usize = if self.bits.len() <= other.bits.len() {
            self.bits.len()
        } else {
            other.bits.len()
        };
        let mut total: u32 = 0;
        let mut i: usize = 0;
        while i < n
            invariant
                i <= n,
                n <= self.bits@.len(),
                n <= other.bits@.len(),
                n <= MAX_FINGERPRINT_BYTES,
                total == hamming_prefix(self.bits@, other.bits@, i as nat),
                total <= 8 * i,
            decreases n - i,
        {
            let c = count_bits(self.bits[i] ^ other.bits[i]);
            total = total + c;
            i = i + 1;
        }
        total
    }
}

impl Clone for Fingerprint {
    fn clone(&self) -> (r: Fingerprint)
        ensures
            r@ == self@,
    {
        proof {
            use_type_invariant(self);
        }
        Fingerprint { bits: self.bits.clone() }
    }
}

} // verus!
