//! The 2048-bit bloom vector: a fixed-size probabilistic digest over hashed
//! values. A hashed value contributes three bit positions, each taken from
//! eleven bits of the hash, and vectors combine by bitwise union.

use vstd::prelude::*;
use vstd::arithmetic::div_mod::lemma_fundamental_div_mod;
use crate::types::H256;

verus! {

/// One of the three bit positions that a 32-byte hash contributes: eleven
/// bits taken big-endian from hash bytes 2k and 2k+1, so always below 2048.
pub open spec fn bloom_index(h: Seq<u8>, k: int) -> nat {
    (((h[2 * k] as nat) * 256 + (h[2 * k + 1] as nat)) % 2048) as nat
}

/// Whether `i` is one of the three bit positions contributed by hash `h`.
pub open spec fn in_hash_bits(h: Seq<u8>, i: nat) -> bool {
    ||| i == bloom_index(h, 0)
    ||| i == bloom_index(h, 1)
    ||| i == bloom_index(h, 2)
}

/// Whether bit `i` is set in the 256-byte vector `b`. Bit `i` lives in byte
/// `255 - i / 8`, at position `i % 8` counted from the least significant end.
pub open spec fn bloom_bit(b: Seq<u8>, i: nat) -> bool {
    &&& b.len() == 256
    &&& i < 2048
    &&& (b[255 - (i / 8) as int] >> ((i % 8) as u8)) & 1u8 == 1u8
}

/// A 2048-bit (256-byte) bloom vector.
#[derive(Debug, PartialEq, Eq)]
pub struct LogBloom {
    bits: Vec<u8>,
}

impl View for LogBloom {
    type V = Seq<u8>;

    closed spec fn view(&self) -> Seq<u8> {
        self.bits@
    }
}

impl Clone for LogBloom {
    fn clone(&self) -> (r: Self)
        ensures
            r@ == self@,
    {
        proof {
            use_type_invariant(self);
        }
        LogBloom { bits: crate::types::clone_bytes(&self.bits) }
    }
}

proof fn lemma_zero_bit(n: u8)
    by (bit_vector)
    requires
        n < 8,
    ensures
        (0u8 >> n) & 1u8 == 0u8,
{
}

proof fn lemma_or_bit(x: u8, m: u8, n: u8)
    by (bit_vector)
    requires
        m < 8,
        n < 8,
    ensures
        ((x | (1u8 << m)) >> n) & 1u8 == (if n == m {
            1u8
        } else {
            (x >> n) & 1u8
        }),
{
}

proof fn lemma_u8_bit_ext(x: u8, y: u8)
    by (bit_vector)
    requires
        (x >> 0u8) & 1u8 == (y >> 0u8) & 1u8,
        (x >> 1u8) & 1u8 == (y >> 1u8) & 1u8,
        (x >> 2u8) & 1u8 == (y >> 2u8) & 1u8,
        (x >> 3u8) & 1u8 == (y >> 3u8) & 1u8,
        (x >> 4u8) & 1u8 == (y >> 4u8) & 1u8,
        (x >> 5u8) & 1u8 == (y >> 5u8) & 1u8,
        (x >> 6u8) & 1u8 == (y >> 6u8) & 1u8,
        (x >> 7u8) & 1u8 == (y >> 7u8) & 1u8,
    ensures
        x == y,
{
}

/// Two 256-byte vectors that agree on all 2048 bit positions are equal
/// byte for byte.
pub proof fn lemma_bloom_bits_determine_bytes(b1: Seq<u8>, b2: Seq<u8>)
    requires
        b1.len() == 256,
        b2.len() == 256,
        forall|i: nat| i < 2048 ==> (bloom_bit(b1, i) <==> bloom_bit(b2, i)),
    ensures
        b1 == b2,
{
    assert forall|k: int| 0 <= k < 256 implies b1[k] == b2[k] by {
        assert forall|n: u8| n < 8 implies (b1[k] >> n) & 1u8 == (b2[k] >> n) & 1u8 by {
            let i = ((255 - k) * 8 + n) as nat;
            assert(i < 2048);
            lemma_fundamental_div_mod((255 - k) * 8 + n, 8);
            assert(i / 8 == 255 - k && i % 8 == n) by {
                assert((255 - k) * 8 + n == 8 * (255 - k) + n) by (nonlinear_arith);
                assert(((255 - k) * 8 + n) / 8 == 255 - k && ((255 - k) * 8 + n) % 8 == n)
                    by (nonlinear_arith)
                    requires
                        0 <= k < 256 && n < 8,
                ;
            }
            assert(255 - (i / 8) as int == k);
            assert((i % 8) as u8 == n);
            assert(bloom_bit(b1, i) <==> bloom_bit(b2, i));
            if (b1[k] >> n) & 1u8 == 1u8 || (b2[k] >> n) & 1u8 == 1u8 {
                assert((b1[k] >> n) & 1u8 == 1u8 <==> (b2[k] >> n) & 1u8 == 1u8);
                lemma_bit_and_one(b1[k], n);
                lemma_bit_and_one(b2[k], n);
            } else {
                lemma_bit_and_one(b1[k], n);
                lemma_bit_and_one(b2[k], n);
            }
        }
        lemma_u8_bit_ext(b1[k], b2[k]);
    }
    assert(b1 =~= b2);
}

proof fn lemma_bit_and_one(x: u8, n: u8)
    by (bit_vector)
    ensures
        (x >> n) & 1u8 == 0u8 || (x >> n) & 1u8 == 1u8,
{
}

impl LogBloom {
    /// Every bloom vector holds exactly 256 bytes.
    #[verifier::type_invariant]
    pub open spec fn wf(self) -> bool {
        self@.len() == 256
    }

    /// The all-zero vector: no bit set.
    pub fn zero() -> (r: LogBloom)
        ensures
            r@.len() == 256,
            forall|i: nat| i < 2048 ==> !bloom_bit(r@, i),
            forall|k: int| 0 <= k < 256 ==> r@[k] == 0u8,
    {
        let mut bits: Vec<u8> = Vec::new();
        let mut n: usize = 0;
        while n < 256
            invariant
                n <= 256,
                bits@.len() == n,
                forall|k: int| 0 <= k < n ==> bits@[k] == 0u8,
            decreases 256 - n,
        {
            bits.push(0u8);
            n = n + 1;
        }
        proof {
            assert forall|i: nat| i < 2048 implies !bloom_bit(bits@, i) by {
                lemma_zero_bit((i % 8) as u8);
            }
        }
        LogBloom { bits }
    }

    /// Wrap exactly 256 bytes as a bloom vector; any other length is refused.
    pub fn from_bytes(bytes: Vec<u8>) -> (r: Option<LogBloom>)
        ensures
            r matches Some(b) ==> b@ == bytes@,
            r is Some <==> bytes@.len() == 256,
    {
        if bytes.len() == 256 {
            Some(LogBloom { bits: bytes })
        } else {
            None
        }
    }

    /// The raw 256 bytes.
    pub fn bytes(&self) -> (r: &Vec<u8>)
        ensures
            r@ == self@,
            r@.len() == 256,
    {
        proof {
            use_type_invariant(self);
        }
        &self.bits
    }

    /// Set bit `i`, leaving every other bit as it was.
    fn with_bit(self, i: usize) -> (r: LogBloom)
        requires
            i < 2048,
        ensures
            r@.len() == 256,
            forall|j: nat|
                j < 2048 ==> (bloom_bit(r@, j) <==> (bloom_bit(self@, j) || j == i as nat)),
    {
        proof {
            use_type_invariant(&self);
        }
        let ghost before = self@;
        let LogBloom { mut bits } = self;
        let byte_index: usize = 255 - i / 8;
        let shift: u8 = (i % 8) as u8;
        let old_byte: u8 = bits[byte_index];
        bits.set(byte_index, old_byte | (1u8 << shift));
        let r = LogBloom { bits };
        proof {
            assert(r@ == before.update(byte_index as int, old_byte | (1u8 << shift)));
            assert(before == self@);
            assert forall|j: nat|
                j < 2048 implies (bloom_bit(r@, j) <==> (bloom_bit(self@, j)
                || j == i as nat)) by {
                let n = (j % 8) as u8;
                let bi = 255 - (j / 8) as int;
                lemma_or_bit(old_byte, shift, n);
                assert(r@.len() == 256);
                if bi == byte_index as int {
                    assert(r@[bi] == old_byte | (1u8 << shift));
                    if n == shift {
                        lemma_fundamental_div_mod(j as int, 8);
                        lemma_fundamental_div_mod(i as int, 8);
                        assert(j == i as nat);
                        assert((r@[bi] >> n) & 1u8 == 1u8);
                        assert(bloom_bit(r@, j));
                    } else {
                        assert((r@[bi] >> n) & 1u8 == (old_byte >> n) & 1u8);
                        assert(j != i as nat);
                        assert(bloom_bit(r@, j) <==> bloom_bit(self@, j));
                    }
                } else {
                    assert(r@[bi] == self@[bi]);
                    assert(j != i as nat);
                    assert(bloom_bit(r@, j) <==> bloom_bit(self@, j));
                }
            }
        }
        r
    }

    /// Union in the three bit positions contributed by hash `h`.
    pub fn with_bloomed(self, h: &H256) -> (r: LogBloom)
        ensures
            r@.len() == 256,
            forall|j: nat|
                j < 2048 ==> (bloom_bit(r@, j) <==> (bloom_bit(self@, j) || in_hash_bits(h@, j))),
    {
        let i0 = Self::index_of(h, 0);
        let i1 = Self::index_of(h, 1);
        let i2 = Self::index_of(h, 2);
        self.with_bit(i0).with_bit(i1).with_bit(i2)
    }

    /// A fresh vector holding exactly the three bit positions of hash `h`.
    pub fn from_bloomed(h: &H256) -> (r: LogBloom)
        ensures
            r@.len() == 256,
            forall|j: nat| j < 2048 ==> (bloom_bit(r@, j) <==> in_hash_bits(h@, j)),
    {
        LogBloom::zero().with_bloomed(h)
    }

    /// Whether all three bit positions of hash `h` are set: a "possibly
    /// contains" membership test, with false positives but no false negatives.
    pub fn contains_bloomed(&self, h: &H256) -> (r: bool)
        ensures
            r <==> (forall|i: nat| in_hash_bits(h@, i) ==> bloom_bit(self@, i)),
    {
        let i0 = Self::index_of(h, 0);
        let i1 = Self::index_of(h, 1);
        let i2 = Self::index_of(h, 2);
        let r = self.get_bit(i0) && self.get_bit(i1) && self.get_bit(i2);
        proof {
            if r {
                assert forall|i: nat| in_hash_bits(h@, i) implies bloom_bit(self@, i) by {
                    assert(i == bloom_index(h@, 0) || i == bloom_index(h@, 1) || i
                        == bloom_index(h@, 2));
                }
            } else {
                assert(in_hash_bits(h@, bloom_index(h@, 0)));
                assert(in_hash_bits(h@, bloom_index(h@, 1)));
                assert(in_hash_bits(h@, bloom_index(h@, 2)));
            }
        }
        r
    }

    /// Read bit `i`.
    fn get_bit(&self, i: usize) -> (r: bool)
        requires
            i < 2048,
        ensures
            r == bloom_bit(self@, i as nat),
    {
        proof {
            use_type_invariant(self);
        }
        let byte: u8 = self.bits[255 - i / 8];
        (byte >> ((i % 8) as u8)) & 1u8 == 1u8
    }

    /// The bit position `bloom_index(h@, k)`, as a machine integer.
    fn index_of(h: &H256, k: usize) -> (r: usize)
        requires
            k < 3,
        ensures
            r as nat == bloom_index(h@, k as int),
            r < 2048,
    {
        proof {
            use_type_invariant(h);
        }
        let bytes = h.bytes();
        let hi = bytes[2 * k] as usize;
        let lo = bytes[2 * k + 1] as usize;
        (hi * 256 + lo) % 2048
    }
}

} // verus!
