//! A single log entry and its bloom digest.

use vstd::prelude::*;
use crate::types::{Address, H256};
use crate::bloom::{LogBloom, bloom_bit, in_hash_bits};
use crate::keccak::{keccak_of, keccak256};

verus! {

/// The mathematical content of a log entry: its three fields as sequences.
pub ghost struct LogEntryView {
    pub address: Seq<u8>,
    pub topics: Seq<Seq<u8>>,
    pub data: Seq<u8>,
}

/// Structural validity of a view: a 20-byte address and 32-byte topics.
pub open spec fn wf_entry(v: LogEntryView) -> bool {
    &&& v.address.len() == 20
    &&& forall|j: int| 0 <= j < v.topics.len() ==> (#[trigger] v.topics[j]).len() == 32
}

/// A single log's entry: the emitting address, the ordered topic hashes, and
/// the opaque data payload. A value is immutable after construction, and
/// equality is structural over all three fields.
#[derive(Debug, PartialEq, Eq)]
pub struct LogEntry {
    pub address: Address,
    pub topics: Vec<H256>,
    pub data: Vec<u8>,
}

impl View for LogEntry {
    type V = LogEntryView;

    open spec fn view(&self) -> LogEntryView {
        LogEntryView {
            address: self.address@,
            topics: self.topics@.map_values(|t: H256| t@),
            data: self.data@,
        }
    }
}

/// Whether `i` is among the bit positions contributed by a topic of `v`.
pub open spec fn topics_bloom_bit(topics: Seq<Seq<u8>>, i: nat) -> bool {
    exists|j: int| 0 <= j < topics.len() && in_hash_bits(keccak_of(#[trigger] topics[j]), i)
}

/// Whether bit `i` belongs to the bloom digest of entry `v`: contributed by
/// the hashed address or by some hashed topic.
pub open spec fn entry_bloom_bit(v: LogEntryView, i: nat) -> bool {
    ||| in_hash_bits(keccak_of(v.address), i)
    ||| topics_bloom_bit(v.topics, i)
}

/// `b` is exactly the bloom digest of entry `v`: bit for bit, union of the
/// address contribution and every topic contribution.
pub open spec fn bloom_matches(v: LogEntryView, b: Seq<u8>) -> bool {
    &&& b.len() == 256
    &&& forall|i: nat| i < 2048 ==> (bloom_bit(b, i) <==> entry_bloom_bit(v, i))
}

impl LogEntry {
    /// Create a new log entry. Purely structural: any topic count and any
    /// payload are accepted.
    pub fn new(address: Address, topics: Vec<H256>, data: Vec<u8>) -> (r: LogEntry)
        ensures
            r@.address == address@,
            r@.topics == topics@.map_values(|t: H256| t@),
            r@.data == data@,
    {
        LogEntry { address, topics, data }
    }

    /// Returns reference to address.
    pub fn address(&self) -> (r: &Address)
        ensures
            r@ == self@.address,
    {
        &self.address
    }

    /// Returns reference to topics.
    pub fn topics(&self) -> (r: &Vec<H256>)
        ensures
            r@.map_values(|t: H256| t@) == self@.topics,
    {
        &self.topics
    }

    /// Returns reference to data.
    pub fn data(&self) -> (r: &Vec<u8>)
        ensures
            r@ == self@.data,
    {
        &self.data
    }

    /// Calculates the bloom of this log entry: the union of the bloom
    /// contributions of the hashed address and of every hashed topic, in
    /// topic order (the result does not depend on that order).
    pub fn bloom(&self) -> (r: LogBloom)
        ensures
            bloom_matches(self@, r@),
    {
        let h = keccak256(self.address.bytes());
        let mut b = LogBloom::from_bloomed(&h);
        let mut j: usize = 0;
        proof {
            assert(self@.topics.take(0) =~= Seq::<Seq<u8>>::empty());
            assert forall|i: nat| i < 2048 implies (bloom_bit(b@, i) <==> (in_hash_bits(
                keccak_of(self@.address),
                i,
            ) || topics_bloom_bit(self@.topics.take(0), i))) by {
                assert(!topics_bloom_bit(self@.topics.take(0), i));
            }
        }
        while j < self.topics.len()
            invariant
                j <= self.topics@.len(),
                self@.topics.len() == self.topics@.len(),
                b@.len() == 256,
                forall|i: nat|
                    i < 2048 ==> (bloom_bit(b@, i) <==> (in_hash_bits(keccak_of(self@.address), i)
                        || topics_bloom_bit(self@.topics.take(j as int), i))),
            decreases self.topics@.len() - j,
        {
            let th = keccak256(self.topics[j].bytes());
            let ghost prev = b@;
            b = b.with_bloomed(&th);
            proof {
                let ts = self@.topics;
                assert(th@ == keccak_of(ts[j as int]));
                assert forall|i: nat|
                    i < 2048 implies (bloom_bit(b@, i) <==> (in_hash_bits(
                    keccak_of(self@.address),
                    i,
                ) || topics_bloom_bit(ts.take(j + 1), i))) by {
                    assert(bloom_bit(b@, i) <==> (bloom_bit(prev, i) || in_hash_bits(th@, i)));
                    if bloom_bit(b@, i) {
                        if bloom_bit(prev, i) {
                            if topics_bloom_bit(ts.take(j as int), i) {
                                let w = choose|w: int|
                                    0 <= w < ts.take(j as int).len() && in_hash_bits(
                                        keccak_of(#[trigger] ts.take(j as int)[w]),
                                        i,
                                    );
                                assert(ts.take(j + 1)[w] == ts.take(j as int)[w]);
                                assert(in_hash_bits(keccak_of(ts.take(j + 1)[w]), i));
                            }
                        } else {
                            assert(in_hash_bits(keccak_of(ts[j as int]), i));
                            assert(ts.take(j + 1)[j as int] == ts[j as int]);
                            assert(in_hash_bits(keccak_of(ts.take(j + 1)[j as int]), i));
                        }
                    }
                    if topics_bloom_bit(ts.take(j + 1), i) {
                        let w = choose|w: int|
                            0 <= w < ts.take(j + 1).len() && in_hash_bits(
                                keccak_of(#[trigger] ts.take(j + 1)[w]),
                                i,
                            );
                        if w < j {
                            assert(ts.take(j as int)[w] == ts.take(j + 1)[w]);
                            assert(in_hash_bits(keccak_of(ts.take(j as int)[w]), i));
                            assert(topics_bloom_bit(ts.take(j as int), i));
                        } else {
                            assert(ts.take(j + 1)[w] == ts[j as int]);
                            assert(in_hash_bits(th@, i));
                        }
                    }
                }
            }
            j = j + 1;
        }
        proof {
            assert(self@.topics.take(self.topics@.len() as int) =~= self@.topics);
        }
        b
    }
}

/// For all entries differing only in a permutation of their topics, the bloom
/// digest is identical: the union of bit contributions does not depend on
/// topic order.
pub proof fn lemma_bloom_order_independent(
    v1: LogEntryView,
    v2: LogEntryView,
    b1: Seq<u8>,
    b2: Seq<u8>,
)
    requires
        v1.address == v2.address,
        v1.topics.to_multiset() == v2.topics.to_multiset(),
        bloom_matches(v1, b1),
        bloom_matches(v2, b2),
    ensures
        b1 == b2,
{
    broadcast use vstd::seq_lib::group_to_multiset_ensures;

    assert forall|i: nat| i < 2048 implies (bloom_bit(b1, i) <==> bloom_bit(b2, i)) by {
        assert(topics_bloom_bit(v1.topics, i) ==> topics_bloom_bit(v2.topics, i)) by {
            if topics_bloom_bit(v1.topics, i) {
                let w = choose|w: int|
                    0 <= w < v1.topics.len() && in_hash_bits(keccak_of(#[trigger] v1.topics[w]), i);
                let t = v1.topics[w];
                assert(v1.topics.contains(t));
                assert(v1.topics.to_multiset().count(t) > 0);
                assert(v2.topics.contains(t));
                let k = choose|k: int| 0 <= k < v2.topics.len() && v2.topics[k] == t;
                assert(in_hash_bits(keccak_of(v2.topics[k]), i));
            }
        }
        assert(topics_bloom_bit(v2.topics, i) ==> topics_bloom_bit(v1.topics, i)) by {
            if topics_bloom_bit(v2.topics, i) {
                let w = choose|w: int|
                    0 <= w < v2.topics.len() && in_hash_bits(keccak_of(#[trigger] v2.topics[w]), i);
                let t = v2.topics[w];
                assert(v2.topics.contains(t));
                assert(v2.topics.to_multiset().count(t) > 0);
                assert(v1.topics.contains(t));
                let k = choose|k: int| 0 <= k < v1.topics.len() && v1.topics[k] == t;
                assert(in_hash_bits(keccak_of(v1.topics[k]), i));
            }
        }
    }
    crate::bloom::lemma_bloom_bits_determine_bytes(b1, b2);
}

/// Monotonicity: if every topic of one entry also occurs in a second entry
/// with the same address, the second bloom is a bitwise superset of the
/// first. Adding topics can only set more bits, never clear any.
pub proof fn lemma_bloom_monotonic(v1: LogEntryView, v2: LogEntryView, b1: Seq<u8>, b2: Seq<u8>)
    requires
        v1.address == v2.address,
        forall|j: int| 0 <= j < v1.topics.len() ==> v2.topics.contains(#[trigger] v1.topics[j]),
        bloom_matches(v1, b1),
        bloom_matches(v2, b2),
    ensures
        forall|i: nat| i < 2048 && bloom_bit(b1, i) ==> bloom_bit(b2, i),
{
    assert forall|i: nat| i < 2048 && bloom_bit(b1, i) implies bloom_bit(b2, i) by {
        if topics_bloom_bit(v1.topics, i) {
            let w = choose|w: int|
                0 <= w < v1.topics.len() && in_hash_bits(keccak_of(#[trigger] v1.topics[w]), i);
            let t = v1.topics[w];
            assert(v2.topics.contains(t));
            let k = choose|k: int| 0 <= k < v2.topics.len() && v2.topics[k] == t;
            assert(in_hash_bits(keccak_of(v2.topics[k]), i));
        }
    }
}

/// No false negatives: every bit position contributed by the hashed address,
/// and by each hashed topic of the entry, is set in the entry's bloom.
pub proof fn lemma_bloom_no_false_negatives(v: LogEntryView, b: Seq<u8>)
    requires
        bloom_matches(v, b),
    ensures
        forall|i: nat| in_hash_bits(keccak_of(v.address), i) ==> bloom_bit(b, i),
        forall|j: int, i: nat|
            0 <= j < v.topics.len() && #[trigger] in_hash_bits(keccak_of(v.topics[j]), i)
                ==> bloom_bit(b, i),
{
    assert forall|i: nat| in_hash_bits(keccak_of(v.address), i) implies bloom_bit(b, i) by {
        assert(i < 2048);
        assert(entry_bloom_bit(v, i));
    }
    assert forall|j: int, i: nat|
        0 <= j < v.topics.len() && #[trigger] in_hash_bits(keccak_of(v.topics[j]), i) implies bloom_bit(
        b,
        i,
    ) by {
        assert(i < 2048);
        assert(topics_bloom_bit(v.topics, i));
        assert(entry_bloom_bit(v, i));
    }
}

} // verus!
