//! Fixed-width byte-sequence value types: the 20-byte emitter address and
//! the 32-byte topic hash.

use vstd::prelude::*;

verus! {

/// Copy a byte vector element by element.
pub fn clone_bytes(v: &Vec<u8>) -> (r: Vec<u8>)
    ensures
        r@ == v@,
{
    let mut out: Vec<u8> = Vec::new();
    let mut i: usize = 0;
    while i < v.len()
        invariant
            i <= v@.len(),
            out@ == v@.subrange(0, i as int),
        decreases v@.len() - i,
    {
        out.push(v[i]);
        i = i + 1;
    }
    proof {
        assert(out@ == v@);
    }
    out
}

/// A 20-byte account address, the emitter of a log entry.
#[derive(Debug, PartialEq, Eq)]
pub struct Address {
    bytes: Vec<u8>,
}

impl Clone for Address {
    fn clone(&self) -> (r: Self)
        ensures
            r@ == self@,
    {
        proof {
            use_type_invariant(self);
        }
        Address { bytes: clone_bytes(&self.bytes) }
    }
}

impl View for Address {
    type V = Seq<u8>;

    closed spec fn view(&self) -> Seq<u8> {
        self.bytes@
    }
}

impl Address {
    /// Every address holds exactly 20 bytes.
    #[verifier::type_invariant]
    pub open spec fn wf(self) -> bool {
        self@.len() == 20
    }

    /// Wrap exactly 20 bytes as an address; any other length is refused.
    pub fn from_bytes(bytes: Vec<u8>) -> (r: Option<Address>)
        ensures
            r matches Some(a) ==> a@ == bytes@,
            r is Some <==> bytes@.len() == 20,
    {
        if bytes.len() == 20 {
            Some(Address { bytes })
        } else {
            None
        }
    }

    /// The raw 20 bytes.
    pub fn bytes(&self) -> (r: &Vec<u8>)
        ensures
            r@ == self@,
            r@.len() == 20,
    {
        proof {
            use_type_invariant(self);
        }
        &self.bytes
    }
}

/// A 32-byte hash value: a log topic, or a digest of the hash primitive.
#[derive(Debug, PartialEq, Eq)]
pub struct H256 {
    bytes: Vec<u8>,
}

impl Clone for H256 {
    fn clone(&self) -> (r: Self)
        ensures
            r@ == self@,
    {
        proof {
            use_type_invariant(self);
        }
        H256 { bytes: clone_bytes(&self.bytes) }
    }
}

impl View for H256 {
    type V = Seq<u8>;

    closed spec fn view(&self) -> Seq<u8> {
        self.bytes@
    }
}

impl H256 {
    /// Every hash value holds exactly 32 bytes.
    #[verifier::type_invariant]
    pub open spec fn wf(self) -> bool {
        self@.len() == 32
    }

    /// Wrap exactly 32 bytes as a hash value; any other length is refused.
    pub fn from_bytes(bytes: Vec<u8>) -> (r: Option<H256>)
        ensures
            r matches Some(h) ==> h@ == bytes@,
            r is Some <==> bytes@.len() == 32,
    {
        if bytes.len() == 32 {
            Some(H256 { bytes })
        } else {
            None
        }
    }

    /// The raw 32 bytes.
    pub fn bytes(&self) -> (r: &Vec<u8>)
        ensures
            r@ == self@,
            r@.len() == 32,
    {
        proof {
            use_type_invariant(self);
        }
        &self.bytes
    }
}

} // verus!
