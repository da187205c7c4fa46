//! The cryptographic hash primitive: keccak-256, consumed as an opaque
//! collaborator with a stated contract.

use vstd::prelude::*;
use tiny_keccak::Hasher;
use crate::types::H256;

verus! {

/// The 32-byte keccak-256 digest of a byte sequence: a pure function of the
/// input bytes alone.
pub uninterp spec fn keccak_of(input: Seq<u8>) -> Seq<u8>;

/// Relies on tiny_keccak::Keccak::v256 (update, then finalize into a 32-byte
/// buffer): the keccak-256 digest, 32 bytes, determined by the input alone.
#[verifier::external_body]
fn keccak256_raw(input: &Vec<u8>) -> (r: Vec<u8>)
    ensures
        r@ == keccak_of(input@),
        r@.len() == 32,
{
    let mut k = tiny_keccak::Keccak::v256();
    k.update(input.as_slice());
    let mut out = [0u8; 32];
    k.finalize(&mut out);
    out.to_vec()
}

/// The keccak-256 digest of `input`, as a hash value.
pub fn keccak256(input: &Vec<u8>) -> (r: H256)
    ensures
        r@ == keccak_of(input@),
{
    let raw = keccak256_raw(input);
    H256::from_bytes(raw).unwrap()
}

} // verus!
