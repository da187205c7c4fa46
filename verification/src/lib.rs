//! A single blockchain log entry and its two canonical derived views:
//! the deterministic recursive length-prefix encoding used for
//! consensus-critical hashing, and the 2048-bit bloom digest used for
//! probabilistic membership tests over addresses and topics.

pub mod bloom;
pub mod hex;
pub mod json;
pub mod log_entry;
pub mod rlp;
pub mod keccak;
pub mod types;
