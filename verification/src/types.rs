use vstd::prelude::*;

verus! {

/// A 32-byte Keccak-256 digest, used for trie node references and roots.
pub type Hash = [u8; 32];

/// A 20-byte account address.
pub type Address = [u8; 20];

} // verus!
