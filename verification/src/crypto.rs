use sha3::{Digest, Keccak256};
use vstd::prelude::*;


verus! {

/// The Keccak-256 digest of a byte string, as computed by the `sha3` crate.
pub uninterp spec fn spec_keccak256(data: Seq<u8>) -> Seq<u8>;

/// Hashes arbitrary bytes with Keccak-256 (`sha3::Keccak256::digest`).
///
/// Trusted: the digest is taken to depend on the input bytes alone, and is
/// named `spec_keccak256`; nothing else about Keccak-256 is stated.
#[verifier::external_body]
pub fn keccak256(data: &[u8]) -> (hash: crate::types::Hash)
    ensures
        hash@ == spec_keccak256(data@),
{
    let digest = Keccak256::digest(data);
    let mut hash = [0u8; 32];
    hash.copy_from_slice(&digest);
    hash
}

} // verus!
