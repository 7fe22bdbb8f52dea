//! Contract storage: slot values RLP-encoded in a trie keyed by the
//! Keccak-256 hash of the slot key.

use vstd::prelude::*;

use crate::codec::{as_string, encode_bytes, lemma_rlp_bytes_len, rlp_bytes, rlp_string, size_limit};
use crate::crypto::{keccak256, spec_keccak256};
use crate::mpt::NodeRef;
use crate::mpt_trie::{
    bytes_list_view, nodes_agree, opt_view, spec_verify_mpt_proof, verify_mpt_proof, MptTrie,
    ProofNodes,
};
use crate::trie_facts::{max_len, max_value_len};

verus! {

/// A storage slot key.
pub type StorageKey = [u8; 32];

/// A storage slot value.
pub type StorageValue = Vec<u8>;

/// The value that stored bytes decode to, if they decode as an RLP string.
pub open spec fn decoded_value(encoded: Seq<u8>) -> Option<Seq<u8>> {
    match rlp_string(encoded) {
        Ok(v) => Some(v),
        Err(_) => None,
    }
}

/// An encoded value is never empty, and a value shorter than
/// `max_value_len()` encodes short enough to stand under a 32-byte key.
pub proof fn lemma_encoded_value_len(value: Seq<u8>)
    requires
        value.len() < max_value_len(),
    ensures
        0 < rlp_bytes(value).len(),
        32 + rlp_bytes(value).len() < max_len(),
{
    lemma_rlp_bytes_len(value);
}

/// The trie key of a storage slot: the Keccak-256 hash of the slot key.
pub fn storage_trie_key(slot_key: &StorageKey) -> (key: crate::types::Hash)
    ensures
        key@ == spec_keccak256(slot_key@),
{
    keccak256(slot_key.as_slice())
}

/// RLP-encodes a slot value as a byte string.
pub fn encode_storage_value(value: &[u8]) -> (encoded: Vec<u8>)
    ensures
        encoded@ == rlp_bytes(value@),
        rlp_bytes(value@).len() < size_limit() ==> decoded_value(encoded@) == Some(value@),
{
    encode_bytes(value)
}

/// Decodes a slot value; `None` when the bytes are not an RLP string.
pub fn decode_storage_value(encoded: &[u8]) -> (value: Option<StorageValue>)
    ensures
        opt_view(value) == decoded_value(encoded@),
{
    match as_string(encoded) {
        Ok(v) => Some(v),
        Err(_) => None,
    }
}

/// `b` is the storage trie `a` after `value` was written to the slot
/// `slot_key`: the store keeps its invariant and what `a` wrote; rewriting
/// the encoding already stored keeps the root; with a value shorter than
/// `max_value_len()` a well-kept trie stays well kept, and where no two
/// encodings written to the store share a hash, any other write moves the
/// root, the slot holds `value` and every slot with another hash keeps its
/// value.
pub open spec fn slot_written(a: StorageTrie, b: StorageTrie, slot_key: Seq<u8>, value: Seq<u8>) -> bool {
    &&& b.inner().store().inv()
    &&& b.inner().root_ref() is Some
    &&& a.inner().store().written_within(b.inner().store())
    &&& (b.inner().store().collision_free() ==> a.inner().store().collision_free())
    &&& (a.inner().wf() && value.len() < max_value_len() ==> b.inner().wf())
    &&& (a.inner().canonical() && value.len() < max_value_len() && b.inner().store().collision_free()
        ==> b.inner().canonical())
    &&& (a.inner().wf() && a.inner()@.contains_key(spec_keccak256(slot_key)) && a.inner()@[spec_keccak256(
        slot_key,
    )] == rlp_bytes(value) ==> b.inner().root_ref() == a.inner().root_ref())
    &&& (a.inner().wf() && value.len() < max_value_len() && b.inner().store().collision_free() && !(
    a.inner()@.contains_key(spec_keccak256(slot_key)) && a.inner()@[spec_keccak256(slot_key)]
        == rlp_bytes(value)) ==> b.inner().root_ref() != a.inner().root_ref())
    &&& (a.inner().wf() && value.len() < max_value_len() && b.inner().store().collision_free() ==> {
        &&& b.inner()@ == a.inner()@.insert(spec_keccak256(slot_key), rlp_bytes(value))
        &&& b.slot_at(slot_key) == Some(value)
        &&& forall|other: Seq<u8>|
            spec_keccak256(other) != spec_keccak256(slot_key) ==> #[trigger] b.slot_at(other)
                == a.slot_at(other)
    })
}

/// A storage trie: each slot's encoded value under the hash of its key.
#[derive(Clone)]
pub struct StorageTrie {
    trie: MptTrie,
}

impl StorageTrie {
    /// The underlying trie.
    pub closed spec fn inner(self) -> MptTrie {
        self.trie
    }

    /// The value of the slot `slot_key`, if stored and decodable.
    pub open spec fn slot_at(self, slot_key: Seq<u8>) -> Option<Seq<u8>> {
        let key = spec_keccak256(slot_key);
        if self.inner()@.contains_key(key) {
            decoded_value(self.inner()@[key])
        } else {
            None
        }
    }

    /// Where the trie holds the encoding of `value` for the slot (as
    /// `set_slot` writes it), the slot has a proof, and the proof verifies
    /// `value` for the slot against the root hash.
    pub proof fn lemma_slot_proof_verifies(self, slot_key: Seq<u8>, value: Seq<u8>)
        requires
            self.inner().store().inv(),
            self.inner()@.contains_key(spec_keccak256(slot_key)),
            self.inner()@[spec_keccak256(slot_key)] == rlp_bytes(value),
        ensures
            self.inner().proof_of(spec_keccak256(slot_key)) is Some,
            spec_verify_mpt_proof(
                self.inner().spec_root_hash(),
                spec_keccak256(slot_key),
                rlp_bytes(value),
                self.inner().proof_of(spec_keccak256(slot_key))->Some_0,
            ),
    {
        self.inner().lemma_value_has_proof(spec_keccak256(slot_key));
    }

    /// A slot proof that verifies against the root of a well-kept,
    /// nonempty storage trie, and whose nodes agree with the trie's store
    /// wherever their hashes are stored, proves the encoded value that the
    /// trie holds for the slot.
    pub proof fn lemma_slot_proof_sound(self, slot_key: Seq<u8>, value: Seq<u8>, nodes: Seq<Seq<u8>>)
        requires
            self.inner().wf(),
            self.inner().root_ref() is Some,
            spec_verify_mpt_proof(
                self.inner().spec_root_hash(),
                spec_keccak256(slot_key),
                rlp_bytes(value),
                nodes,
            ),
            nodes_agree(self.inner().store()@, nodes),
        ensures
            self.inner()@.contains_key(spec_keccak256(slot_key)),
            self.inner()@[spec_keccak256(slot_key)] == rlp_bytes(value),
    {
        self.inner().lemma_verify_then_holds(spec_keccak256(slot_key), rlp_bytes(value), nodes);
    }

    /// An empty storage trie.
    pub fn new() -> (trie: Self)
        ensures
            trie.inner()@ == Map::<Seq<u8>, Seq<u8>>::empty(),
            trie.inner().wf(),
            trie.inner().canonical(),
            trie.inner().store().collision_free(),
            trie.inner().root_ref() is None,
    {
        StorageTrie { trie: MptTrie::new() }
    }

    /// A copy of the storage trie.
    pub fn duplicate(&self) -> (d: Self)
        ensures
            MptTrie::same_trie(d.inner(), self.inner()),
    {
        StorageTrie { trie: self.trie.duplicate() }
    }

    /// The root hash of the storage trie (32 zero bytes when empty).
    pub fn root_hash(&self) -> (hash: NodeRef)
        ensures
            hash@ == self.inner().spec_root_hash(),
    {
        self.trie.root_hash()
    }

    /// The value of a slot, decoded; `None` when the slot is not stored or
    /// its bytes do not decode.
    pub fn get_slot(&self, slot_key: StorageKey) -> (value: Option<StorageValue>)
        ensures
            opt_view(value) == self.slot_at(slot_key@),
    {
        let trie_key = storage_trie_key(&slot_key);
        let encoded = match self.trie.get(trie_key.as_slice()) {
            Some(e) => e,
            None => return None,
        };
        decode_storage_value(encoded.as_slice())
    }

    /// Stores the slot's encoded value under the hash of its key.
    ///
    /// On a well-kept trie with a value shorter than `max_value_len()`, the
    /// trie stays well kept; where no two encodings written to its store
    /// share a hash, the slot then holds `value` and every slot with another
    /// hash keeps its value.
    pub fn set_slot(&mut self, slot_key: StorageKey, value: StorageValue)
        requires
            old(self).inner().can_insert(spec_keccak256(slot_key@)),
        ensures
            slot_written(*old(self), *final(self), slot_key@, value@),
    {
        let trie_key = storage_trie_key(&slot_key);
        let encoded_value = encode_storage_value(value.as_slice());
        proof {
            assert(trie_key@.len() == 32);
            if value@.len() < max_value_len() {
                lemma_encoded_value_len(value@);
            }
        }
        self.trie.insert(trie_key.as_slice(), encoded_value);
    }

    /// The inclusion proof for a slot.
    pub fn prove_slot(&self, slot_key: StorageKey) -> (nodes: Option<ProofNodes>)
        ensures
            match nodes {
                Some(p) => self.inner().proof_of(spec_keccak256(slot_key@)) == Some(bytes_list_view(p@)),
                None => self.inner().proof_of(spec_keccak256(slot_key@)) is None,
            },
    {
        let trie_key = storage_trie_key(&slot_key);
        self.trie.prove(trie_key.as_slice())
    }

    /// Checks a slot proof: the encoded `value` under the hash of the slot
    /// key, against `root`.
    pub fn verify_slot_proof(
        root: NodeRef,
        slot_key: StorageKey,
        value: &[u8],
        nodes: &[Vec<u8>],
    ) -> (ok: bool)
        ensures
            ok == spec_verify_mpt_proof(
                root@,
                spec_keccak256(slot_key@),
                rlp_bytes(value@),
                bytes_list_view(nodes@),
            ),
    {
        let trie_key = storage_trie_key(&slot_key);
        let encoded_value = encode_storage_value(value);
        verify_mpt_proof(root, trie_key.as_slice(), encoded_value.as_slice(), nodes)
    }
}

impl Default for StorageTrie {
    /// The same as `StorageTrie::new()`.
    fn default() -> (d: Self)
        ensures
            d.inner()@ == Map::<Seq<u8>, Seq<u8>>::empty(),
            d.inner().wf(),
            d.inner().store().collision_free(),
            d.inner().root_ref() is None,
    {
        StorageTrie::new()
    }
}

} // verus!
