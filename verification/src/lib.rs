pub mod account;
pub mod canonical;
pub mod codec;
pub mod crypto;
pub mod execution;
pub mod mpt;
pub mod mpt_trie;
pub mod nibbles;
pub mod node_db;
pub mod storage;
pub mod transaction;
pub mod trie;
pub mod trie_facts;
pub mod types;

pub use account::{Account, AccountDecodeError, AccountTrie};
pub use crypto::keccak256;
pub use execution::{State, StateError};
pub use mpt::{verify_mpt_proof, MptNode, MptNodeDb, MptTrie, Nibble, NodeRef};
pub use storage::{
    decode_storage_value, encode_storage_value, storage_trie_key, StorageKey, StorageTrie,
    StorageValue,
};
pub use transaction::{Receipt, Transaction, TransactionDecodeError};
pub use trie::{verify_proof, MerkleRadixTrie};
pub use types::Address;
