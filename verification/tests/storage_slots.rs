use toy_merkle_radix_account_trie::storage::{
    decode_storage_value, encode_storage_value, storage_trie_key, StorageTrie,
};

#[test]
fn storage_trie_key_is_deterministic() {
    let slot_key = [0x11u8; 32];

    assert_eq!(storage_trie_key(&slot_key), storage_trie_key(&slot_key));
}

#[test]
fn different_storage_keys_hash_differently() {
    let first_key = [0x11u8; 32];
    let second_key = [0x22u8; 32];

    assert_ne!(storage_trie_key(&first_key), storage_trie_key(&second_key));
}

#[test]
fn storage_value_rlp_round_trips() {
    let value = b"slot-value".to_vec();
    let encoded = encode_storage_value(&value);

    assert_eq!(decode_storage_value(&encoded), Some(value));
}

#[test]
fn empty_storage_value_rlp_round_trips() {
    let value = Vec::new();
    let encoded = encode_storage_value(&value);

    assert_eq!(decode_storage_value(&encoded), Some(value));
}

#[test]
fn decode_storage_value_rejects_invalid_rlp() {
    assert_eq!(decode_storage_value(&[0xff]), None);
}

#[test]
fn empty_storage_trie_has_zero_root_and_no_slots() {
    let trie = StorageTrie::new();

    assert_eq!(trie.root_hash(), [0u8; 32]);
    assert_eq!(trie.get_slot([0x11u8; 32]), None);
}

#[test]
fn storage_trie_sets_and_gets_slot() {
    let mut trie = StorageTrie::new();
    let slot_key = [0x11u8; 32];

    trie.set_slot(slot_key, b"value".to_vec());
    assert_ne!(trie.root_hash(), [0u8; 32]);
    assert_eq!(trie.get_slot(slot_key), Some(b"value".to_vec()));
}

#[test]
fn storage_trie_overwrites_slot() {
    let mut trie = StorageTrie::new();
    let slot_key = [0x11u8; 32];

    trie.set_slot(slot_key, b"old".to_vec());
    let old_hash = trie.root_hash();
    trie.set_slot(slot_key, b"new".to_vec());

    assert_ne!(trie.root_hash(), old_hash);
    assert_eq!(trie.get_slot(slot_key), Some(b"new".to_vec())); 
}

#[test]
fn storage_trie_same_slot_same_value_keeps_root_stable() {
    let mut trie = StorageTrie::new();
    let slot_key = [0x11u8; 32];

    trie.set_slot(slot_key, b"value".to_vec());
    let first_root = trie.root_hash();
    trie.set_slot(slot_key, b"value".to_vec());

    assert_eq!(trie.root_hash(), first_root);
}

#[test]
fn storage_trie_stores_empty_value_as_regular_value() {
    let mut trie = StorageTrie::new();
    let slot_key = [0x11u8; 32];

    trie.set_slot(slot_key, Vec::new());

    assert_eq!(trie.get_slot(slot_key), Some(Vec::new()));
}

#[test]
fn storage_slot_proof_verifies() {
    let mut trie = StorageTrie::new();
    let slot_key = [0x11u8; 32];
    trie.set_slot(slot_key, b"value".to_vec());
    let proof = trie.prove_slot(slot_key).expect("slot proof should exist");

    assert!(StorageTrie::verify_slot_proof(
        trie.root_hash(),
        slot_key,
        b"value",
        &proof
    ));
}

#[test]
fn storage_slot_proof_rejects_fake_value() {
    let mut trie = StorageTrie::new();
    let slot_key = [0x11u8; 32];
    trie.set_slot(slot_key, b"value".to_vec());
    let proof = trie.prove_slot(slot_key).expect("slot proof should exist");

    assert!(!StorageTrie::verify_slot_proof(
        trie.root_hash(),
        slot_key,
        b"fake",
        &proof
    ));
}

#[test]
fn storage_slot_proof_missing_slot_returns_none() {
    let mut trie = StorageTrie::new();

    trie.set_slot([0x11u8; 32], b"value".to_vec());

    assert_eq!(trie.prove_slot([0x22u8; 32]), None);
}
