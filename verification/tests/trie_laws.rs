use toy_merkle_radix_account_trie::execution::{ExecutionError, State, StateError};
use toy_merkle_radix_account_trie::keccak256;
use toy_merkle_radix_account_trie::mpt::{compact_decode, compact_encode, verify_mpt_proof, MptTrie};
use toy_merkle_radix_account_trie::storage::StorageTrie;
use toy_merkle_radix_account_trie::transaction::{transaction_root, Transaction, TransactionDecodeError};
use toy_merkle_radix_account_trie::trie::{verify_proof, MerkleRadixTrie};
use toy_merkle_radix_account_trie::{Account, AccountDecodeError, AccountTrie};

fn entries() -> Vec<(Vec<u8>, Vec<u8>)> {
    vec![
        (b"do".to_vec(), b"verb".to_vec()),
        (b"dog".to_vec(), b"puppy".to_vec()),
        (b"doge".to_vec(), b"coin".to_vec()),
        (b"horse".to_vec(), b"stallion".to_vec()),
        (vec![], b"empty key".to_vec()),
        (vec![0x12, 0x34], b"two bytes".to_vec()),
        (vec![0x12, 0x35], b"sibling".to_vec()),
    ]
}

fn build(order: &[usize]) -> MptTrie {
    let all = entries();
    let mut trie = MptTrie::new();
    for &i in order {
        trie.insert(&all[i].0, all[i].1.clone());
    }
    trie
}

#[test]
fn mpt_root_does_not_depend_on_insertion_order() {
    let forward = build(&[0, 1, 2, 3, 4, 5, 6]);
    let backward = build(&[6, 5, 4, 3, 2, 1, 0]);
    let shuffled = build(&[3, 0, 6, 2, 4, 1, 5]);

    assert_eq!(forward.root_hash(), backward.root_hash());
    assert_eq!(forward.root_hash(), shuffled.root_hash());
    assert_ne!(forward.root_hash(), [0u8; 32]);
}

#[test]
fn mpt_root_after_overwrite_matches_direct_insert() {
    let mut overwritten = MptTrie::new();
    overwritten.insert(b"dog", b"puppy".to_vec());
    overwritten.insert(b"doge", b"coin".to_vec());
    overwritten.insert(b"dog", b"hound".to_vec());

    let mut direct = MptTrie::new();
    direct.insert(b"doge", b"coin".to_vec());
    direct.insert(b"dog", b"hound".to_vec());

    assert_eq!(overwritten.root_hash(), direct.root_hash());
}

#[test]
fn mpt_get_after_insert_reads_every_entry() {
    let trie = build(&[2, 0, 5, 1, 6, 3, 4]);

    for (key, value) in entries() {
        assert_eq!(trie.get(&key), Some(value));
    }
    assert_eq!(trie.get(b"d"), None);
    assert_eq!(trie.get(b"dogs"), None);
    assert_eq!(trie.get(&[0x12]), None);
}

#[test]
fn mpt_every_proof_verifies_against_root() {
    let trie = build(&[0, 1, 2, 3, 4, 5, 6]);
    let root = trie.root_hash();

    for (key, value) in entries() {
        let proof = trie.prove(&key).expect("stored key has a proof");
        assert!(verify_mpt_proof(root, &key, &value, &proof));
        assert!(!verify_mpt_proof(root, &key, b"other", &proof));
    }
}

#[test]
fn mpt_writing_a_different_value_changes_root() {
    let mut trie = build(&[0, 1, 2]);
    let before = trie.root_hash();

    trie.insert(b"dog", b"hound".to_vec());

    assert_ne!(trie.root_hash(), before);
    trie.insert(b"dog", b"hound".to_vec());
    let after = trie.root_hash();
    trie.insert(b"dog", b"hound".to_vec());
    assert_eq!(trie.root_hash(), after);
}

#[test]
fn compact_encoding_of_odd_leaf_path_round_trips() {
    let path = vec![0x01, 0x02, 0x03];

    let encoded = compact_encode(&path, true);

    assert_eq!(encoded, vec![0x31, 0x23]);
    assert_eq!(compact_decode(&encoded), Some((path, true)));
}

#[test]
fn keccak256_of_empty_input_is_the_known_digest() {
    let expected: [u8; 32] = [
        0xc5, 0xd2, 0x46, 0x01, 0x86, 0xf7, 0x23, 0x3c, 0x92, 0x7e, 0x7d, 0xb2, 0xdc, 0xc7, 0x03,
        0xc0, 0xe5, 0x00, 0xb6, 0x53, 0xca, 0x82, 0x27, 0x3b, 0x7b, 0xfa, 0xd8, 0x04, 0x5d, 0x85,
        0xa4, 0x70,
    ];

    assert_eq!(keccak256(&[]), expected);
}

#[test]
fn account_trie_root_does_not_depend_on_insertion_order() {
    let alice = [0x11u8; 20];
    let bob = [0x22u8; 20];
    let carol = [0x33u8; 20];

    let mut first = AccountTrie::new();
    first.insert_account(alice, Account::new_eoa(1, 10));
    first.insert_account(bob, Account::new_eoa(2, 20));
    first.insert_account(carol, Account::new_eoa(3, 30));

    let mut second = AccountTrie::new();
    second.insert_account(carol, Account::new_eoa(3, 30));
    second.insert_account(alice, Account::new_eoa(1, 10));
    second.insert_account(bob, Account::new_eoa(2, 20));

    assert_eq!(first.root_hash(), second.root_hash());
    assert_eq!(second.get_account(bob), Some(Account::new_eoa(2, 20)));
}

#[test]
fn storage_trie_root_does_not_depend_on_insertion_order() {
    let mut first = StorageTrie::new();
    first.set_slot([0x01u8; 32], b"one".to_vec());
    first.set_slot([0x02u8; 32], b"two".to_vec());

    let mut second = StorageTrie::new();
    second.set_slot([0x02u8; 32], b"two".to_vec());
    second.set_slot([0x01u8; 32], b"one".to_vec());

    assert_eq!(first.root_hash(), second.root_hash());
}

#[test]
fn account_decode_reports_each_error() {
    assert!(matches!(
        Account::try_decode(&[0xc0]),
        Err(AccountDecodeError::InvalidRlp(_))
    ));

    // The list [nonce 1, balance 2, a 31-byte storage root, a 32-byte code hash].
    let mut payload = vec![0x01, 0x02, 0x9f];
    payload.extend_from_slice(&[0u8; 31]);
    payload.push(0xa0);
    payload.extend_from_slice(&[0u8; 32]);
    let mut short_root = vec![0xf8, payload.len() as u8];
    short_root.extend_from_slice(&payload);
    assert_eq!(
        Account::try_decode(&short_root),
        Err(AccountDecodeError::InvalidStorageRootLength(31))
    );

    let mut payload = vec![0x01, 0x02, 0xa0];
    payload.extend_from_slice(&[0u8; 32]);
    payload.push(0x81);
    payload.push(0xff);
    let mut short_code = vec![0xc0 + payload.len() as u8];
    short_code.extend_from_slice(&payload);
    assert_eq!(
        Account::try_decode(&short_code),
        Err(AccountDecodeError::InvalidCodeHashLength(1))
    );
}

#[test]
fn transaction_decode_reports_address_length_errors() {
    let mut payload = vec![0x93];
    payload.extend_from_slice(&[0x11u8; 19]);
    payload.push(0x94);
    payload.extend_from_slice(&[0x22u8; 20]);
    payload.extend_from_slice(&[0x01, 0x02]);
    let mut bad_from = vec![0xc0 + payload.len() as u8];
    bad_from.extend_from_slice(&payload);
    assert_eq!(
        Transaction::try_decode(&bad_from),
        Err(TransactionDecodeError::InvalidFromLength(19))
    );

    let mut payload = vec![0x94];
    payload.extend_from_slice(&[0x11u8; 20]);
    payload.push(0x95);
    payload.extend_from_slice(&[0x22u8; 21]);
    payload.extend_from_slice(&[0x01, 0x02]);
    let mut bad_to = vec![0xc0 + payload.len() as u8];
    bad_to.extend_from_slice(&payload);
    assert_eq!(
        Transaction::try_decode(&bad_to),
        Err(TransactionDecodeError::InvalidToLength(21))
    );
}

#[test]
fn reordering_transactions_changes_transaction_root() {
    let first = Transaction::new_transfer([0x11u8; 20], [0x22u8; 20], 0, 100);
    let second = Transaction::new_transfer([0x22u8; 20], [0x33u8; 20], 1, 200);

    let in_order = transaction_root(&[first.clone(), second.clone()]);
    let reordered = transaction_root(&[second, first]);

    assert_ne!(in_order, reordered);
}

#[test]
fn transfer_conserves_total_balance() {
    let mut state = State::new();
    let alice = [0x11u8; 20];
    let bob = [0x22u8; 20];
    state.create_account(alice, Account::new_eoa(0, 1_000));
    state.create_account(bob, Account::new_eoa(7, 50));

    state
        .apply_transaction(&Transaction::new_transfer(alice, bob, 0, 300))
        .expect("transfer succeeds");

    let a = state.get_account(alice).expect("alice exists");
    let b = state.get_account(bob).expect("bob exists");
    assert_eq!(a.balance + b.balance, 1_050);
    assert_eq!((a.nonce, a.balance), (1, 700));
    assert_eq!((b.nonce, b.balance), (7, 350));
}

#[test]
fn storage_write_to_missing_account_is_refused() {
    let mut state = State::new();
    let before = state.root_hash();

    let result = state.set_storage_slot([0x44u8; 20], [0x01u8; 32], b"v".to_vec());

    assert_eq!(result, Err(StateError::AccountNotFound([0x44u8; 20])));
    assert_eq!(state.root_hash(), before);
}

#[test]
fn missing_sender_is_refused_without_state_change() {
    let mut state = State::new();
    let bob = [0x22u8; 20];
    state.create_account(bob, Account::new_eoa(0, 5));
    let before = state.root_hash();

    let result = state.apply_transaction(&Transaction::new_transfer([0x11u8; 20], bob, 0, 1));

    assert_eq!(result, Err(ExecutionError::MissingSender([0x11u8; 20])));
    assert_eq!(state.root_hash(), before);
}

#[test]
fn radix_trie_reads_and_proves_inserted_values() {
    let mut trie = MerkleRadixTrie::new();
    trie.insert(b"ab", b"first".to_vec());
    trie.insert(b"ac", b"second".to_vec());

    assert_eq!(trie.get(b"ab"), Some(b"first".to_vec()));
    assert_eq!(trie.get(b"ac"), Some(b"second".to_vec()));
    assert_eq!(trie.get(b"ad"), None);

    let root = trie.root_hash();
    let proof = trie.prove(b"ab").expect("stored key has a proof");
    assert_eq!(proof.len(), 5);
    assert!(verify_proof(root, b"ab", b"first", &proof));
    assert!(!verify_proof(root, b"ab", b"second", &proof));
}

#[test]
fn radix_trie_root_does_not_depend_on_insertion_order() {
    let mut first = MerkleRadixTrie::new();
    first.insert(b"ab", b"first".to_vec());
    first.insert(b"ac", b"second".to_vec());
    first.insert(b"a", b"short".to_vec());

    let mut second = MerkleRadixTrie::new();
    second.insert(b"a", b"short".to_vec());
    second.insert(b"ac", b"second".to_vec());
    second.insert(b"ab", b"first".to_vec());

    assert_eq!(first.root_hash(), second.root_hash());

    let before = first.root_hash();
    first.insert(b"ab", b"changed".to_vec());
    assert_ne!(first.root_hash(), before);
}

#[test]
fn compact_decode_accepts_exactly_valid_flags_and_round_trips() {
    for first in 0u16..=255 {
        let encoded = vec![first as u8, 0xab];
        let flag = first >> 4;
        let accepted = flag <= 3 && (flag % 2 == 1 || first & 0x0f == 0);
        match compact_decode(&encoded) {
            Some((path, is_leaf)) => {
                assert!(accepted);
                assert_eq!(is_leaf, flag >= 2);
                assert_eq!(path.len(), 4 - if flag % 2 == 1 { 1 } else { 2 });
                assert_eq!(compact_encode(&path, is_leaf), encoded);
            }
            None => assert!(!accepted),
        }
    }
    assert_eq!(compact_decode(&[]), None);
}

#[test]
fn mpt_stores_a_large_value() {
    let value = vec![0x5au8; 1 << 20];
    let mut trie = MptTrie::new();
    trie.insert(b"big", value.clone());
    trie.insert(b"bigger", b"small".to_vec());

    assert_eq!(trie.get(b"big"), Some(value.clone()));
    let proof = trie.prove(b"big").expect("stored key has a proof");
    assert!(verify_mpt_proof(trie.root_hash(), b"big", &value, &proof));
}

#[test]
fn reopened_state_accepts_transfers() {
    let mut state = State::new();
    let alice = [0x11u8; 20];
    let bob = [0x22u8; 20];
    state.create_account(alice, Account::new_eoa(0, 100));
    state.create_account(bob, Account::new_eoa(0, 0));
    let root = state.root_hash();

    let (db, saved_root) = state.into_account_parts();
    assert_eq!(saved_root, Some(root));
    let mut reopened = State::reopen(db, root).expect("a saved store reopens");
    assert_eq!(reopened.root_hash(), root);

    reopened
        .apply_transaction(&Transaction::new_transfer(alice, bob, 0, 40))
        .expect("transfer succeeds");
    assert_eq!(reopened.get_account(bob).map(|a| a.balance), Some(40));

    let (db, _) = reopened.into_account_parts();
    assert!(State::reopen(db, [0x99u8; 32]).is_none());
}

#[test]
fn checked_account_insert_inserts_into_well_kept_trie() {
    let mut trie = AccountTrie::new();
    assert!(trie.try_insert_account([0x11u8; 20], Account::new_eoa(1, 2)));
    assert!(trie.try_insert_account([0x22u8; 20], Account::new_eoa(3, 4)));
    assert_eq!(trie.get_account([0x11u8; 20]), Some(Account::new_eoa(1, 2)));
    assert_eq!(trie.get_account([0x22u8; 20]), Some(Account::new_eoa(3, 4)));
}
