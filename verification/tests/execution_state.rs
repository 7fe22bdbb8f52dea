use rlp::RlpStream;
use toy_merkle_radix_account_trie::execution::{
    build_header, Block, BlockDecodeError, ExecutionError, ExecutionResult, Header,
    HeaderDecodeError, State, StateError, SIMPLE_TRANSFER_GAS_USED,
};
use toy_merkle_radix_account_trie::keccak256;
use toy_merkle_radix_account_trie::transaction::{
    receipt_root, transaction_root, Receipt, Transaction, TransactionDecodeError,
};
use toy_merkle_radix_account_trie::{Account, AccountTrie, Address};

fn sample_header() -> Header {
    Header::new(
        [0x11u8; 32],
        7,
        [0x22u8; 32],
        [0x33u8; 32],
        [0x44u8; 32],
        1_700_000_000,
    )
}

fn sample_transactions() -> Vec<Transaction> {
    vec![
        Transaction::new_transfer([0x11u8; 20], [0x22u8; 20], 0, 100),
        Transaction::new_transfer([0x22u8; 20], [0x33u8; 20], 1, 200),
    ]
}

fn sample_block() -> Block {
    Block::new(sample_header(), sample_transactions())
}

fn sample_receipts() -> Vec<Receipt> {
    vec![Receipt::success(21_000), Receipt::failure(21_000, "failed")]
}

fn sample_state_with_accounts() -> (State, Address, Address) {
    let mut state = State::new();
    let alice = [0x11u8; 20];
    let bob = [0x22u8; 20];

    state.create_account(alice, Account::new_eoa(0, 1_000));
    state.create_account(bob, Account::new_eoa(7, 50));

    (state, alice, bob)
}

#[test]
fn header_rlp_round_trips() {
    let header = sample_header();

    let decoded = Header::try_decode(&header.encode()).expect("header should decode");

    assert_eq!(decoded, header);
}

#[test]
fn header_hash_is_deterministic() {
    let header = sample_header();

    assert_eq!(header.hash(), header.hash());
    assert_eq!(header.hash(), keccak256(&header.encode()));
}

#[test]
fn header_hash_changes_when_root_changes() {
    let header = sample_header();
    let mut changed_header = header.clone();
    changed_header.state_root = [0x55u8; 32];

    assert_ne!(header.hash(), changed_header.hash());
}

#[test]
fn header_decode_rejects_invalid_root_length() {
    let mut stream = RlpStream::new_list(6);
    stream.append(&vec![0x11u8; 32]);
    stream.append(&7u64);
    stream.append(&vec![0x22u8; 31]);
    stream.append(&vec![0x33u8; 32]);
    stream.append(&vec![0x44u8; 32]);
    stream.append(&1_700_000_000u64);

    let result = Header::try_decode(&stream.out());

    assert_eq!(result, Err(HeaderDecodeError::InvalidStateRootLength(31)));
}

#[test]
fn build_header_derives_roots_from_inputs() {
    let parent_hash = [0x11u8; 32];
    let state_root = [0x22u8; 32];
    let transactions = sample_transactions();
    let receipts = sample_receipts();

    let header = build_header(
        parent_hash,
        7,
        state_root,
        &transactions,
        &receipts,
        1_700_000_000,
    );

    assert_eq!(header.parent_hash, parent_hash);
    assert_eq!(header.number, 7);
    assert_eq!(header.state_root, state_root);
    assert_eq!(header.transactions_root, transaction_root(&transactions));
    assert_eq!(header.receipts_root, receipt_root(&receipts));
    assert_eq!(header.timestamp, 1_700_000_000);
}

#[test]
fn build_header_hash_changes_when_derived_roots_change() {
    let transactions = sample_transactions();
    let mut changed_transactions = transactions.clone();
    changed_transactions[0].value += 1;
    let receipts = sample_receipts();

    let header = build_header(
        [0x11u8; 32],
        7,
        [0x22u8; 32],
        &transactions,
        &receipts,
        1_700_000_000,
    );
    let changed_header = build_header(
        [0x11u8; 32],
        7,
        [0x22u8; 32],
        &changed_transactions,
        &receipts,
        1_700_000_000,
    );

    assert_ne!(header.transactions_root, changed_header.transactions_root);
    assert_eq!(header.receipts_root, changed_header.receipts_root);
    assert_ne!(header.hash(), changed_header.hash());
}

#[test]
fn block_rlp_round_trips() {
    let block = sample_block();

    let decoded = Block::try_decode(&block.encode()).expect("block should decode");

    assert_eq!(decoded, block);
}

#[test]
fn block_hash_is_deterministic() {
    let block = sample_block();

    assert_eq!(block.hash(), block.hash());
    assert_eq!(block.hash(), keccak256(&block.encode()));
}

#[test]
fn block_hash_changes_when_transaction_changes() {
    let block = sample_block();
    let mut changed_block = block.clone();
    changed_block.transactions[0].value += 1;

    assert_ne!(block.hash(), changed_block.hash());
}

#[test]
fn block_decode_reports_invalid_transaction_index() {
    let mut invalid_transaciton = RlpStream::new_list(4);
    invalid_transaciton.append(&vec![0x11u8; 19]);
    invalid_transaciton.append(&vec![0x22u8; 20]);
    invalid_transaciton.append(&0u64);
    invalid_transaciton.append(&100u64);

    let mut transaction_list = RlpStream::new_list(1);
    transaction_list.append(&invalid_transaciton.out().to_vec());

    let mut block_stream = RlpStream::new_list(2);
    block_stream.append(&sample_header().encode());
    block_stream.append_raw(&transaction_list.out(), 1);

    let result = Block::try_decode(&block_stream.out());

    assert_eq!(
        result,
        Err(BlockDecodeError::InvalidTransaction { 
            index: 0, 
            error: TransactionDecodeError::InvalidFromLength(19) 
        })
    );
}

#[test]
fn execution_result_derives_transaction_and_receipt_roots() {
    let transactions = sample_transactions();
    let receipts = sample_receipts();
    let post_state_root = [0x55u8; 32];

    let result = ExecutionResult::new(post_state_root, &transactions, receipts.clone());

    assert_eq!(result.post_state_root, post_state_root);
    assert_eq!(result.receipts, receipts);
    assert_eq!(result.transactions_root, transaction_root(&transactions));
    assert_eq!(result.receipts_root, receipt_root(&result.receipts));
}

#[test]
fn execution_result_roots_change_when_inputs_change() {
    let transactions = sample_transactions();
    let mut changed_transactions = transactions.clone();
    changed_transactions[0].value += 1;
    let receipts = sample_receipts();

    let result = ExecutionResult::new([0x55u8; 32], &transactions, receipts.clone());
    let changed_result = ExecutionResult::new([0x55u8; 32], &changed_transactions, receipts);

    assert_ne!(result.transactions_root, changed_result.transactions_root);
    assert_eq!(result.receipts_root, changed_result.receipts_root);
}

#[test]
fn execution_error_carries_context() {
    let address = [0x11u8; 20];

    let error = ExecutionError::InvalidNonce {
        address,
        expected: 7,
        actual: 6,
    };

    assert_eq!(
        error,
        ExecutionError::InvalidNonce {
            address,
            expected: 7,
            actual: 6,
        }
    );
}

#[test]
fn empty_state_has_empty_account_root() {
    let state = State::new();

    assert_eq!(state.root_hash(), AccountTrie::new().root_hash());
}

#[test]
fn state_creates_and_loads_account() {
    let mut state = State::new();
    let address = [0x11u8; 20];
    let account = Account::new_eoa(1, 100);

    state.create_account(address, account.clone());

    assert_eq!(state.get_account(address), Some(account));
}

#[test]
fn state_reopens_accounts_from_saved_root_and_database() {
    let mut state = State::new();
    let alice = [0x11u8; 20];
    let bob = [0x22u8; 20];
    let alice_account = Account::new_eoa(1, 100);
    let bob_account = Account::new_eoa(2, 200);

    state.create_account(alice, alice_account.clone());
    state.create_account(bob, bob_account.clone());
    let root = state.root_hash();
    let (db, saved_root) = state.into_account_parts();

    let reopened = State::from_account_root(db, root);

    assert_eq!(saved_root, Some(root));
    assert_eq!(reopened.root_hash(), root);
    assert_eq!(reopened.get_account(alice), Some(alice_account));
    assert_eq!(reopened.get_account(bob), Some(bob_account));
    assert_eq!(reopened.get_account([0x33u8; 20]), None);
}

#[test]
fn updating_account_changes_state_root() {
    let mut state = State::new();
    let address = [0x11u8; 20];

    state.create_account(address, Account::new_eoa(1, 100));
    let first_root = state.root_hash();
    state.update_account(address, Account::new_eoa(1, 200));

    assert_ne!(state.root_hash(), first_root);
}

#[test]
fn writing_same_account_keeps_state_root_stable() {
    let mut state = State::new();
    let address = [0x11u8; 20];
    let account = Account::new_eoa(1, 100);

    state.create_account(address, account.clone());
    let first_root = state.root_hash();
    state.update_account(address, account);

    assert_eq!(state.root_hash(), first_root);
}

#[test]
fn state_account_proof_verifies() {
    let mut state = State::new();
    let address = [0x11u8; 20];
    let account = Account::new_eoa(1, 100);

    state.create_account(address, account.clone());
    let proof = state
        .prove_account(address)
        .expect("account proof should exist");

    assert!(State::verify_account_proof(
        state.root_hash(), 
        address, 
        &account,
        &proof
    ));
}

#[test]
fn state_sets_and_reads_storage_slot() {
    let mut state = State::new();
    let address = [0x11u8; 20];
    let slot_key = [0x22u8; 32];

    state.create_account(address, Account::new_eoa(1, 100));
    state
        .set_storage_slot(address, slot_key, b"value".to_vec())
        .expect("storage write should succeed");

    assert_eq!(
        state.get_storage_slot(address, slot_key),
        Some(b"value".to_vec())
    );
}

#[test]
fn storage_write_updates_account_and_state_roots() {
    let mut state = State::new();
    let address = [0x11u8; 20];
    let slot_key = [0x22u8; 32];

    state.create_account(address, Account::new_eoa(1, 100));
    let old_state_root = state.root_hash();
    let old_storage_root = state.get_account(address).unwrap().storage_root;

    state
        .set_storage_slot(address, slot_key, b"value".to_vec())
        .expect("storage write should succeed");

    let updated_account = state.get_account(address).unwrap();
    assert_ne!(updated_account.storage_root, old_storage_root);
    assert_ne!(state.root_hash(), old_state_root);
}

#[test]
fn writing_same_storage_value_keeps_state_root_stable() {
    let mut state = State::new();
    let address = [0x11u8; 20];
    let slot_key = [0x22u8; 32];

    state.create_account(address, Account::new_eoa(1, 100));
    state
        .set_storage_slot(address, slot_key, b"value".to_vec())
        .expect("storage write should succeed");
    let first_root = state.root_hash();

    state
        .set_storage_slot(address, slot_key, b"value".to_vec())
        .expect("storage write should succeed");

    assert_eq!(state.root_hash(), first_root);
}

#[test]
fn storage_write_preserves_account_fields() {
    let mut state = State::new();
    let address = [0x11u8; 20];
    let slot_key = [0x22u8; 32];
    let code_hash = [0x33u8; 32];
    let account = Account::new_contract(7, 99, Account::empty_storage_root(), code_hash);

    state.create_account(address, account);
    state
        .set_storage_slot(address, slot_key, b"value".to_vec())
        .expect("storage write should succeed");

    let updated_account = state.get_account(address).unwrap();
    assert_eq!(updated_account.nonce, 7);
    assert_eq!(updated_account.balance, 99);
    assert_eq!(updated_account.code_hash, code_hash);
}

#[test]
fn storage_write_requires_existing_account() {
    let mut state = State::new();
    let address = [0x11u8; 20];
    let slot_key = [0x22u8; 32];

    let result = state.set_storage_slot(address, slot_key, b"value".to_vec());

    assert_eq!(result, Err(StateError::AccountNotFound(address)));
}

#[test]
fn storage_write_rejects_unknown_non_empty_storage_root() {
    let mut state = State::new();
    let address = [0x11u8; 20];
    let slot_key = [0x22u8; 32];
    let account = Account::new_contract(7, 99, [0x44u8; 32], [0x33u8; 32]);

    state.create_account(address, account);
    let result = state.set_storage_slot(address, slot_key, b"value".to_vec());

    assert_eq!(result, Err(StateError::StorageTrieUnavailable(address)));
}

#[test]
fn apply_transaction_transfer_balance_and_increments_sender_nonce() {
    let (mut state, alice, bob)= sample_state_with_accounts();
    let old_root = state.root_hash();
    let transaction = Transaction::new_transfer(alice, bob, 0, 150);

    let receipt = state
        .apply_transaction(&transaction)
        .expect("transfer should apply");

    let alice_account = state.get_account(alice).unwrap();
    let bob_account = state.get_account(bob).unwrap();

    assert_eq!(receipt, Receipt::success(SIMPLE_TRANSFER_GAS_USED));
    assert_eq!(alice_account.nonce, 1);
    assert_eq!(alice_account.balance, 850);
    assert_eq!(bob_account.nonce, 7);
    assert_eq!(bob_account.balance, 200);
    assert_ne!(old_root, state.root_hash());
}

#[test]
fn apply_transaction_self_transfer_only_increments_nonce() {
    let (mut state, alice, _) = sample_state_with_accounts();
    let old_root = state.root_hash();
    let transaction = Transaction::new_transfer(alice, alice, 0, 150);

    let receipt = state
        .apply_transaction(&transaction)
        .expect("self transfer should apply");

    let alice_account = state.get_account(alice).unwrap();

    assert_eq!(receipt, Receipt::success(SIMPLE_TRANSFER_GAS_USED));
    assert_eq!(alice_account.nonce, 1);
    assert_eq!(alice_account.balance, 1_000);
    assert_ne!(state.root_hash(), old_root);
}

#[test]
fn apply_transaction_rejects_missing_sender_without_changing_state() {
    let (mut state, alice, bob) = sample_state_with_accounts();
    let root = state.root_hash();
    let missing_sender = [0x33u8; 20];
    let transaction = Transaction::new_transfer(missing_sender, bob, 0, 150);

    let result = state.apply_transaction(&transaction);

    assert_eq!(result, Err(ExecutionError::MissingSender(missing_sender)));
    assert_eq!(state.root_hash(), root);
    assert_eq!(state.get_account(alice).unwrap().balance, 1_000);
    assert_eq!(state.get_account(bob).unwrap().balance, 50);
}

#[test]
fn apply_transaction_rejects_missing_recipient_without_changing_state() {
    let (mut state, alice, bob) = sample_state_with_accounts();
    let root = state.root_hash();
    let missing_recipient = [0x33u8; 20];
    let transaction = Transaction::new_transfer(alice, missing_recipient, 0, 150);

    let result = state.apply_transaction(&transaction);

    assert_eq!(
        result,
        Err(ExecutionError::MissingRecipient(missing_recipient))
    );
    assert_eq!(state.root_hash(), root);
    assert_eq!(state.get_account(alice).unwrap().balance, 1_000);
    assert_eq!(state.get_account(bob).unwrap().balance, 50);
}

#[test]
fn apply_transaction_rejects_invalid_nonce_without_changing_state() {
    let (mut state, alice, bob) = sample_state_with_accounts();
    let root = state.root_hash();
    let transaction = Transaction::new_transfer(alice, bob, 1, 150);

    let result = state.apply_transaction(&transaction);

    assert_eq!(
        result,
        Err(ExecutionError::InvalidNonce {
            address: alice,
            expected: 0,
            actual: 1,
        })
    );
    assert_eq!(state.root_hash(), root);
    assert_eq!(state.get_account(alice).unwrap().balance, 1_000);
    assert_eq!(state.get_account(bob).unwrap().balance, 50);
}

#[test]
fn apply_transaction_rejects_insufficient_balance_without_changing_state() {
    let (mut state, alice, bob) = sample_state_with_accounts();
    let root = state.root_hash();
    let transaction = Transaction::new_transfer(alice, bob, 0, 1_001);

    let result = state.apply_transaction(&transaction);

    assert_eq!(
        result,
        Err(ExecutionError::InsufficientBalance {
            address: alice,
            balance: 1_000,
            required: 1_001,
        })
    );
    assert_eq!(state.root_hash(), root);
    assert_eq!(state.get_account(alice).unwrap().balance, 1_000);
    assert_eq!(state.get_account(bob).unwrap().balance, 50);
}

#[test]
fn apply_transaction_rejects_recipient_balance_overflow_without_changing_state() {
    let mut state = State::new();
    let alice = [0x11u8; 20];
    let bob = [0x22u8; 20];

    state.create_account(alice, Account::new_eoa(0, 100));
    state.create_account(bob, Account::new_eoa(7, u64::MAX));
    let root = state.root_hash();
    let transaction = Transaction::new_transfer(alice, bob, 0, 1);

    let result = state.apply_transaction(&transaction);

    assert_eq!(
        result,
        Err(ExecutionError::BalanceOverflow {
            address: bob,
            balance: u64::MAX,
            amount: 1,
        })
    );
    assert_eq!(state.root_hash(), root);
    assert_eq!(state.get_account(alice).unwrap().balance, 100);
    assert_eq!(state.get_account(bob).unwrap().balance, u64::MAX);
}

#[test]
fn apply_transaction_rejects_sender_nonce_overflow_without_changing_state() {
    let mut state = State::new();
    let alice = [0x11u8; 20];
    let bob = [0x22u8; 20];

    state.create_account(alice, Account::new_eoa(u64::MAX, 100));
    state.create_account(bob, Account::new_eoa(7, 50));
    let root = state.root_hash();
    let transaction = Transaction::new_transfer(alice, bob, u64::MAX, 1);

    let result = state.apply_transaction(&transaction);

    assert_eq!(
        result,
        Err(ExecutionError::NonceOverflow {
            address: alice,
            nonce: u64::MAX,
        })
    );
    assert_eq!(state.root_hash(), root);
    assert_eq!(state.get_account(alice).unwrap().nonce, u64::MAX);
    assert_eq!(state.get_account(alice).unwrap().balance, 100);
    assert_eq!(state.get_account(bob).unwrap().balance, 50);
}

#[test]
fn apply_transactions_runs_in_order_and_returns_execution_result() {
    let (mut state, alice, bob)= sample_state_with_accounts();
    let transactions = vec![
        Transaction::new_transfer(alice, bob, 0, 100),
        Transaction::new_transfer(alice, bob, 1, 50),
    ];

    let result = state.apply_transactions(&transactions).unwrap();

    let alice_accout = state.get_account(alice).unwrap();
    let bob_account = state.get_account(bob).unwrap();

    assert_eq!(alice_accout.nonce, 2);
    assert_eq!(alice_accout.balance, 850);
    assert_eq!(bob_account.balance, 200);
    assert_eq!(result.post_state_root, state.root_hash());
    assert_eq!(
        result.receipts,
        vec![
            Receipt::success(SIMPLE_TRANSFER_GAS_USED),
            Receipt::success(SIMPLE_TRANSFER_GAS_USED),
        ] 
    );
    assert_eq!(result.transactions_root, transaction_root(&transactions));
    assert_eq!(result.receipts_root, receipt_root(&result.receipts));
}

#[test]
fn apply_transactions_empty_list_returns_current_root() {
    let (mut state, _, _) = sample_state_with_accounts();
    let root = state.root_hash();

    let result = state
        .apply_transactions(&[])
        .expect("empty transaction list should apply");

    assert_eq!(state.root_hash(), root);
    assert_eq!(result.post_state_root, root);
    assert_eq!(result.receipts, Vec::<Receipt>::new());
    assert_eq!(result.transactions_root, transaction_root(&[]));
    assert_eq!(result.receipts_root, receipt_root(&[]));
}

#[test]
fn apply_transactions_rejects_failed_transaction_without_committing_state() {
    let (mut state, alice, bob) = sample_state_with_accounts();
    let root = state.root_hash();
    let transactions = vec![
        Transaction::new_transfer(alice, bob, 0, 100),
        Transaction::new_transfer(alice, bob, 0, 50),
    ];

    let result = state.apply_transactions(&transactions);

    assert_eq!(
        result,
        Err(ExecutionError::TransactionFailed {
            index: 1,
            error: Box::new(ExecutionError::InvalidNonce {
                address: alice,
                expected: 1,
                actual: 0,
            }),
        })
    );
    assert_eq!(state.root_hash(), root);
    assert_eq!(state.get_account(alice).unwrap().nonce, 0);
    assert_eq!(state.get_account(alice).unwrap().balance, 1_000);
    assert_eq!(state.get_account(bob).unwrap().balance, 50);
}
