use rlp::RlpStream;
use toy_merkle_radix_account_trie::keccak256;
use toy_merkle_radix_account_trie::mpt::{
    compact_decode, compact_encode, verify_mpt_proof, MptNode, MptNodeDb, MptTrie,
};

#[test]
fn branch_starts_empty() {
    let node = MptNode::branch();

    let MptNode::Branch { children, value } = node else {
        panic!("expected branch node");
    };

    assert!(children.iter().all(Option::is_none));
    assert_eq!(value, None);
}

#[test]
fn branch_can_store_value_for_key_that_ends_at_bench() {
    let node = MptNode::branch_with_value(b"account".to_vec());

    let MptNode::Branch { children, value } = node else {
        panic!("expected branch node");
    };

    assert!(children.iter().all(Option::is_none));
    assert_eq!(value, Some(b"account".to_vec()));
}

#[test]
fn leaf_stores_remaining_path_and_value() {
    let node = MptNode::leaf(vec![0x0a, 0x0b, 0x0c], b"value".to_vec());

    assert_eq!(
        node,
        MptNode::Leaf {
            path: vec![0x0a, 0x0b, 0x0c],
            value: b"value".to_vec(),
        }
    );
}

#[test]
fn extension_stores_shared_path_and_child_reference() {
    let child = [0x11u8; 32];
    let node = MptNode::extension(vec![0x01, 0x02], child);

    assert_eq!(
        node,
        MptNode::Extension {
            path: vec![0x01, 0x02],
            child,
        }
    );
}

#[test]
fn compact_encode_extension_even_path() {
    assert_eq!(
        compact_encode(&[0x01, 0x02, 0x03, 0x04], false),
        vec![0x00, 0x12, 0x34]
    );
}

#[test]
fn compact_encode_extension_odd_path() {
    assert_eq!(
        compact_encode(&[0x01, 0x02, 0x03], false),
        vec![0x11, 0x23]
    );       
}

#[test]
fn compact_encode_leaf_even_path() {
    assert_eq!(
        compact_encode(&[0x01, 0x02, 0x03, 0x04], true),
        vec![0x20, 0x12, 0x34]
    );
}

#[test]
fn compact_encode_leaf_odd_path() {
    assert_eq!(compact_encode(&[0x01, 0x02, 0x03], true), vec![0x31, 0x23]);
}

#[test]
fn compact_encode_empty_paths() {
    assert_eq!(compact_encode(&[], false), vec![0x00]);
    assert_eq!(compact_encode(&[], true), vec![0x20]);
}

#[test]
fn compact_decode_extension_even_path() {
    assert_eq!(
        compact_decode(&[0x00, 0x12, 0x34]),
        Some((vec![0x01, 0x02, 0x03, 0x04], false))
    );
}

#[test]
fn compact_decode_extension_odd_path() {
    assert_eq!(
        compact_decode(&[0x11, 0x23]),
        Some((vec![0x01, 0x02, 0x03], false))
    );
}

#[test]
fn compact_decode_leaf_even_path() {
    assert_eq!(
        compact_decode(&[0x20, 0x12, 0x34]),
        Some((vec![0x01, 0x02, 0x03, 0x04], true))
    );
}

#[test]
fn compact_decode_leaf_odd_path() {
    assert_eq!(
        compact_decode(&[0x31, 0x23]),
        Some((vec![0x01, 0x02, 0x03], true))
    );
}

#[test]
fn compact_decode_rejects_invalid_inputs() {
    assert_eq!(compact_decode(&[]), None);
    assert_eq!(compact_decode(&[0x40]), None);
    assert_eq!(compact_decode(&[0x01]), None);
}

#[test]
fn compact_encoding_round_trips_paths() {
    let paths = [vec![], vec![0x0f], vec![0x00, 0x01], vec![0x0a, 0x0b, 0x0c]];

    for path in paths {
        assert_eq!(
            compact_decode(&compact_encode(&path, false)),
            Some((path.clone(), false))
        );
        assert_eq!(
            compact_decode(&compact_encode(&path, true)),
            Some((path.clone(), true))
        );
    }
}

#[test]
fn branch_node_rlp_round_trips() {
    let mut children = [None; 16];
    children[3] = Some([0x33u8; 32]);
    children[10] = Some([0xaau8; 32]);
    let node = MptNode::Branch { 
        children,
        value: Some(b"branch-value".to_vec()), 
    };

    assert_eq!(MptNode::decode(&node.encode()) , Some(node))
}

#[test]
fn leaf_node_rlp_round_trips() {
    let node = MptNode::Leaf { 
        path: vec![0x01, 0x02, 0x03],
        value: b"leaf-node".to_vec() 
    };

    assert_eq!(MptNode::decode(&node.encode()), Some(node));
}

#[test]
fn extension_node_rlp_round_trips() {
    let node = MptNode::Extension { 
        path: vec![0x01, 0x02, 0x03],
        child: [0x44u8; 32],
    };

    assert_eq!(MptNode::decode(&node.encode()), Some(node));
}


#[test]
fn empty_branch_node_rlp_round_trips() {
    let node = MptNode::branch();

    assert_eq!(MptNode::decode(&node.encode()), Some(node));
}

   #[test]
fn decode_rejects_branch_child_with_invalid_hash_length() {
    let mut stream = RlpStream::new_list(17);

    stream.append(&vec![0x01, 0x02]);
    for _ in 1..16 {
        stream.append_empty_data();
    }
    stream.append_empty_data();

    assert_eq!(MptNode::decode(&stream.out()), None);
}

#[test]
fn decode_rejects_extension_with_invalid_child_length() {
    let mut stream = RlpStream::new_list(2);
    stream.append(&compact_encode(&[0x01, 0x02], false));
    stream.append(&vec![0x01, 0x02]);

    assert_eq!(MptNode::decode(&stream.out()), None);
}

#[test]
fn decode_rejects_short_node_with_invalid_compact_path() {
    let mut stream = RlpStream::new_list(2);
    stream.append(&vec![0x40]);
    stream.append(&b"value".to_vec());

    assert_eq!(MptNode::decode(&stream.out()), None);
}

#[test]
fn node_db_put_returns_hash_of_encoded_node() {
    let mut db = MptNodeDb::new();
    let node = MptNode::branch_with_value(b"branch-value".to_vec());

    let hash = db.put(&node);

    assert_eq!(hash, keccak256(&node.encode()));
    assert!(db.contains(hash));
}

#[test]
fn node_db_get_decodes_stored_node() {
    let mut db = MptNodeDb::new();
    let node = MptNode::extension(vec![0x0a], [0x55u8; 32]);

    let hash = db.put(&node);

    assert_eq!(db.get(hash), Some(node));
}

#[test]
fn node_db_get_encoded_returns_raw_encoded_node() {
    let mut db = MptNodeDb::new();
    let node = MptNode::branch_with_value(b"branch-value".to_vec());
    let encoded = node.encode();

    let hash = db.put(&node);

    assert_eq!(db.get_encoded(hash), Some(encoded.as_slice()));
}

#[test]
fn node_db_deduplicates_identical_nodes_by_hash() {
    let mut db = MptNodeDb::new();
    let node = MptNode::leaf(vec![0x01], b"value".to_vec());

    let first_hash = db.put(&node);
    let second_hash = db.put(&node);

    assert_eq!(first_hash, second_hash);
    assert_eq!(db.len(), 1);
}

#[test]
fn node_db_returns_none_for_missing_hash() {
    let db = MptNodeDb::new();

    assert_eq!(db.get([0x99u8; 32]), None);
    assert_eq!(db.get_encoded([0x99u8; 32]), None);
    assert!(!db.contains([0x99u8; 32]));
}

#[test]
fn empty_mpt_trie_has_zero_root_and_no_values() {
    let trie = MptTrie::new();

    assert_eq!(trie.root_hash(), [0u8; 32]);
    assert_eq!(trie.get(b"\x12"), None);
}

#[test]
fn mpt_get_reads_root_leaf_on_exact_path(){
    let mut db = MptNodeDb::new();
    let root = db.put(&MptNode::leaf(
        vec![0x01, 0x02, 0x03, 0x04], 
        b"value".to_vec()
    ));

    let trie = MptTrie::from_root(db, root);

    assert_eq!(trie.root_hash(), root);
    assert_eq!(trie.get(b"\x12\x34"), Some(b"value".to_vec()));
}

#[test]
fn mpt_get_rejects_root_leaf_path_mismatch() {
    let mut db = MptNodeDb::new();
    let root = db.put(&MptNode::leaf(
        vec![0x01, 0x02, 0x03, 0x04],
        b"value".to_vec(),
    ));
    let trie = MptTrie::from_root(db, root);

    assert_eq!(trie.get(b"\x12\x35"), None);
    assert_eq!(trie.get(b"\x12"), None);
}

#[test]
fn mpt_get_walks_extension_to_leaf() {
    let mut db = MptNodeDb::new();
    let leaf = db.put(&MptNode::leaf(vec![0x03, 0x04], b"value".to_vec()));
    let root = db.put(&MptNode::extension(vec![0x01, 0x02], leaf));

    let trie = MptTrie::from_root(db, root);

    assert_eq!(trie.get(b"\x12\x34"), Some(b"value".to_vec()));
}

#[test]
fn mpt_get_rejects_extension_path_mismatch() {
    let mut db = MptNodeDb::new();
    let leaf = db.put(&MptNode::leaf(vec![0x03, 0x04], b"value".to_vec()));
    let root = db.put(&MptNode::extension(vec![0x01, 0x02], leaf));
    let trie = MptTrie::from_root(db, root);

    assert_eq!(trie.get(b"\x13\x04"), None);
    assert_eq!(trie.get(b"\x12"), None);
}

#[test]
fn mpt_get_walks_branch_child() {
    let mut db = MptNodeDb::new();
    let leaf = db.put(&MptNode::leaf(vec![0x02, 0x03, 0x00], b"value".to_vec()));
    let mut children = [None; 16];
    children[1] = Some(leaf);
    let root = db.put(&MptNode::Branch { 
        children,
        value: None
    });

    let trie = MptTrie::from_root(db, root);

    assert_eq!(trie.get(b"\x12\x30"), Some(b"value".to_vec()));
    assert_eq!(trie.get(b"\x22\x30"), None);
}

#[test]
fn mpt_get_reads_branch_value_when_key_ends_at_branch() {
    let mut db = MptNodeDb::new();
    let root = db.put(&MptNode::branch_with_value(b"branch-value".to_vec()));
    let trie = MptTrie::from_root(db, root);

    assert_eq!(trie.get(b""), Some(b"branch-value".to_vec()));
    assert_eq!(trie.get(b"\x00"), None);
}

#[test]
fn mpt_insert_into_empty_trie_creates_readable_leaf() {
    let mut trie = MptTrie::new();

    trie.insert(b"\x12\x34", b"value".to_vec());

    assert_ne!(trie.root_hash(), [0u8; 32]);
    assert_eq!(trie.get(b"\x12\x34"), Some(b"value".to_vec()));
    assert_eq!(trie.get(b"\x12\x35"), None);
}

#[test]
fn mpt_insert_same_key_overwrites_value() {
    let mut trie = MptTrie::new();

    trie.insert(b"\x12", b"old".to_vec());
    let old_root = trie.root_hash();
    trie.insert(b"\x12", b"new".to_vec());

    assert_ne!(trie.root_hash(), old_root);
    assert_eq!(trie.get(b"\x12"), Some(b"new".to_vec()));
}

#[test]
fn mpt_insert_same_key_same_value_keeps_root_stable() {
    let mut trie = MptTrie::new();

    trie.insert(b"\x12", b"value".to_vec());
    let first_root = trie.root_hash();
    trie.insert(b"\x12", b"value".to_vec());

    assert_eq!(trie.root_hash(), first_root);
}

#[test]
fn mpt_insert_two_keys_without_shared_prefix_creates_branch() {
    let mut trie = MptTrie::new();

    trie.insert(b"\x10", b"left".to_vec());
    trie.insert(b"\x20", b"right".to_vec());

    assert_eq!(trie.get(b"\x10"), Some(b"left".to_vec()));
    assert_eq!(trie.get(b"\x20"), Some(b"right".to_vec()));
    assert_eq!(trie.get(b"\x30"), None);
}

#[test]
fn mpt_insert_two_keys_with_shared_prefix_creates_extension_and_branch() {
    let mut trie = MptTrie::new();

    trie.insert(b"\x12\x34", b"left".to_vec());
    trie.insert(b"\x12\x35", b"right".to_vec());

    assert_eq!(trie.get(b"\x12\x34"), Some(b"left".to_vec()));
    assert_eq!(trie.get(b"\x12\x35"), Some(b"right".to_vec()));
    assert_eq!(trie.get(b"\x12\x36"), None);
}

#[test]
fn mpt_insert_short_key_after_long_key_uses_branch_value() {
    let mut trie = MptTrie::new();

    trie.insert(b"\x12\x34", b"long".to_vec());
    trie.insert(b"\x12", b"short".to_vec());

    assert_eq!(trie.get(b"\x12"), Some(b"short".to_vec()));
    assert_eq!(trie.get(b"\x12\x34"), Some(b"long".to_vec()));
}

#[test]
fn mpt_insert_long_key_after_short_key_preserves_branch_value() {
    let mut trie = MptTrie::new();

    trie.insert(b"\x12", b"short".to_vec());
    trie.insert(b"\x12\x34", b"long".to_vec());

    assert_eq!(trie.get(b"\x12"), Some(b"short".to_vec()));
    assert_eq!(trie.get(b"\x12\x34"), Some(b"long".to_vec()));
}

#[test]
fn mpt_insert_through_existing_extension_adds_branch_child() {
    let mut trie = MptTrie::new();

    trie.insert(b"\x12\x34", b"first".to_vec());
    trie.insert(b"\x12\x35", b"second".to_vec());
    trie.insert(b"\x12\x36", b"third".to_vec());

    assert_eq!(trie.get(b"\x12\x34"), Some(b"first".to_vec()));
    assert_eq!(trie.get(b"\x12\x35"), Some(b"second".to_vec()));
    assert_eq!(trie.get(b"\x12\x36"), Some(b"third".to_vec()));
}

#[test]
fn mpt_insert_empty_key_is_readable() {
    let mut trie = MptTrie::new();

    trie.insert(b"", b"empty-key".to_vec());
    trie.insert(b"\x12", b"other".to_vec());

    assert_eq!(trie.get(b""), Some(b"empty-key".to_vec()));
    assert_eq!(trie.get(b"\x12"), Some(b"other".to_vec()));
}

#[test]
fn mpt_prove_returns_inclusion_proof_for_leaf_value() {
    let mut trie = MptTrie::new();
    trie.insert(b"\x12\x34", b"value".to_vec());

    let proof = trie.prove(b"\x12\x34").expect("proof should exist");

    assert_eq!(proof.len(), 1);
    assert!(verify_mpt_proof(
        trie.root_hash(),
        b"\x12\x34",
        b"value",
        &proof
    ));
}

#[test]
fn mpt_prove_returns_inclusion_proof_through_extension_and_branch() {
    let mut trie = MptTrie::new();
    trie.insert(b"\x12\x34", b"left".to_vec());
    trie.insert(b"\x12\x35", b"right".to_vec());

    let proof = trie.prove(b"\x12\x35").expect("proof should exist");

    assert_eq!(proof.len(), 3);
    assert!(verify_mpt_proof(
        trie.root_hash(),
        b"\x12\x35",
        b"right",
        &proof
    ));
}

#[test]
fn mpt_prove_returns_inclusion_proof_for_branch_value() {
    let mut trie = MptTrie::new();
    trie.insert(b"\x12", b"short".to_vec());
    trie.insert(b"\x12\x34", b"long".to_vec());

    let proof = trie.prove(b"\x12").expect("proof should exist");

    assert!(verify_mpt_proof(
        trie.root_hash(),
        b"\x12",
        b"short",
        &proof
    ));
}

#[test]
fn mpt_prove_returns_none_for_missing_key() {
    let mut trie = MptTrie::new();
    trie.insert(b"\x12\x34", b"value".to_vec());

    assert_eq!(trie.prove(b"\x12\x35"), None);
    assert_eq!(trie.prove(b"\x12"), None);
}

#[test]
fn verify_mpt_proof_rejects_wrong_root() {
    let mut trie = MptTrie::new();
    trie.insert(b"\x12\x34", b"value".to_vec());
    let proof = trie.prove(b"\x12\x34").expect("proof should exist");

    assert!(!verify_mpt_proof(
        [0x99u8; 32],
        b"\x12\x34",
        b"value",
        &proof
    ));
}

#[test]
fn verify_mpt_proof_rejects_wrong_value() {
    let mut trie = MptTrie::new();
    trie.insert(b"\x12\x34", b"value".to_vec());
    let proof = trie.prove(b"\x12\x34").expect("proof should exist");

    assert!(!verify_mpt_proof(
        trie.root_hash(),
        b"\x12\x34",
        b"wrong",
        &proof
    ));
}

#[test]
fn verify_mpt_proof_rejects_wrong_key() {
    let mut trie = MptTrie::new();
    trie.insert(b"\x12\x34", b"value".to_vec());
    let proof = trie.prove(b"\x12\x34").expect("proof should exist");

    assert!(!verify_mpt_proof(
        trie.root_hash(),
        b"\x12\x35",
        b"value",
        &proof
    ));
}

#[test]
fn verify_mpt_proof_rejects_tampered_node() {
    let mut trie = MptTrie::new();
    trie.insert(b"\x12\x34", b"value".to_vec());
    let mut proof = trie.prove(b"\x12\x34").expect("proof should exist");
    proof[0][0] ^= 0x01;

    assert!(!verify_mpt_proof(
        trie.root_hash(),
        b"\x12\x34",
        b"value",
        &proof
    ));
}

#[test]
fn verify_mpt_proof_rejects_extra_nodes_after_value() {
    let mut trie = MptTrie::new();
    trie.insert(b"\x12\x34", b"value".to_vec());
    let mut proof = trie.prove(b"\x12\x34").expect("proof should exist");
    proof.push(MptNode::leaf(vec![], b"extra".to_vec()).encode());

    assert!(!verify_mpt_proof(
        trie.root_hash(),
        b"\x12\x34",
        b"value",
        &proof
    ));
}
