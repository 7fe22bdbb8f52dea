# toy_merkle_radix_account_trie

A small Ethereum-style state library, verified with Verus: a Merkle Patricia
Trie over a content-addressed node store, account and storage tries keyed by
Keccak-256 hashes, transfer transactions and receipts with their index tries,
block headers and blocks, and a world state that applies transfers.

Layout:

- `src/` is the verified library.
  - `nibbles.rs`: nibble paths and the hex-prefix (compact) path encoding.
  - `mpt.rs`: trie nodes and their RLP encoding.
  - `node_db.rs`: the node store.
  - `mpt_trie.rs`: lookup, proofs, proof checking and insertion.
  - `trie_facts.rs` and `canonical.rs`: the lemmas behind them. In particular, every
    trie built by insertion is canonical, and canonical tries with the same
    entries have the same root hash.
  - `account.rs`, `storage.rs`, `transaction.rs`, `execution.rs`: accounts,
    storage slots, transactions and receipts, headers, blocks and the state.
  - `trie.rs`: the older branch-only radix trie, kept apart as legacy code.
  - `codec.rs` and `crypto.rs`: the trusted boundary to the `rlp` and `sha3`
    crates. Each item there states what it assumes of the outside call.
- `tests/` holds the tests, which run against the compiled library.
- `app/` is the demo program. It prints an account proof and checks it.

Most contracts are stated over the trie's view, a map from keys to values.
The insertion laws hold where no two encodings written to a store share a hash.
Each such contract names this condition (`collision_free`).
