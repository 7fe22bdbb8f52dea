[package]
name = "toy_merkle_radix_account_trie"
version = "0.1.0"
edition = "2021"
publish = false

[dependencies]
rlp = "0.5"
sha3 = "0.10"
hex = "0.4"
