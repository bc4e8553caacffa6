[package]
name = "partial-bonsai-trie"
version = "0.1.0"
edition = "2021"
publish = false

[dependencies]
starknet-types-core = { version = "=0.1.7", default-features = false, features = ["std", "alloc", "hash", "num-traits"] }
hashbrown = "=0.14.5"
thiserror = "=1.0.69"
bitvec = "=1.1.1"
