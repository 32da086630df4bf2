//! Root hash computation for a hexary Merkle-Patricia trie laid over a flat
//! key/value storage snapshot.
//!
//! The trie itself is never materialized: its shape is inferred from the
//! storage by prefix queries, every node is encoded into a canonical byte
//! string, and the root's BLAKE2b-256 digest commits to the whole mapping.

pub mod calculate_root;
pub mod codec;
pub mod hashing;
pub mod nibbles;
pub mod shape;
pub mod storage;

pub use calculate_root::{root_merkle_value, CalculationCache, Config};
pub use nibbles::TrieNodeKey;
pub use storage::Storage;
