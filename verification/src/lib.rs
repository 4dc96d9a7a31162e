//! Small data structures for distributing keys: a consistent hash ring and a
//! family of Bloom filters.

pub mod bloom_filter;
pub mod bloom_filters;
pub mod consistent_hash_ring;
pub mod hashing;
pub mod implementations;
pub mod replica_key;
pub mod virtual_node;
