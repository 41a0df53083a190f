//! A bounded key-value cache with least-recently-used eviction.

pub mod lru;

pub use lru::LRUCache;
