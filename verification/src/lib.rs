//! Verified core of a block based disk cache.

pub mod bits;
pub mod combined;
pub mod device;
pub mod either;
pub mod engine;
pub mod error;
pub mod eviction;
pub mod indexer;
pub mod manager;
pub mod range;
pub mod recover;
pub mod serde;
pub mod statistics;
