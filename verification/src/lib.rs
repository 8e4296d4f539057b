//! Core of a Sleepy-style blockchain node: block and transaction model with a
//! canonical binary encoding, a fork-aware in-memory chain store with deferred
//! admission of future blocks, a transaction admission pool, and the peer
//! message routing rules.

pub mod chain;
pub mod codec;
pub mod crypto;
pub mod error;
pub mod hashes;
pub mod model;
pub mod network;
pub mod pool;
pub mod signer;
pub mod store;
