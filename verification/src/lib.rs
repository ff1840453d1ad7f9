//! Sharded, encrypted storage for a peer-to-peer daemon: key derivation,
//! key wrapping, secret splitting, erasure-coded sharding and the decisions
//! of the background re-encryption loop.

pub mod error;
pub mod crypto;
pub mod daemon;
pub mod network;
pub mod storage;
pub mod sync;
