//! Trust-and-replication engine for a small peer-to-peer key/value
//! synchronization fleet.
//!
//! The crate verifies the core logic of the service: the last-writer-wins
//! key/value store, the peer whitelist with one-hop recommendation trust,
//! the admission policies (rate limit, connection cap, blocklist), the
//! connection registry, the key-distribution protocol and the inbound
//! message pipeline. Transport, persistence and the operator interface are
//! unverified shells around this library.

pub mod codec;
pub mod config;
pub mod connection_manager;
pub mod crypto;
pub mod key_distribution;
pub mod pipeline;
pub mod security;
pub mod storage;
pub mod strings;
pub mod sync;
pub mod whitelist;
