//! A verified core of a segment-based in-memory key-value cache speaking the
//! text Memcache protocol.
//!
//! The crate holds the storage engine (segments, a hash index, TTL buckets),
//! the byte-level request parser and response composer, the request executor,
//! the inter-thread queue routing model, and the admin stats formatter.
//! All I/O (sockets, polling, TLS, file mappings) stays outside; callers hand
//! the library plain bytes and clock readings and take plain bytes back.

pub mod admin;
pub mod common;
pub mod config;
pub mod cache;
pub mod executor;
pub mod hashtable;
pub mod laws;
pub mod protocol;
pub mod queues;
pub mod session;
pub mod response;
pub mod serialize;
pub mod seg;
pub mod ttl;
