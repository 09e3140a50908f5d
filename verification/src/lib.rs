//! A persistent, log-structured key-value store that maps strings to strings.
//!
//! The store appends every mutation to a segmented log, keeps a volatile
//! index from each live key to the position of its authoritative record,
//! and periodically compacts sealed segments to reclaim space.  The log,
//! the index, the record codec, the wire protocol and the request handling
//! are all verified here over an in-memory image of the store directory;
//! reading and writing the actual files and sockets is left to callers.

pub mod client;
pub mod codec;
pub mod config;
pub mod engine;
pub mod error;
pub mod kv;
pub mod network;
pub mod server;

pub use config::Config;
pub use engine::KvsEngine;
pub use error::KvStoreError;
pub use kv::KvStore;
pub use network::{ClientRequest, ClientRequestType, Response};
