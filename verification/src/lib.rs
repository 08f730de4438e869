//! A persistent, log-structured key-value store.
//!
//! The store appends serialized commands to numbered segment files, keeps an
//! in-memory index from each key to the exact byte location of its latest
//! `Set` record, and reclaims superseded bytes through compaction.

pub mod client;
pub mod codec;
pub mod disk;
pub mod engine;
pub mod error;
pub mod file;
pub mod index;
pub mod kv;
pub mod protocol;
pub mod server;

pub use codec::Command;
pub use error::Error;
pub use file::CmdInfo;
pub use file::Location;
pub use engine::KvsEngine;
pub use kv::KvStore;
pub use kv::KvStoreBuilder;
pub use protocol::Proto;
pub use protocol::ProtoCodec;
pub use protocol::ProtoError;
