//! A persistent key-value store built on an append-only command log.
//!
//! The storage engine keeps an in-memory index from keys to byte ranges of
//! the log, rebuilds that index by replaying the log, and reclaims space by
//! compacting live records into a fresh segment. The log and the wire
//! protocol share one self-delimiting record encoding, implemented and
//! specified here byte by byte.
//!
//! - [`record`]: the command record and the replay semantics of a record
//!   sequence.
//! - [`codec`]: the canonical byte encoding of records, its decoder, and
//!   the proofs that they are inverse.
//! - [`index`]: the in-memory map from keys to log pointers.
//! - [`store`]: the engine — open with replay, get, set, remove,
//!   compaction — and the durability laws.
//! - [`engine`]: the capability interface any backend must satisfy.
//! - [`protocol`], [`server`], [`client`]: the wire encoding of requests
//!   and responses, the dispatch core, and the client's interpreters.
//!
//! The process around the library supplies what a verifier cannot check:
//! the log file itself (driven by [`store::LogEffect`] values), the
//! sockets, and the command line.

pub mod client;
pub mod codec;
pub mod engine;
pub mod errors;
pub mod index;
pub mod protocol;
pub mod record;
pub mod server;
pub mod store;

pub use engine::KvsEngine;
pub use errors::MyError;
pub use record::Record;
pub use server::Server;
pub use store::KvStore;
