//! A log-structured key/value storage engine.
//!
//! Keys and values are strings. Mutations are appended to generation-numbered
//! log segments as self-delimiting binary records; an in-memory index maps
//! each live key to the exact byte span of its latest `Put` record, and a
//! compaction pass rewrites the live records into fresh segments once enough
//! superseded bytes have accumulated.
//!
//! The engine itself operates on an in-memory image of the segment files and
//! records the effects (segment creations, appends and deletions) that an I/O
//! shell must mirror to durable storage.

pub mod codec;
pub mod discovery;
pub mod engine;
pub mod index;
pub mod protocol;
pub mod store;
pub mod error;

pub use codec::Command;
pub use discovery::{log_path, parse_gen, sorted_gen_list};
pub use engine::{KvsEngine, SledKvsEngine};
pub use error::KvsError;
pub use index::CommandPos;
pub use protocol::{GetResponse, KvsServer, RemoveResponse, Request, Response, SetResponse};
pub use store::{Effect, KvStore, Segment};
