//! A lightweight content-addressed version-control substrate: file contents
//! are hashed into immutable objects, recorded as a durable sequence of
//! change records, and propagated to subscribers that re-materialize the
//! objects on disk.
//!
//! The crate holds the storage-and-replication engine: the object model and
//! its canonical binary format (`object`, `codec`, `hashing`), the
//! content-addressed object store (`storage`), the crash-recoverable change
//! journal (`commit_log`), the sequencer that assigns record ids
//! (`commit`), the ingestion rules behind the request surface (`server`),
//! and the sync client's safety and backoff logic (`sync`, `watcher`).

pub mod codec;
pub mod commit;
pub mod commit_log;
pub mod error;
pub mod hashing;
pub mod object;
pub mod server;
pub mod storage;
pub mod sync;
pub mod watcher;
