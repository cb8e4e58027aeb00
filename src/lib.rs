//! A persistent vector database engine: record formats, the write-ahead
//! log, payload filters, the graph index, snapshots, the collection catalog
//! and cluster placement, each with its contracts.
pub mod auth;
pub mod bytes;
pub mod cluster;
pub mod codec;
pub mod engine;
pub mod filter;
pub mod hnsw;
pub mod query;
pub mod recovery;
pub mod snapshot;
pub mod storage;
pub mod text;
pub mod types;
pub mod wal;
