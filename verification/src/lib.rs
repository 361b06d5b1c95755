//! A minimal local vector store: ingests raw text into ordered batches,
//! persists (chunk, vector) records in a length-prefixed binary format,
//! reassembles persisted batches into one in-memory dataset, and answers
//! nearest-neighbor queries against it.
//!
//! Embedding vectors and similarity scores are 32-bit IEEE-754 values; the
//! library stores and ranks them by their exact bit patterns (`u32`), so
//! encoding round-trips bit-for-bit and ranking is a total order that agrees
//! with the usual float order on well-defined scores. The float arithmetic
//! itself (computing a score from two vectors) is left to the caller.

pub mod errors;
pub mod embedder;
pub mod codec;
pub mod text;
pub mod storage;
pub mod search;
pub mod ingest;
pub mod reader;
pub mod vector;
pub mod writer;
