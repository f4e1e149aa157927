//! Verified core of a source-file indexing pipeline.
//!
//! The pipeline walks a directory tree, keeps the source files a filter
//! admits, groups their contents into fixed-size batches, and pairs each
//! batch with the embeddings a provider returns for it, ready to be
//! persisted. Everything here is the decision and bookkeeping logic of
//! that pipeline; the directory walk itself, the embedding call and the
//! storage writes are performed by the surrounding program, which feeds
//! their outcomes in as plain values.

pub mod directory_indexer;
pub mod embedder;
pub mod server;
pub mod vector_store;
