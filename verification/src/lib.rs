//! An in-process vector index for semantic search.
//!
//! The crate stores short documents together with fixed-point embedding
//! vectors and answers top-k similarity queries under a cosine or Euclidean
//! metric.  Components are scaled integers (`i64`), so every score is exact
//! and the whole search pipeline — scoring, threshold filtering, ranking,
//! truncation — is verified against a mathematical model.

pub mod errors;
pub mod metric;
pub mod index;
pub mod store;
pub mod engine;
pub mod laws;
