//! Local write-buffering layer of a log-ingestion storage engine.
//!
//! Incoming columnar record batches are appended to schema-partitioned
//! staging files through a concurrent stream-writer registry.  The registry
//! guarantees at most one writer per (stream, schema) pair, lazily creates
//! and finalizes writers, and surfaces lock poisoning as recoverable errors.

pub mod config;
pub mod errors;
pub mod laws;
pub mod validation;
pub mod writer;
