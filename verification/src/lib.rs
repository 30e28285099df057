//! A content-addressed, deduplicating chunk store.
//!
//! Byte buffers are split into fixed-size chunks; each chunk is identified by
//! the uppercase hex digest of its content, compressed, and kept under its
//! hash. A per-file metadata record carries the ordered chunk-hash list from
//! which the original bytes are reconstructed.
#![verifier::loop_isolation(false)]

pub mod chunking;
pub mod compress;
pub mod cry;
pub mod errors;
pub mod hashing;
pub mod metadata;
pub mod store;
