//! A content-addressed cache of responses of language models.
//!
//! A request is a JSON document. Its fingerprint is the BLAKE3 hash of its
//! canonical text, so requests that differ only in the order of keys, or in how an
//! integer is written, share one.
//! The cache keeps, under each fingerprint, the canonical request, the response
//! and metadata about it. It serves tests, continuous integration and replay.
//!
//! - [`json`], [`model`], [`key_order`], [`number`], [`canonical`]: documents, what
//!   they say, and their canonical form.
//! - [`value`], [`fingerprint`]: the boundary to `serde_json`, and fingerprints.
//! - [`cache`], [`meta`], [`stats`], [`error`]: the operations, as steps that
//!   whoever holds the store carries out.
//! - [`store`]: what the operations amount to on the store's tables.
//! - [`bridge`]: what the Python module does between its arguments and the cache.
pub mod bridge;
pub mod cache;
pub mod canonical;
pub mod error;
pub mod fingerprint;
pub mod json;
pub mod key_order;
pub mod meta;
pub mod model;
pub mod number;
pub mod stats;
pub mod store;
pub mod value;

pub use cache::Cache;
pub use canonical::canonicalize;
pub use error::CacheError;
pub use json::{Json, Object};
pub use meta::CachedMeta;
pub use stats::CacheStats;
