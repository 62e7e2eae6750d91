//! A probabilistic full-text index.
//!
//! Each ingested document is reduced to its set of normalized tokens, which
//! is stored in a Bloom filter sized for that set and for the index's error
//! rate. A search returns, in byte order, the identifiers of the documents
//! whose filters contain every token of the query. False positives are
//! possible, at about the chosen rate; false negatives are not.
pub mod bloom_filter;
pub mod errors;
pub mod index;
pub mod rate;
pub mod tokens;

pub use crate::bloom_filter::{probe_from_digest, BloomFilter};
pub use crate::errors::Error;
pub use crate::index::{FilterRecord, Index, IndexRecord};
pub use crate::rate::ErrorRate;
pub use crate::tokens::{normalize_folded, Tokens};
