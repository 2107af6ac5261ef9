//! A normalized entity cache for tree-shaped response documents.
//!
//! Documents are validated, flattened into one record per identifiable
//! entity (keyed by type name and id), and reconstructed on demand.
pub mod value;
pub mod key;
pub mod validate;
pub mod normalize;
pub mod table;
pub mod cache;
pub mod laws;
pub mod client;
