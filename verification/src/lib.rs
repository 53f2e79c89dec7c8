//! A document-store layer over an ordered, transactional key-value engine.
//!
//! This crate holds the part that computes: the JSON document model, dot-path
//! addressing, the merge-update interpreter, the key codec and the planning of
//! each transaction-handle operation. It performs no I/O.

pub mod client;
pub mod errors;
pub mod fields;
pub mod json;
pub mod keys;
pub mod laws;
pub mod merge;
pub mod ops;
pub mod order;
pub mod paging;
pub mod text;
pub mod transaction;
pub mod utils;
pub mod value;

pub use keys::make_key;
