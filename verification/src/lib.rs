//! Versioned storage of configuration trees.
//!
//! A configuration is a tree of named members. Its *fingerprint* is a 64-bit
//! digest of the member names and their nesting, so that two configurations
//! with the same layout share one lineage in the [`store::Store`], which keeps
//! the first configuration of each layout in full and every later one as the
//! set of members that changed.

pub mod binding;
pub mod delta;
pub mod error;
pub mod fingerprint;
pub mod keys;
pub mod laws;
pub mod search;
pub mod source;
pub mod store;
pub mod value;
