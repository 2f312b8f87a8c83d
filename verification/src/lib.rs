//! A special-purpose state store for stream-processing operators.
//!
//! The crate offers two kinds of indexes — a single-value index and a keyed
//! hash index — both backed by one durable key/value store. Most reads and
//! writes hit memory; a bounded fraction of dirty entries is flushed to the
//! store, either eagerly (copy-on-write) or lazily (on threshold, eviction
//! or an explicit persist).

pub mod art;
pub mod config;
pub mod data;
pub mod entry;
pub mod error;
pub mod group;
pub mod hash_index;
pub mod index;
pub mod probe;
pub mod store;
pub mod table;
pub mod value_index;

pub use crate::error::BrittMarieError;
pub use crate::hash_index::HashIndex;
pub use crate::index::{HashOps, IndexOps, OrderedOps, ValueOps, WriteMode};
pub use crate::store::RawStore;
pub use crate::value_index::ValueIndex;
