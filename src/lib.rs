//! Content-addressed file hoard: hashes, an object store keyed by inode and
//! hash, a name index, and the reconciliation of a desired layout against the
//! layout found on disk.
pub mod error;
pub mod hash;
pub mod index;
pub mod order;
pub mod repo;
pub mod state;
pub mod store;
