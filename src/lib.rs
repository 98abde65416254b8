//! An encrypted, single-directory object store: the decisions and data
//! transforms of ingest and retrieval, with the filesystem left to the caller.
pub mod cipher;
pub mod error;
pub mod ident;
pub mod resize;
pub mod store;
