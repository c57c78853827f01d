//! A content-addressed blob store: hashes and their string forms, the names of
//! the files on disk, the index entries, the in-memory liveness state and the
//! decisions that import, promotion, export, deletion and startup
//! reconciliation take.
pub mod encoding;
pub mod hash;
pub mod filename;
pub mod entry;
pub mod state;
pub mod store;
pub mod reconcile;
