//! An append-only audit log kept in stable memory, with an index of its
//! entries by user and timestamp and resumable, bounded reads.
pub mod key;
pub mod scan;
pub mod service;
pub mod store;
