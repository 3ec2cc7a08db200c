//! A key/value cache whose entries are unique by key, with the decisions of
//! loading it from, and writing it back to, a single file.

pub mod entry;
pub mod store;
pub mod config;
pub mod laws;
