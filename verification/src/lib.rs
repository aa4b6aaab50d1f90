//! Storage core of an embedded log-structured-merge key-value database.
//!
//! The crate ties a write-ahead log, immutable sorted table files and a
//! sparse in-memory index into one consistent interface: `get`, `insert`,
//! `flush` and `delete`, plus the bootstrap procedure that rebuilds the
//! index from the table files at startup.

pub mod keys;
pub mod codec;
pub mod table;
pub mod index;
pub mod persistence;
pub mod laws;
