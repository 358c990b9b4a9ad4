//! An embedded log-structured-merge key-value store: an in-memory sorted
//! buffer of recent writes is sealed and persisted as immutable, checksummed
//! sorted tables, and lookups run newest layer first.
pub mod keys;
pub mod model;
pub mod crc;
pub mod format;
pub mod errors;
pub mod block;
pub mod index;
pub mod memtable;
pub mod table;
pub mod builder;
pub mod reader;
pub mod kv;
pub mod crdt;
pub mod iter;
