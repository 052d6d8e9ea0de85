//! A value table: an append-and-reuse slot store holding variable-length
//! blobs keyed by fixed-length fingerprints, laid out over a single backing
//! byte store divided into fixed-size entries.  Mutations are staged as
//! plans in a write-ahead-log overlay and later enacted against the store.

pub mod bytes;
pub mod wal;
pub mod table;
pub mod laws;
