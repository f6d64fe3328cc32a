//! Durability and row-encoding core of a table-oriented storage engine:
//! a checkpointed write-ahead log over newline-delimited records, a schema
//! system with a fixed-width column type catalog, and a tuple codec that
//! packs a row's non-null column bytes behind a null-presence bitmap.

pub mod schema;
pub mod tuple;
pub mod wal;
