//! Normalises newline-delimited JSON records into relational tables: one table
//! per nesting path, linked by surrogate primary and foreign keys, written out
//! as CSV text.
pub mod err;
pub mod text;
pub mod value;
pub mod row;
pub mod columns;
pub mod opts;
pub mod sink;
pub mod table;
pub mod schema;
pub mod laws;
pub mod ingest;
pub mod sql;
