//! Core of a CSV-to-SQL bulk loader: a column type lattice with merge-based
//! schema inference, row batching, CSV payload encoding for a bulk-copy
//! transfer, and a bounded-retry state machine with exponential backoff.
//!
//! File and database plumbing (reading delimited files, the database
//! connection, progress display) lives outside this library; the library
//! works on plain rows and hands back schemas, payloads and decisions.

pub mod batch;
pub mod delimiter;
pub mod digits;
pub mod encode;
pub mod errors;
pub mod ext;
pub mod scan;
pub mod schema;
pub mod types;
