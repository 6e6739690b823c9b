//! Deduplicating aggregation of periodic transaction reports.
//!
//! Rows of a report are fingerprinted, rows seen before are skipped, and the
//! rest are folded into exact integer totals per consolidation key. The
//! logic is verified against its contracts; the few calls into other crates
//! (the hash, the delimited-text reader, lenient decoding) stand behind
//! small wrappers whose contracts are taken on trust. Reading and writing
//! files is left to callers.

pub mod error;
pub mod money;
pub mod text;
pub mod trx;
pub mod aggregate;
pub mod memory;
pub mod record;
pub mod report;
