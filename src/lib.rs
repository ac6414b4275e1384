//! Per-test statistics of many CI runs, kept in day buckets and stored in a compact
//! binary artifact that can be merged, reshaped and garbage-collected.

pub mod error;
pub mod flags;
pub mod format;
pub mod index;
pub mod laws;
pub mod position;
pub mod records;
pub mod string_table;
pub mod testrun;
pub mod timestamps;
pub mod validated_string;
pub mod writer;
