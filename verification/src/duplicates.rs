//! The duplicate-detection engine: candidates are bucketed by exact size,
//! every bucket is partitioned into groups of byte-identical files by
//! incremental chunked comparison, and the groups are collected, sorted and
//! exposed for consumption.

pub mod content;
pub mod grouping;
pub mod index;
pub mod laws;
pub mod walker;
