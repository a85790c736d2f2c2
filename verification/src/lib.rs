//! Verified core of a lines-of-code counter.
//!
//! The library classifies files by extension against a registry of
//! languages, counts newline-delimited segments of file contents, and
//! accumulates per-language line totals. All filesystem traversal and
//! output formatting live outside the library; it works on plain values.

pub mod aggregate;
pub mod lines;
pub mod registry;
pub mod report;
pub mod scan;
