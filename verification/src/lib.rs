//! Format only the changed regions of a version-controlled working tree.
//!
//! The library collects changed-line ranges (hunks) reported by a diff of
//! the working tree, routes them through a registry keyed by file
//! extension, merges the per-extension buckets into one request per
//! formatter, and builds the exact command line that invokes the external
//! formatter on just those line ranges.

pub mod format;
pub mod git;
