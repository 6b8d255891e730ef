//! Diff-based line reconciliation for diagnostics produced against two
//! versions of the same text.
//!
//! The crate builds a bidirectional correspondence between the line numbers
//! of two versions of a file from a unified-diff hunk, rewrites line-number
//! references embedded in diagnostic text so that each carries both
//! coordinate systems, and renders a line-level differential view of two
//! texts with each line classified as unchanged, added or removed.

pub mod diff;
pub mod hunk;
pub mod index_map;
pub mod rewrite;
pub mod text;
