//! A commit-graph engine for a repository viewer: it orders a repository's
//! history for display, labels each commit with the references that point at
//! it, adds a node for uncommitted work, pages the result, and assembles
//! file-level diffs between two snapshots.
pub mod checkout;
pub mod diff;
pub mod external;
pub mod graph;
pub mod model;
pub mod refs;
pub mod text;
pub mod walk;
