//! Reconstructs structured line-level diffs for git stashes and organizes
//! stashes into a branch-grouped topology tree.
//!
//! The crate holds the two core subsystems: the diff reconstruction engine,
//! which folds a stream of diff events (file boundaries, hunk boundaries,
//! line records) into a well-formed diff document, and the stash topology
//! builder, which attributes each stash to the branch it was taken from via
//! commit-ancestry reachability, groups and orders the result, and detects
//! orphans. Terminal rendering and repository access live outside the
//! library and hand it plain values.

pub mod controller;
pub mod diff;
pub mod graph;
pub mod render;
pub mod topology;
