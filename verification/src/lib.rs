//! windirscope: the verified core of a disk-usage analyser.
//!
//! The library holds the arena-based directory tree that a scan
//! builds, the coordinator's bookkeeping for a parallel scan, the
//! views computed from a finished tree (force graph, treemap inputs,
//! root listing, largest directories), the rules that decide whether a
//! path may be deleted, the grouping steps of exact-duplicate
//! detection, and the decisions of the desktop and command-line front
//! ends (accepting a scan root, throttling progress, parsing
//! arguments).
//! File-system access, threads and floating-point layout live in the
//! application crate around it.

pub mod text;
pub mod tree;
pub mod config;
pub mod event;
pub mod topk;
pub mod scanner;
pub mod safety;
pub mod paths;
pub mod prune;
pub mod graph;
pub mod graph_shape;
pub mod listing;
pub mod commands;
pub mod cli;
pub mod treemap;
pub mod duplicates;
