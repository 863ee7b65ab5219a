//! Scan configuration.

use std::path::PathBuf;
use vstd::prelude::*;

verus! {

/// Filesystem paths are carried through the library as opaque values:
/// the scan logic never looks inside them.
#[verifier::external_type_specification]
#[verifier::external_body]
pub struct ExPathBuf(PathBuf);

/// std's `PathBuf::clone`: the derived clone of the path's buffer,
/// so the copy holds the same path as the one cloned.
pub assume_specification[ <PathBuf as Clone>::clone ](p: &PathBuf) -> (r: PathBuf)
    ensures
        r == *p,
;

/// A path as text (std's `Path::to_string_lossy`: what cannot be read
/// as Unicode is replaced, as on the platform the application runs on).
#[verifier::external_body]
pub(crate) fn path_text(p: &PathBuf) -> String {
    p.to_string_lossy().into_owned()
}

/// Default number of worker threads.
pub const DEFAULT_WORKERS: usize = 4;

/// Configuration for a directory scan.
#[derive(Debug, Clone)]
pub struct ScanConfig {
    /// Root directory to scan.
    pub root: PathBuf,
    /// Number of worker threads (must be >= 1).
    pub workers: usize,
    /// Maximum directory depth to recurse into (`None` = unlimited).
    pub max_depth: Option<usize>,
    /// Whether to follow symlinks / reparse points (default: false).
    pub follow_symlinks: bool,
}

impl ScanConfig {
    /// Create a new config with sensible defaults for the given root:
    /// four workers, no depth limit, symlinks not followed.
    pub fn new(root: PathBuf) -> (c: Self)
        ensures
            c.root == root,
            c.workers == DEFAULT_WORKERS,
            c.max_depth is None,
            !c.follow_symlinks,
    {
        ScanConfig { root, workers: DEFAULT_WORKERS, max_depth: None, follow_symlinks: false }
    }
}

} // verus!
