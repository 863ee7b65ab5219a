//! Scan events, statistics, non-fatal errors and the final result.

use std::path::PathBuf;
use std::time::Duration;
use vstd::prelude::*;

use crate::config::path_text;
use crate::text::concat;
use crate::tree::DirTree;

verus! {

/// A non-fatal error encountered during scanning.
#[derive(Debug, Clone)]
pub struct ScanError {
    /// The path where the error occurred.
    pub path: PathBuf,
    /// Human-readable error description.
    pub message: String,
}

impl ScanError {
    /// The error as one line: the path as text, a colon and a space,
    /// then the message.
    pub fn describe(&self) -> (s: String)
        ensures
            exists|p: Seq<char>| s@ == p + ": "@ + self.message@,
    {
        let p = path_text(&self.path);
        let head = concat(p.as_str(), ": ");
        let s = concat(head.as_str(), self.message.as_str());
        assert(s@ == p@ + ": "@ + self.message@);
        s
    }
}

/// Progress / lifecycle events emitted by the scanner.
#[derive(Debug, Clone)]
pub enum ScanEvent {
    /// Scan has started.
    Started { root: PathBuf },
    /// A single directory was scanned.
    DirScanned { path: PathBuf, files: u64, dirs: u64, bytes_so_far: u64 },
    /// A non-fatal error occurred while scanning a path.
    Error { path: PathBuf, error: String },
    /// Scan finished (either completed or cancelled).
    Finished { stats: ScanStats },
}

/// Aggregate statistics for a completed scan.
#[derive(Debug, Clone)]
pub struct ScanStats {
    /// Total number of files found.
    pub total_files: u64,
    /// Total number of directories found (including root).
    pub total_dirs: u64,
    /// Total bytes (sum of file sizes).
    pub total_bytes: u64,
    /// Wall-clock duration of the scan.
    pub elapsed: Duration,
    /// Number of non-fatal errors.
    pub error_count: u64,
    /// Whether the scan was cancelled before completion.
    pub cancelled: bool,
}

/// std's `Duration::clone`: `Duration` is `Copy`, so the clone is
/// the same duration.
pub assume_specification[ <Duration as Clone>::clone ](d: &Duration) -> (r: Duration)
    ensures
        r == *d,
;

/// The zero-length duration (std's `Duration::ZERO`).
#[verifier::external_body]
fn zero_duration() -> Duration {
    Duration::ZERO
}

impl Default for ScanStats {
    /// All counters zero, nothing elapsed, not cancelled.
    fn default() -> (s: Self)
        ensures
            s.total_files == 0,
            s.total_dirs == 0,
            s.total_bytes == 0,
            s.error_count == 0,
            !s.cancelled,
    {
        ScanStats {
            total_files: 0,
            total_dirs: 0,
            total_bytes: 0,
            elapsed: zero_duration(),
            error_count: 0,
            cancelled: false,
        }
    }
}

/// Final result returned after a scan completes.
#[derive(Debug)]
pub struct ScanResult {
    /// The directory tree built during the scan.
    pub tree: DirTree,
    /// Aggregate statistics for the scan.
    pub stats: ScanStats,
    /// Non-fatal errors encountered during the scan.
    pub errors: Vec<ScanError>,
}

} // verus!
