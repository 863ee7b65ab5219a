//! The coordinator of a parallel scan, fed by hand.

use std::path::PathBuf;
use std::time::Duration;

use windirscope::config::ScanConfig;
use windirscope::event::{ScanError, ScanEvent};
use windirscope::scanner::{classify_entry, long_path, Coordinator, DirectoryResult, EntryAction};
use windirscope::topk::{select_top_files, TOP_K};
use windirscope::tree::NodeKind;

fn files(list: &[(&str, u64)]) -> Vec<(String, u64)> {
    list.iter().map(|(n, s)| (n.to_string(), *s)).collect()
}

#[test]
fn select_top_files_keeps_largest_and_sums_the_rest() {
    let f = files(&[("tiny1.bin", 50), ("big.bin", 500), ("small.bin", 100), ("med.bin", 300), ("tiny2.bin", 10)]);
    let (top, other_bytes, other_count) = select_top_files(&f, 3);
    let names: Vec<&str> = top.iter().map(|e| e.name.as_str()).collect();
    assert_eq!(names, vec!["big.bin", "med.bin", "small.bin"]);
    assert_eq!(other_bytes, 60);
    assert_eq!(other_count, 2);
    let kept: u64 = top.iter().map(|e| e.bytes).sum();
    assert_eq!(kept + other_bytes, 960);
}

#[test]
fn select_top_files_with_fewer_files_than_k() {
    let f = files(&[("a", 1), ("b", 3)]);
    let (top, other_bytes, other_count) = select_top_files(&f, TOP_K);
    assert_eq!(top.len(), 2);
    assert_eq!(top[0].bytes, 3);
    assert_eq!(other_bytes, 0);
    assert_eq!(other_count, 0);
}

#[test]
fn classify_entry_skips_links_unless_followed() {
    assert!(classify_entry(true, true, false, false) == EntryAction::Skip);
    assert!(classify_entry(true, true, false, true) == EntryAction::Descend);
    assert!(classify_entry(false, false, true, false) == EntryAction::Count);
    assert!(classify_entry(false, false, false, false) == EntryAction::Ignore);
}

#[test]
fn long_path_prefix_is_added_once() {
    assert_eq!(long_path("C:\\data"), "\\\\?\\C:\\data");
    assert_eq!(long_path("\\\\?\\C:\\data"), "\\\\?\\C:\\data");
    assert_eq!(long_path("\\\\.\\pipe\\x"), "\\\\.\\pipe\\x");
}

#[test]
fn directory_result_bytes_detects_overflow() {
    let mut r = DirectoryResult::new(windirscope::scanner::WorkItem {
        node_id: 0,
        path: PathBuf::from("/x"),
        depth: 0,
    });
    assert_eq!(r.bytes(), Some(0));
    r.files = files(&[("a", u64::MAX), ("b", 1)]);
    assert_eq!(r.bytes(), None);
    r.files = files(&[("a", 40), ("b", 2)]);
    assert_eq!(r.bytes(), Some(42));
}

/// root/ with a.bin (100) and sub/ ; sub/ with b.bin (200) and c.bin (300)
/// and an empty deeper/ directory.
#[test]
fn coordinator_builds_tree_and_totals() {
    let mut config = ScanConfig::new(PathBuf::from("/scan"));
    config.max_depth = None;
    let mut c = Coordinator::new(&config);
    assert_eq!(c.pending(), 1);

    let root = c.next_work().unwrap();
    assert_eq!(root.node_id, 0);
    let mut r = DirectoryResult::new(root);
    r.files = files(&[("a.bin", 100)]);
    r.subdirs = vec![("sub".to_string(), PathBuf::from("/scan/sub"))];
    assert!(c.can_absorb(&r, false));
    let events = c.process_result(r, false);
    assert_eq!(events.len(), 1);
    match &events[0] {
        ScanEvent::DirScanned { files, dirs, bytes_so_far, .. } => {
            assert_eq!((*files, *dirs, *bytes_so_far), (1, 1, 100));
        }
        _ => panic!("expected DirScanned"),
    }
    assert_eq!(c.pending(), 1);

    let sub = c.next_work().unwrap();
    assert_eq!(sub.node_id, 1);
    assert_eq!(sub.depth, 1);
    let mut r = DirectoryResult::new(sub);
    r.files = files(&[("b.bin", 200), ("c.bin", 300)]);
    r.subdirs = vec![("deeper".to_string(), PathBuf::from("/scan/sub/deeper"))];
    r.errors = vec![ScanError { path: PathBuf::from("/scan/sub/locked"), message: "Access is denied.".into() }];
    let events = c.process_result(r, false);
    assert_eq!(events.len(), 2);
    assert!(matches!(events[0], ScanEvent::Error { .. }));

    let deeper = c.next_work().unwrap();
    let r = DirectoryResult::new(deeper);
    c.process_result(r, false);
    assert_eq!(c.pending(), 0);
    assert!(c.next_work().is_none());

    assert!(c.totals_fit());
    let res = c.finish(Duration::from_millis(5), false);
    assert_eq!(res.stats.total_bytes, 600);
    assert_eq!(res.stats.total_files, 3);
    assert_eq!(res.stats.total_dirs, 3);
    assert_eq!(res.stats.error_count, 1);
    assert!(!res.stats.cancelled);
    assert_eq!(res.errors.len(), 1);
    assert_eq!(res.tree.nodes.len(), 3);
    assert_eq!(res.tree.nodes[0].cumulative_size, 600);
    assert_eq!(res.tree.nodes[1].cumulative_size, 500);
    assert_eq!(res.tree.nodes[1].top_files[0].name, "c.bin");
    assert_eq!(res.tree.nodes[2].kind, NodeKind::Directory);
    let expected: PathBuf = ["/scan", "sub", "deeper"].iter().collect();
    assert_eq!(res.tree.full_path(2), expected.display().to_string());
    assert_eq!(res.tree.full_path_with(2, '/'), "/scan/sub/deeper");
    assert_eq!(res.tree.full_path_with(2, '\\'), "/scan\\sub\\deeper");
}

#[test]
fn coordinator_respects_depth_limit_and_cancellation() {
    let mut config = ScanConfig::new(PathBuf::from("/scan"));
    config.max_depth = Some(0);
    let mut c = Coordinator::new(&config);
    let root = c.next_work().unwrap();
    let mut r = DirectoryResult::new(root);
    r.subdirs = vec![("sub".to_string(), PathBuf::from("/scan/sub"))];
    c.process_result(r, false);
    assert_eq!(c.pending(), 0);
    let res = c.finish(Duration::ZERO, false);
    assert_eq!(res.tree.nodes.len(), 1);
    assert_eq!(res.stats.total_dirs, 1);

    let config = ScanConfig::new(PathBuf::from("/scan"));
    let mut c = Coordinator::new(&config);
    let root = c.next_work().unwrap();
    let mut r = DirectoryResult::new(root);
    r.subdirs = vec![("sub".to_string(), PathBuf::from("/scan/sub"))];
    c.process_result(r, true);
    assert_eq!(c.pending(), 0);
    let res = c.finish(Duration::ZERO, true);
    assert!(res.stats.cancelled);
    assert_eq!(res.tree.nodes.len(), 1);
}

#[test]
fn coordinator_returned_work_goes_out_first() {
    let config = ScanConfig::new(PathBuf::from("/scan"));
    let mut c = Coordinator::new(&config);
    let w = c.next_work().unwrap();
    c.return_work(w);
    let again = c.next_work().unwrap();
    assert_eq!(again.node_id, 0);
    c.work_lost();
    assert_eq!(c.pending(), 0);
}

#[test]
fn scan_error_describes_path_and_message() {
    let e = ScanError { path: PathBuf::from("/data/locked"), message: "Access is denied.".into() };
    assert_eq!(e.describe(), "/data/locked: Access is denied.");
}

/// The root total of a finished scan is the sum of all directories'
/// own sizes, and equals the bytes reported when every directory is
/// reported once.
#[test]
fn root_total_is_sum_of_own_sizes() {
    let config = ScanConfig::new(PathBuf::from("/r"));
    let mut c = Coordinator::new(&config);
    let mut expected = 0u64;
    let mut next = 0usize;
    while let Some(w) = c.next_work() {
        let mut r = DirectoryResult::new(w);
        let size = 10 * (next as u64 + 1);
        expected += size;
        r.files = files(&[("f", size)]);
        if next < 3 {
            r.subdirs = vec![
                (format!("d{}a", next), PathBuf::from("/r/a")),
                (format!("d{}b", next), PathBuf::from("/r/b")),
            ];
        }
        next += 1;
        c.process_result(r, false);
    }
    let res = c.finish(Duration::ZERO, false);
    let own: u64 = res.tree.nodes.iter().map(|n| n.size).sum();
    assert_eq!(res.tree.nodes[0].cumulative_size, own);
    assert_eq!(own, expected);
    assert_eq!(res.stats.total_bytes, expected);
}

/// A newcomer replaces the first smallest kept file (smaller name first
/// among equal sizes), and only when it is strictly larger.
#[test]
fn select_top_files_ties_at_the_cutoff() {
    let (top, other_bytes, other_count) = select_top_files(&files(&[("a", 5), ("b", 5), ("c", 9)]), 2);
    let kept: Vec<(&str, u64)> = top.iter().map(|e| (e.name.as_str(), e.bytes)).collect();
    assert_eq!(kept, vec![("c", 9), ("b", 5)]);
    assert_eq!((other_bytes, other_count), (5, 1));
    let (top, _, _) = select_top_files(&files(&[("b", 5), ("a", 5)]), 1);
    assert_eq!(top[0].name, "b");
    let (top, _, _) = select_top_files(&files(&[("z", 1), ("y", 1), ("x", 2)]), 2);
    let names: Vec<&str> = top.iter().map(|e| e.name.as_str()).collect();
    assert_eq!(names, vec!["x", "z"]);
}

#[test]
fn default_stats_are_zero() {
    let s = windirscope::event::ScanStats::default();
    assert_eq!(s.elapsed, Duration::ZERO);
    assert_eq!((s.total_files, s.total_dirs, s.total_bytes, s.error_count), (0, 0, 0, 0));
    assert!(!s.cancelled);
}

/// A directory's result is taken in once; a second report of the same
/// directory is refused.
#[test]
fn coordinator_refuses_a_second_report() {
    let config = ScanConfig::new(PathBuf::from("/scan"));
    let mut c = Coordinator::new(&config);
    let root = c.next_work().unwrap();
    let mut r = DirectoryResult::new(root);
    r.files = files(&[("a", 7)]);
    r.subdirs = vec![("s".to_string(), PathBuf::from("/scan/s"))];
    c.process_result(r, false);
    let again = DirectoryResult::new(windirscope::scanner::WorkItem { node_id: 0, path: PathBuf::from("/scan"), depth: 0 });
    assert!(!c.can_absorb(&again, false));
    let s = c.next_work().unwrap();
    assert!(c.can_absorb(&DirectoryResult::new(s), false));
}
