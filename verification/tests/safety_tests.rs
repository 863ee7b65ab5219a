//! Deletion safety rules and tree pruning.

use windirscope::prune::prune_tree_path;
use windirscope::safety::{check_path_safety, path_safety_verdict, verdict_on_lowered, BlockReason, PathSafetyError};
use windirscope::tree::{DirTree, FileEntry, NodeKind};

fn reason(r: Result<(), PathSafetyError>) -> Option<BlockReason> {
    r.err().map(|e| e.reason)
}

#[test]
fn drive_roots_are_refused() {
    let e = path_safety_verdict("C:\\", 2, None, true, false, None).err().unwrap();
    assert_eq!(e.reason, BlockReason::DriveRoot);
    assert_eq!(e.message(), "Cannot delete a drive root.");
    assert_eq!(reason(path_safety_verdict("\\\\?\\D:\\", 2, None, true, false, None)), Some(BlockReason::DriveRoot));
    assert_eq!(reason(path_safety_verdict("e:", 1, None, false, false, None)), Some(BlockReason::DriveRoot));
}

#[test]
fn top_level_directories_are_refused() {
    let e = path_safety_verdict("C:\\Games", 3, Some("Games"), true, false, None).err().unwrap();
    assert_eq!(e.reason, BlockReason::TopLevelDirectory);
    assert_eq!(e.message(), "Cannot delete top-level directory 'C:\\Games'. This could be a critical system folder.");
    // a file directly below the root is not a directory
    assert_eq!(path_safety_verdict("C:\\notes.txt", 3, Some("notes.txt"), false, false, None).is_ok(), true);
}

#[test]
fn system_locations_are_refused() {
    let e = path_safety_verdict("C:\\Windows\\System32", 4, Some("System32"), true, false, None).err().unwrap();
    assert_eq!(e.reason, BlockReason::ProtectedSystemPath);
    assert_eq!(e.message(), "Cannot delete 'C:\\Windows\\System32' \u{2014} this is a protected system path.");
    assert_eq!(
        reason(path_safety_verdict("C:/Program Files/App/x.dll", 5, Some("x.dll"), false, false, None)),
        Some(BlockReason::ProtectedSystemPath)
    );
}

#[test]
fn appdata_is_protected() {
    assert_eq!(
        reason(path_safety_verdict("C:\\Users\\me\\AppData\\Local\\Microsoft\\x", 7, Some("x"), false, false, None)),
        Some(BlockReason::ProtectedAppData)
    );
    assert_eq!(
        reason(path_safety_verdict("C:\\Users\\me\\AppData\\Roaming", 5, Some("Roaming"), true, false, None)),
        Some(BlockReason::AppDataDirectory)
    );
    assert!(path_safety_verdict("C:\\Users\\me\\AppData\\Local\\Temp\\a.txt", 7, Some("a.txt"), false, false, None).is_ok());
}

#[test]
fn system_file_names_and_attributes_are_refused() {
    let e = path_safety_verdict("D:\\pagefile.sys", 3, Some("pagefile.sys"), false, false, None).err().unwrap();
    assert_eq!(e.reason, BlockReason::ProtectedSystemFile);
    assert_eq!(e.message(), "Cannot delete 'pagefile.sys' \u{2014} this is a protected system file.");
    assert_eq!(
        reason(path_safety_verdict("D:\\u\\NTUSER.DAT.bak", 4, Some("NTUSER.DAT.bak"), false, false, None)),
        Some(BlockReason::NtUserFile)
    );
    assert_eq!(
        reason(path_safety_verdict("D:\\u\\x.bin", 4, Some("x.bin"), false, true, None)),
        Some(BlockReason::SystemAttribute)
    );
}

#[test]
fn own_files_are_refused() {
    let e = path_safety_verdict("D:\\tools\\ws", 4, Some("ws"), true, false, Some("D:\\Tools\\ws\\ws.exe")).err().unwrap();
    assert_eq!(e.reason, BlockReason::OwnFiles);
    assert_eq!(e.message(), "Cannot delete WinDirScope's own files.");
    assert!(path_safety_verdict("D:\\tools\\other", 4, Some("other"), true, false, Some("D:\\Tools\\ws\\ws.exe")).is_ok());
}

#[test]
fn check_path_safety_on_an_ordinary_file() {
    assert!(check_path_safety("/home/me/docs/report.txt", false, false, None).is_ok());
    assert_eq!(
        reason(check_path_safety("/home/me/docs/desktop.ini", false, false, None)),
        Some(BlockReason::ProtectedSystemFile)
    );
}

fn slash_tree() -> DirTree {
    let mut t = DirTree::new();
    let root = t.add_node("/".into(), NodeKind::Directory, None, 1000, 0);
    let sub = t.add_node("sub".into(), NodeKind::Directory, Some(root), 300, 1);
    t.add_node("deep".into(), NodeKind::Directory, Some(sub), 200, 2);
    t.nodes[root].top_files = vec![FileEntry { name: "big.bin".into(), bytes: 1000 }];
    t.compute_cumulative_sizes();
    t
}

#[test]
fn pruning_a_directory_empties_it_and_updates_ancestors() {
    let mut t = slash_tree();
    assert_eq!(t.nodes[0].cumulative_size, 1500);
    t.prune_entry(&format!("/sub{}deep", std::path::MAIN_SEPARATOR), Some("/sub"), "deep");
    assert_eq!(t.nodes[2].cumulative_size, 0);
    assert_eq!(t.nodes[2].size, 0);
    assert_eq!(t.nodes[1].cumulative_size, 300);
    assert_eq!(t.nodes[0].cumulative_size, 1300);
}

#[test]
fn pruning_a_file_removes_it_from_its_directory() {
    let mut t = slash_tree();
    prune_tree_path(&mut t, "/big.bin");
    assert!(t.nodes[0].top_files.is_empty());
    assert_eq!(t.nodes[0].size, 0);
    assert_eq!(t.nodes[0].cumulative_size, 500);
}

#[test]
fn pruning_an_unknown_path_changes_nothing() {
    let mut t = slash_tree();
    prune_tree_path(&mut t, "/nothing/here");
    assert_eq!(t.nodes[0].cumulative_size, 1500);
    assert_eq!(t.nodes[1].cumulative_size, 500);
    assert_eq!(t.nodes[0].top_files.len(), 1);
}

#[test]
fn pruning_a_directory_by_path() {
    let mut t = slash_tree();
    prune_tree_path(&mut t, "/sub");
    assert_eq!(t.nodes[1].cumulative_size, 0);
    assert!(t.nodes[1].children.is_empty());
    assert_eq!(t.nodes[0].cumulative_size, 1000);
}

#[test]
fn check_path_safety_counts_components_of_directories() {
    assert_eq!(reason(check_path_safety("/home", true, false, None)), Some(BlockReason::TopLevelDirectory));
    assert!(check_path_safety("/home", false, false, None).is_ok());
    assert_eq!(reason(check_path_safety("/home/me/docs/a.bin", false, true, None)), Some(BlockReason::SystemAttribute));
}

#[test]
fn pruning_a_file_named_by_a_relative_path() {
    let mut t = DirTree::new();
    t.add_node("data".into(), NodeKind::Directory, None, 40, 0);
    t.nodes[0].top_files = vec![FileEntry { name: "f.bin".into(), bytes: 40 }];
    t.compute_cumulative_sizes();
    // parent "data", last component "f.bin" on every platform
    t.prune_entry("data\\f.bin", Some("data"), "f.bin");
    assert_eq!(t.nodes[0].cumulative_size, 0);
    assert!(t.nodes[0].top_files.is_empty());
}

#[test]
fn compared_text_strips_prefix_lowercases_and_uses_backslashes() {
    assert_eq!(windirscope::safety::compared_text("\\\\?\\C:/Users/ME"), "c:\\users\\me");
    assert_eq!(windirscope::safety::compared_text("D:\\Data"), "d:\\data");
}

fn totals_consistent(t: &DirTree) -> bool {
    (0..t.nodes.len()).all(|i| {
        let kids: u64 = t.nodes[i].children.iter().map(|&c| t.nodes[c].cumulative_size).sum();
        t.nodes[i].cumulative_size == t.nodes[i].size + kids
    })
}

/// Pruning keeps every total equal to own size plus children's totals,
/// and makes no total grow.
#[test]
fn pruning_keeps_totals_consistent() {
    let mut t = slash_tree();
    assert!(totals_consistent(&t));
    let before: Vec<u64> = t.nodes.iter().map(|n| n.cumulative_size).collect();
    t.prune_entry(&format!("/sub{}deep", std::path::MAIN_SEPARATOR), Some("/sub"), "deep");
    assert!(totals_consistent(&t));
    assert!(t.nodes.iter().zip(before.iter()).all(|(n, b)| n.cumulative_size <= *b));
    let mut u = slash_tree();
    prune_tree_path(&mut u, "/big.bin");
    assert!(totals_consistent(&u));
}

#[test]
fn pruning_matches_full_paths_of_the_given_platform() {
    let mut t = slash_tree();
    t.prune_entry_with("/sub\\deep", Some("/sub"), "deep", '\\');
    assert_eq!(t.nodes[2].cumulative_size, 0);
    assert_eq!(t.nodes[0].cumulative_size, 1300);
    let mut u = slash_tree();
    // Unix full path of that node is "/sub/deep"
    u.prune_entry_with("/sub\\deep", Some("/sub"), "deep", '/');
    assert_eq!(u.nodes[2].cumulative_size, 200);
    assert_eq!(u.nodes[0].cumulative_size, 1500);
    u.prune_entry_with("/sub/deep", Some("/sub"), "deep", '/');
    assert_eq!(u.nodes[2].cumulative_size, 0);
    assert_eq!(u.nodes[0].cumulative_size, 1300);
}

/// `C:\Users` is a top-level directory however the platform parses it.
#[test]
fn check_path_safety_refuses_a_directory_below_a_drive_root() {
    assert_eq!(reason(check_path_safety("C:\\Users", true, false, None)), Some(BlockReason::TopLevelDirectory));
    assert_eq!(
        reason(check_path_safety("\\\\?\\C:\\Users", true, false, None)),
        Some(BlockReason::TopLevelDirectory)
    );
}

/// The file name of a Windows path is its last component where
/// backslashes separate; elsewhere it is the whole text.
#[test]
fn check_path_safety_names_the_file_as_the_platform_parses_it() {
    let r = reason(check_path_safety("\\\\?\\C:\\pagefile.sys", false, false, None));
    if std::path::MAIN_SEPARATOR == '\\' {
        assert_eq!(r, Some(BlockReason::ProtectedSystemFile));
    } else {
        assert_eq!(r, None);
    }
    assert_eq!(
        reason(check_path_safety("/data/PageFile.sys", false, false, None)),
        Some(BlockReason::ProtectedSystemFile)
    );
}

#[test]
fn verdict_on_lowered_applies_the_rules_to_lowercase_text() {
    let e = verdict_on_lowered("D:\\x\\Pagefile.sys".to_string(), "d:\\x\\pagefile.sys", "pagefile.sys".to_string(), 4, false, false, None)
        .err()
        .unwrap();
    assert_eq!(e.reason, BlockReason::ProtectedSystemFile);
    assert_eq!(e.subject, "pagefile.sys");
    // the rules do not lowercase: an uppercase name is not matched here
    assert!(verdict_on_lowered("D:\\x\\P.SYS".to_string(), "d:\\x\\p.sys", "PAGEFILE.SYS".to_string(), 4, false, false, None).is_ok());
    let e = verdict_on_lowered("C:\\Users".to_string(), "c:\\users", "users".to_string(), 3, true, false, None).err().unwrap();
    assert_eq!(e.reason, BlockReason::TopLevelDirectory);
    assert_eq!(e.subject, "C:\\Users");
    let e = verdict_on_lowered("C:\\Tools\\app.exe".to_string(), "c:\\tools\\app.exe", "app.exe".to_string(), 4, false, false, Some("c:\\tools\\app.exe")).err().unwrap();
    assert_eq!(e.reason, BlockReason::OwnFiles);
}

/// A deleted file directly below the root leaves its directory's list
/// and lowers the totals; the parent is the text before the name.
#[test]
fn pruning_by_path_finds_the_parent_directory() {
    let mut t = DirTree::new();
    let r = t.add_node("data".into(), NodeKind::Directory, None, 0, 0);
    let s = t.add_node("sub".into(), NodeKind::Directory, Some(r), 40, 1);
    t.nodes[s].top_files = vec![FileEntry { name: "f.bin".into(), bytes: 40 }];
    t.compute_cumulative_sizes();
    prune_tree_path(&mut t, &format!("data{}sub{}f.bin", std::path::MAIN_SEPARATOR, std::path::MAIN_SEPARATOR));
    assert!(t.nodes[1].top_files.is_empty());
    assert_eq!(t.nodes[1].cumulative_size, 0);
    assert_eq!(t.nodes[0].cumulative_size, 0);
}
