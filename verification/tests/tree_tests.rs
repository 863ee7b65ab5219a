//! The arena tree: building, paths, aggregation, listings.

use windirscope::listing::{find_directory, find_directory_with, largest_directories, root_children};
use windirscope::tree::{DirTree, NodeKind};

fn sample() -> DirTree {
    let mut t = DirTree::new();
    let root = t.add_node("C:\\".into(), NodeKind::Directory, None, 5, 0);
    let a = t.add_node("a".into(), NodeKind::Directory, Some(root), 10, 1);
    let b = t.add_node("b".into(), NodeKind::Directory, Some(root), 30, 1);
    let c = t.add_node("c".into(), NodeKind::Directory, Some(root), 10, 1);
    t.add_node("x.bin".into(), NodeKind::File, Some(a), 20, 2);
    t.add_node("deep".into(), NodeKind::Directory, Some(c), 0, 2);
    t.compute_cumulative_sizes();
    t
}

#[test]
fn default_tree_is_empty() {
    let t = DirTree::default();
    assert!(t.nodes.is_empty());
}

#[test]
fn add_node_assigns_ids_and_links_parent() {
    let mut t = DirTree::new();
    let r = t.add_node("r".into(), NodeKind::Directory, None, 0, 0);
    let x = t.add_node("x".into(), NodeKind::File, Some(r), 7, 1);
    assert_eq!(r, 0);
    assert_eq!(x, 1);
    assert_eq!(t.nodes[r].children, vec![1]);
    assert_eq!(t.nodes[x].parent, Some(0));
    assert_eq!(t.nodes[x].cumulative_size, 0);
    assert!(t.nodes[x].top_files.is_empty());
}

#[test]
fn full_path_with_windows_rules_after_drive_root() {
    let t = sample();
    assert_eq!(t.full_path_with(0, '\\'), "C:\\");
    assert_eq!(t.full_path_with(1, '\\'), "C:\\a");
    assert_eq!(t.full_path_with(4, '\\'), "C:\\a\\x.bin");
    assert_eq!(t.full_path_with(5, '\\'), "C:\\c\\deep");
}

#[test]
fn full_path_with_unix_rules_uses_slash() {
    let t = sample();
    // a backslash is no separator on Unix
    assert_eq!(t.full_path_with(1, '/'), "C:\\/a");
    let mut u = DirTree::new();
    let r = u.add_node("/".into(), NodeKind::Directory, None, 0, 0);
    let a = u.add_node("home".into(), NodeKind::Directory, Some(r), 0, 1);
    u.add_node("me".into(), NodeKind::Directory, Some(a), 0, 2);
    assert_eq!(u.full_path_with(2, '/'), "/home/me");
    assert_eq!(u.full_path_with(2, '\\'), "/home\\me");
}

#[test]
fn full_path_with_bare_drive_and_rooted_names() {
    let mut t = DirTree::new();
    let r = t.add_node("C:".into(), NodeKind::Directory, None, 0, 0);
    t.add_node("x".into(), NodeKind::Directory, Some(r), 0, 1);
    assert_eq!(t.full_path_with(1, '\\'), "C:x");
    assert_eq!(t.full_path_with(1, '/'), "C:/x");
    let mut u = DirTree::new();
    let r = u.add_node("C:\\dir".into(), NodeKind::Directory, None, 0, 0);
    u.add_node("\\b".into(), NodeKind::Directory, Some(r), 0, 1);
    u.add_node("D:\\e".into(), NodeKind::Directory, Some(r), 0, 1);
    u.add_node("/f".into(), NodeKind::Directory, Some(r), 0, 1);
    assert_eq!(u.full_path_with(1, '\\'), "C:\\b");
    assert_eq!(u.full_path_with(2, '\\'), "D:\\e");
    assert_eq!(u.full_path_with(3, '\\'), "C:/f");
    assert_eq!(u.full_path_with(3, '/'), "/f");
    assert_eq!(u.full_path_with(2, '/'), "C:\\dir/D:\\e");
}

#[test]
fn full_path_matches_std_path_collection() {
    let t = sample();
    let cases: Vec<(usize, Vec<&str>)> =
        vec![(0, vec!["C:\\"]), (1, vec!["C:\\", "a"]), (4, vec!["C:\\", "a", "x.bin"]), (5, vec!["C:\\", "c", "deep"])];
    for (id, parts) in cases {
        let expected: std::path::PathBuf = parts.iter().collect();
        assert_eq!(t.full_path(id), expected.display().to_string());
    }
}

#[test]
fn cumulative_is_own_plus_children() {
    let t = sample();
    for i in 0..t.nodes.len() {
        let kids: u64 = t.nodes[i].children.iter().map(|&c| t.nodes[c].cumulative_size).sum();
        assert_eq!(t.nodes[i].cumulative_size, t.nodes[i].size + kids);
    }
    assert_eq!(t.nodes[0].cumulative_size, 75);
    assert_eq!(t.nodes[1].cumulative_size, 30);
}

#[test]
fn totals_fit_check_detects_overflow() {
    let mut t = DirTree::new();
    let r = t.add_node("r".into(), NodeKind::Directory, None, u64::MAX, 0);
    t.add_node("f".into(), NodeKind::File, Some(r), 1, 1);
    assert!(!t.totals_fit_check());
    let t2 = sample();
    assert!(t2.totals_fit_check());
}

#[test]
fn root_children_largest_first_ties_by_id() {
    let t = sample();
    let kids = root_children(&t);
    let names: Vec<&str> = kids.iter().map(|k| k.path.as_str()).collect();
    // a: 30, b: 30, c: 10 -> a before b (equal totals keep their order).
    assert_eq!(names, vec!["a", "b", "c"]);
    assert_eq!(kids[0].bytes, 30);
    assert_eq!(kids[2].bytes, 10);
    assert!(root_children(&DirTree::new()).is_empty());
}

#[test]
fn largest_directories_takes_top_n() {
    let t = sample();
    assert_eq!(largest_directories(&t, 3), vec![0, 1, 2]);
    assert_eq!(largest_directories(&t, 100), vec![0, 1, 2, 3, 5]);
    assert!(largest_directories(&t, 0).is_empty());
}

#[test]
fn order_by_size_sorts_descending() {
    let t = sample();
    assert_eq!(t.order_by_size(&vec![1, 2, 3]), vec![1, 2, 3]);
    assert_eq!(t.order_by_size(&vec![3, 4]), vec![4, 3]);
}

#[test]
fn find_directory_by_full_path() {
    let t = sample();
    assert_eq!(find_directory_with(&t, "C:\\c\\deep", '\\'), Some(5));
    assert_eq!(find_directory_with(&t, "C:\\", '\\'), Some(0));
    // a file node is not a directory
    assert_eq!(find_directory_with(&t, "C:\\a\\x.bin", '\\'), None);
    assert_eq!(find_directory_with(&t, "C:\\nope", '\\'), None);
    assert_eq!(find_directory_with(&t, "C:\\/c/deep", '/'), Some(5));
    assert_eq!(find_directory_with(&t, "C:\\c\\deep", '/'), None);
    let here: std::path::PathBuf = ["C:\\", "c", "deep"].iter().collect();
    assert_eq!(find_directory(&t, &here.display().to_string()), Some(5));
}

#[test]
fn depths_fit_from_checks_relative_depths() {
    let t = sample();
    assert!(t.depths_fit_from(0));
    assert!(t.depths_fit_from(3));
    let mut bad = DirTree::new();
    let r = bad.add_node("r".into(), NodeKind::Directory, None, 0, 4);
    bad.add_node("s".into(), NodeKind::Directory, Some(r), 0, 2);
    assert!(!bad.depths_fit_from(0));
}

/// A node names a parent exactly when that parent lists it, once, and
/// parents come before children.
#[test]
fn add_node_links_parent_and_child_once() {
    let t = sample();
    for c in 0..t.nodes.len() {
        for i in 0..t.nodes.len() {
            let listed = t.nodes[i].children.iter().filter(|&&x| x == c).count();
            assert_eq!(t.nodes[c].parent == Some(i), listed == 1);
            assert!(listed <= 1);
            if t.nodes[c].parent == Some(i) {
                assert!(i < c);
            }
        }
    }
}
