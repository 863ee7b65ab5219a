//! Graph, treemap inputs and duplicate detection.

use windirscope::duplicates::{
    duplicate_groups, prefix_candidates, prefix_length, shared_keys, size_candidates, ContentHasher, FileCandidate,
};
use windirscope::graph::{build_force_graph, build_force_graph_with};
use windirscope::treemap::{block_contents, collapse_chain, file_extension, is_trivial_dir};
use windirscope::tree::{DirTree, FileEntry, NodeKind};

fn graph_tree() -> DirTree {
    let mut t = DirTree::new();
    let r = t.add_node("R".into(), NodeKind::Directory, None, 5, 0);
    t.add_node("a".into(), NodeKind::Directory, Some(r), 10, 1);
    t.add_node("b".into(), NodeKind::Directory, Some(r), 30, 1);
    t.nodes[r].top_files = vec![FileEntry { name: "f.TXT".into(), bytes: 5 }];
    t.compute_cumulative_sizes();
    t
}

#[test]
fn graph_breadth_first_larger_first_with_files() {
    let t = graph_tree();
    let g = build_force_graph_with(&t, 0, 10, None, '\\');
    let ids: Vec<&str> = g.nodes.iter().map(|n| n.id.as_str()).collect();
    assert_eq!(ids, vec!["0", "f_0_f.TXT", "2", "1"]);
    assert_eq!(g.nodes[0].size, 45);
    assert_eq!(g.nodes[0].depth, 0);
    assert_eq!(g.nodes[1].path, "R\\f.TXT");
    assert_eq!(g.nodes[1].ext, "txt");
    assert_eq!(g.nodes[1].depth, 1);
    assert!(!g.nodes[1].is_dir);
    assert_eq!(g.nodes[2].name, "b");
    assert_eq!(g.nodes[2].path, "R\\b");
    let links: Vec<(&str, &str)> = g.links.iter().map(|l| (l.source.as_str(), l.target.as_str())).collect();
    assert_eq!(links, vec![("0", "f_0_f.TXT"), ("0", "2"), ("0", "1")]);
    let here = build_force_graph(&t, 0, 10, None);
    assert_eq!(here.nodes[2].path, format!("R{}b", std::path::MAIN_SEPARATOR));
    assert_eq!(here.nodes[1].path, "R\\f.TXT");
    let unix = build_force_graph_with(&t, 0, 10, None, '/');
    assert_eq!(unix.nodes[2].path, "R/b");
}

#[test]
fn graph_respects_budget_depth_and_start() {
    let t = graph_tree();
    let g = build_force_graph(&t, 0, 2, None);
    assert_eq!(g.nodes.len(), 2);
    assert_eq!(g.links.len(), 1);
    assert_eq!(g.nodes[1].id, "2");
    let g = build_force_graph(&t, 0, 10, Some(0));
    assert_eq!(g.nodes.len(), 1);
    assert!(g.links.is_empty());
    let g = build_force_graph(&t, 2, 10, None);
    assert_eq!(g.nodes.len(), 1);
    assert_eq!(g.nodes[0].depth, 0);
    let g = build_force_graph(&t, 9, 10, None);
    assert!(g.nodes.is_empty());
    let g = build_force_graph(&t, 0, 0, None);
    assert_eq!(g.nodes.len(), 1);
}

fn chain_tree() -> DirTree {
    let mut t = DirTree::new();
    let r = t.add_node("C:\\".into(), NodeKind::Directory, None, 0, 0);
    let pf = t.add_node("Program Files".into(), NodeKind::Directory, Some(r), 0, 1);
    let steam = t.add_node("Steam".into(), NodeKind::Directory, Some(pf), 0, 2);
    let games = t.add_node("games".into(), NodeKind::Directory, Some(steam), 0, 3);
    t.add_node("empty".into(), NodeKind::Directory, Some(steam), 0, 3);
    t.nodes[games].size = 700;
    t.nodes[steam].top_files = vec![
        FileEntry { name: "steam.EXE".into(), bytes: 300 },
        FileEntry { name: "zero.dat".into(), bytes: 0 },
    ];
    t.nodes[steam].other_files_bytes = 40;
    t.nodes[steam].other_files_count = 3;
    t.nodes[steam].size = 340;
    t.compute_cumulative_sizes();
    t
}

#[test]
fn trivial_chains_collapse() {
    let t = chain_tree();
    assert!(is_trivial_dir(&t, 0));
    assert!(is_trivial_dir(&t, 1));
    assert!(!is_trivial_dir(&t, 2));
    let (end, name) = collapse_chain(&t, 0);
    assert_eq!(end, 2);
    assert_eq!(name, "C:\\Program Files\\Steam");
    let (end, name) = collapse_chain(&t, 3);
    assert_eq!(end, 3);
    assert_eq!(name, "games");
}

/// The module's own example: `C:\` → `Program Files (x86)` → `Steam`
/// is one block named `C:\Program Files (x86)\Steam`.
#[test]
fn collapsed_chain_is_named_like_a_path() {
    let mut t = DirTree::new();
    t.add_node("C:\\".into(), NodeKind::Directory, None, 0, 0);
    t.add_node("Program Files (x86)".into(), NodeKind::Directory, Some(0), 0, 1);
    t.add_node("Steam".into(), NodeKind::Directory, Some(1), 0, 2);
    t.nodes[2].top_files = vec![FileEntry { name: "x.exe".into(), bytes: 1 }];
    assert_eq!(collapse_chain(&t, 0), (2, "C:\\Program Files (x86)\\Steam".to_string()));
    let mut u = DirTree::new();
    u.add_node("data".into(), NodeKind::Directory, None, 0, 0);
    u.add_node("sub".into(), NodeKind::Directory, Some(0), 0, 1);
    u.add_node("f".into(), NodeKind::File, Some(1), 3, 2);
    assert_eq!(collapse_chain(&u, 0), (1, "data\\sub".to_string()));
}

#[test]
fn file_extensions_for_blocks() {
    assert_eq!(file_extension("photo.JPG"), "jpg");
    assert_eq!(file_extension("README"), "");
    assert_eq!(file_extension("a.verylongextension"), "");
    assert_eq!(file_extension(".bashrc"), "bashrc");
    assert_eq!(file_extension("x.tar.GZ"), "gz");
}

#[test]
fn block_contents_lists_sized_entries() {
    let t = chain_tree();
    let b = block_contents(&t, 2);
    assert_eq!(b.dirs, vec![3]);
    assert_eq!(b.files.len(), 1);
    assert_eq!(b.files[0].name, "steam.EXE");
    assert_eq!(b.files[0].ext, "exe");
    assert_eq!(b.files[0].bytes, 300);
    assert_eq!(b.other, Some((3, 40)));
    let leaf = block_contents(&t, 4);
    assert!(leaf.dirs.is_empty() && leaf.files.is_empty() && leaf.other.is_none());
}

#[test]
fn prefix_length_is_capped() {
    assert_eq!(prefix_length(10), 10);
    assert_eq!(prefix_length(4096), 4096);
    assert_eq!(prefix_length(100_000), 4096);
}

fn cand(path: &str, size: u64) -> FileCandidate {
    FileCandidate { path: path.into(), name: path.rsplit('/').next().unwrap().into(), size }
}

#[test]
fn size_round_keeps_shared_nonzero_sizes() {
    let files = vec![cand("/a", 10), cand("/b", 0), cand("/c", 10), cand("/d", 0), cand("/e", 7)];
    assert_eq!(size_candidates(&files), vec![true, false, true, false, false]);
    assert_eq!(shared_keys(&vec![Some(1), None, Some(2), Some(1)]), vec![true, false, false, true]);
}

#[test]
fn prefix_round_hashes_leading_bytes() {
    let p = vec![Some(b"abc".to_vec()), None, Some(b"abc".to_vec()), Some(b"abd".to_vec())];
    assert_eq!(prefix_candidates(&p), vec![true, false, true, false]);
}

#[test]
fn content_hasher_matches_one_shot_hash() {
    let mut h = ContentHasher::new();
    h.update(b"hello ");
    h.update(b"world");
    assert_eq!(h.finish(), xxhash_rust::xxh3::xxh3_64(b"hello world"));
    assert_ne!(h.finish(), xxhash_rust::xxh3::xxh3_64(b"hello "));
}

#[test]
fn duplicate_groups_by_content_key_largest_first() {
    let files = vec![cand("/x/a", 5), cand("/x/b", 9), cand("/y/a", 5), cand("/z", 5), cand("/w/b", 9), cand("/q", 1)];
    let keys = vec![Some(1), Some(2), Some(1), None, Some(2), Some(3)];
    let groups = duplicate_groups(&files, &keys);
    assert_eq!(groups.len(), 2);
    assert_eq!(groups[0].size, 9);
    let p0: Vec<&str> = groups[0].files.iter().map(|f| f.path.as_str()).collect();
    assert_eq!(p0, vec!["/x/b", "/w/b"]);
    assert_eq!(groups[1].size, 5);
    assert_eq!(groups[1].files[1].name, "a");
    assert!(duplicate_groups(&files, &vec![None, None, None, None, None, None]).is_empty());
}

/// A directory's files are shown only when all its children are; the
/// children shown are the larger ones first; no entry comes twice.
#[test]
fn graph_shows_files_only_after_all_children() {
    let t = graph_tree();
    let g = build_force_graph(&t, 0, 3, None);
    let ids: Vec<&str> = g.nodes.iter().map(|n| n.id.as_str()).collect();
    assert_eq!(ids, vec!["0", "2", "1"]);
    let g = build_force_graph(&t, 0, 2, None);
    let ids: Vec<&str> = g.nodes.iter().map(|n| n.id.as_str()).collect();
    assert_eq!(ids, vec!["0", "2"]);
    let g = build_force_graph(&t, 0, 10, None);
    let mut seen: Vec<&str> = g.nodes.iter().map(|n| n.id.as_str()).collect();
    seen.sort();
    seen.dedup();
    assert_eq!(seen.len(), g.nodes.len());
    // every link comes from an entry shown before its target
    for (i, l) in g.links.iter().enumerate() {
        assert_eq!(l.target, g.nodes[i + 1].id);
        assert!(g.nodes[..=i].iter().any(|n| n.id == l.source));
    }
}
