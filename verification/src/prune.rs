//! Updating a finished tree after a file or folder was deleted.

use vstd::prelude::*;

use crate::safety::{opt_text, path_file_name};
use crate::paths::{has_plain_name_on, has_plain_parent_on, last_name_on, parent_on};
use crate::text::{is_piece_of, is_proper_prefix, text_eq};
use crate::tree::{
    ancestry, child, children_cumulative, children_ok, full_path_of, main_separator, nodes_wf, parent_ok, parents_list_children,
    parents_precede, DirTree,
    FileEntry, TreeNode,
};

verus! {

/// `a - b`, or 0 when `b > a`.
pub open spec fn sat_sub(a: u64, b: u64) -> u64 {
    if a >= b {
        (a - b) as u64
    } else {
        0
    }
}

/// The first node at or after `i` named `name` whose full path is `path`.
pub open spec fn find_dir_from(nodes: Seq<TreeNode>, path: Seq<char>, name: Seq<char>, i: int, sep: char) -> Option<int>
    decreases nodes.len() - i,
{
    if i < 0 || i >= nodes.len() {
        None
    } else if nodes[i].name@ == name && full_path_of(nodes, i, sep) == path {
        Some(i)
    } else {
        find_dir_from(nodes, path, name, i + 1, sep)
    }
}

/// Position of the first entry at or after `j` named `name`.
pub open spec fn top_file_index(files: Seq<FileEntry>, name: Seq<char>, j: int) -> Option<int>
    decreases files.len() - j,
{
    if j < 0 || j >= files.len() {
        None
    } else if files[j].name@ == name {
        Some(j)
    } else {
        top_file_index(files, name, j + 1)
    }
}

/// The first node at or after `i`, other than `skip` (whose file list
/// was just emptied), whose full path is `parent` and that lists a
/// file named `name`.
pub open spec fn find_file_from(
    nodes: Seq<TreeNode>,
    parent: Seq<char>,
    name: Seq<char>,
    skip: Option<int>,
    i: int,
    sep: char,
) -> Option<int>
    decreases nodes.len() - i,
{
    if i < 0 || i >= nodes.len() {
        None
    } else if skip != Some(i) && full_path_of(nodes, i, sep) == parent && top_file_index(
        nodes[i].top_files@,
        name,
        0,
    ) is Some {
        Some(i)
    } else {
        find_file_from(nodes, parent, name, skip, i + 1, sep)
    }
}

/// What pruning `path` (with parent path `parent` and last component
/// `name`) does, as `(dir, file, removed, bubble)`: the directory node
/// that was the deleted path, if any; the node and position of the
/// deleted file in its parent's top files, if the path was not a
/// directory with a nonzero total; the bytes removed; and the node from
/// which the removal is subtracted upwards.
pub open spec fn prune_plan(
    nodes: Seq<TreeNode>,
    path: Seq<char>,
    parent: Option<Seq<char>>,
    name: Seq<char>,
    sep: char,
) -> (
    Option<int>,
    Option<(int, int)>,
    u64,
    Option<usize>,
) {
    let d = find_dir_from(nodes, path, name, 0, sep);
    let removed1: u64 = match d {
        Some(i) => nodes[i].cumulative_size,
        None => 0,
    };
    let f = if removed1 == 0 && parent is Some {
        match find_file_from(nodes, parent.unwrap(), name, d, 0, sep) {
            Some(j) => Some((j, top_file_index(nodes[j].top_files@, name, 0).unwrap())),
            None => None,
        }
    } else {
        None
    };
    let removed: u64 = match f {
        Some((j, x)) => nodes[j].top_files@[x].bytes,
        None => removed1,
    };
    let bubble = match f {
        Some((j, x)) => nodes[j].parent,
        None => match d {
            Some(i) => nodes[i].parent,
            None => None,
        },
    };
    (d, f, removed, bubble)
}

/// Node `k` after pruning, compared with node `k` before.
pub open spec fn pruned_node(
    nodes: Seq<TreeNode>,
    plan: (Option<int>, Option<(int, int)>, u64, Option<usize>),
    k: int,
    new: TreeNode,
) -> bool {
    let old = nodes[k];
    let (d, f, removed, bubble) = plan;
    let is_dir = d == Some(k);
    let is_file = f is Some && f.unwrap().0 == k;
    let staged_cum: u64 = if is_dir {
        0
    } else if is_file {
        sat_sub(old.cumulative_size, removed)
    } else {
        old.cumulative_size
    };
    let reduced = removed > 0 && bubble is Some && ancestry(nodes, bubble.unwrap() as int).contains(k);
    &&& new.name == old.name
    &&& new.kind == old.kind
    &&& new.parent == old.parent
    &&& new.depth == old.depth
    &&& new.other_files_bytes == old.other_files_bytes
    &&& new.other_files_count == old.other_files_count
    &&& new.size == (if is_dir {
        0
    } else if is_file {
        sat_sub(old.size, removed)
    } else {
        old.size
    })
    &&& new.cumulative_size == (if reduced {
        sat_sub(staged_cum, removed)
    } else {
        staged_cum
    })
    &&& new.children@ == (if is_dir {
        Seq::empty()
    } else {
        old.children@
    })
    &&& new.top_files@ == (if is_dir {
        Seq::empty()
    } else if is_file {
        old.top_files@.remove(f.unwrap().1)
    } else {
        old.top_files@
    })
}

/// Search results for files only depend on names, parents and the
/// file lists of the nodes other than `skip`.
proof fn lemma_find_file_same(
    a: Seq<TreeNode>,
    b: Seq<TreeNode>,
    parent: Seq<char>,
    name: Seq<char>,
    skip: Option<int>,
    sep: char,
)
    requires
        a.len() == b.len(),
        forall|k: int| #![trigger a[k]] 0 <= k < a.len() ==> a[k].name == b[k].name && a[k].parent == b[k].parent,
        forall|k: int| #![trigger a[k]] 0 <= k < a.len() && skip != Some(k) ==> a[k].top_files == b[k].top_files,
    ensures
        forall|i: int| find_file_from(a, parent, name, skip, i, sep) == #[trigger] find_file_from(b, parent, name, skip, i, sep),
{
    assert forall|i: int| find_file_from(a, parent, name, skip, i, sep) == #[trigger] find_file_from(b, parent, name, skip, i, sep) by {
        lemma_find_file_same_from(a, b, parent, name, skip, i, sep);
    }
}

proof fn lemma_find_file_same_from(
    a: Seq<TreeNode>,
    b: Seq<TreeNode>,
    parent: Seq<char>,
    name: Seq<char>,
    skip: Option<int>,
    i: int,
    sep: char,
)
    requires
        a.len() == b.len(),
        forall|k: int| #![trigger a[k]] 0 <= k < a.len() ==> a[k].name == b[k].name && a[k].parent == b[k].parent,
        forall|k: int| #![trigger a[k]] 0 <= k < a.len() && skip != Some(k) ==> a[k].top_files == b[k].top_files,
    ensures
        find_file_from(a, parent, name, skip, i, sep) == find_file_from(b, parent, name, skip, i, sep),
    decreases a.len() - i,
{
    if i < 0 || i >= a.len() {
    } else {
        lemma_full_path_same(a, b, i, sep);
        lemma_find_file_same_from(a, b, parent, name, skip, i + 1, sep);
    }
}

/// Full paths only depend on names and parents.
proof fn lemma_full_path_same(a: Seq<TreeNode>, b: Seq<TreeNode>, i: int, sep: char)
    requires
        0 <= i < a.len(),
        a.len() == b.len(),
        forall|k: int| #![trigger a[k]] 0 <= k < a.len() ==> a[k].name == b[k].name && a[k].parent == b[k].parent,
    ensures
        full_path_of(a, i, sep) == full_path_of(b, i, sep),
{
    lemma_ancestry_same(a, b, i);
    let an = ancestry(a, i);
    assert(an.map_values(|j: int| a[j].name@) =~= an.map_values(|j: int| b[j].name@)) by {
        assert forall|m: int| 0 <= m < an.len() implies a[an[m]].name@ == b[an[m]].name@ by {
            lemma_ancestry_in_range(a, i);
        }
    }
}

proof fn lemma_ancestry_in_range(a: Seq<TreeNode>, i: int)
    ensures
        0 <= i < a.len() ==> forall|m: int| 0 <= m < ancestry(a, i).len() ==> 0 <= #[trigger] ancestry(a, i)[m] <= i,
    decreases i,
{
    if 0 <= i < a.len() {
        match a[i].parent {
            Some(p) => {
                if 0 <= p < i {
                    lemma_ancestry_in_range(a, p as int);
                    assert(ancestry(a, i) == ancestry(a, p as int).push(i));
                } else {
                    assert(ancestry(a, i) == seq![i]);
                }
            },
            None => {
                assert(ancestry(a, i) == seq![i]);
            },
        }
    }
}

proof fn lemma_ancestry_same(a: Seq<TreeNode>, b: Seq<TreeNode>, i: int)
    requires
        a.len() == b.len(),
        forall|k: int| #![trigger a[k]] 0 <= k < a.len() ==> a[k].name == b[k].name && a[k].parent == b[k].parent,
        0 <= i < a.len(),
    ensures
        ancestry(a, i) == ancestry(b, i),
    decreases i,
{
    assert(a[i].parent == b[i].parent);
    match a[i].parent {
        Some(p) => {
            if 0 <= p < i {
                lemma_ancestry_same(a, b, p as int);
            }
        },
        None => {},
    }
}

proof fn lemma_find_dir_props(nodes: Seq<TreeNode>, path: Seq<char>, name: Seq<char>, i: int, sep: char)
    ensures
        find_dir_from(nodes, path, name, i, sep) matches Some(x) ==> i <= x < nodes.len() && 0 <= x,
    decreases nodes.len() - i,
{
    if i < 0 || i >= nodes.len() {
    } else if nodes[i].name@ == name && full_path_of(nodes, i, sep) == path {
    } else {
        lemma_find_dir_props(nodes, path, name, i + 1, sep);
    }
}

proof fn lemma_find_file_props(
    nodes: Seq<TreeNode>,
    parent: Seq<char>,
    name: Seq<char>,
    skip: Option<int>,
    i: int,
    sep: char,
)
    ensures
        find_file_from(nodes, parent, name, skip, i, sep) matches Some(x) ==> 0 <= i <= x < nodes.len()
            && skip != Some(x) && top_file_index(nodes[x].top_files@, name, 0) is Some,
    decreases nodes.len() - i,
{
    if i < 0 || i >= nodes.len() {
    } else if skip != Some(i) && full_path_of(nodes, i, sep) == parent && top_file_index(
        nodes[i].top_files@,
        name,
        0,
    ) is Some {
    } else {
        lemma_find_file_props(nodes, parent, name, skip, i + 1, sep);
    }
}

proof fn lemma_top_file_props(files: Seq<FileEntry>, name: Seq<char>, j: int)
    ensures
        top_file_index(files, name, j) matches Some(x) ==> 0 <= j <= x < files.len() && files[x].name@
            == name,
    decreases files.len() - j,
{
    if j < 0 || j >= files.len() {
    } else if files[j].name@ == name {
    } else {
        lemma_top_file_props(files, name, j + 1);
    }
}

proof fn lemma_ancestry_below(nodes: Seq<TreeNode>, i: int)
    requires
        nodes_wf(nodes),
        0 <= i < nodes.len(),
    ensures
        ancestry(nodes, i).len() > 0,
        ancestry(nodes, i).last() == i,
        forall|m: int| 0 <= m < ancestry(nodes, i).len() ==> 0 <= #[trigger] ancestry(nodes, i)[m] <= i,
    decreases i,
{
    assert(parent_ok(nodes, i));
    match nodes[i].parent {
        Some(p) => {
            lemma_ancestry_below(nodes, p as int);
        },
        None => {},
    }
}

/// `r` is the parent of `p` where the rules of `sep` fix it.
pub open spec fn parent_text_on(p: Seq<char>, r: Option<String>, sep: char) -> bool {
    has_plain_parent_on(p, sep) ==> r is Some && r.unwrap()@ == parent_on(p, sep)
}

/// `parent` is the parent of `p` where the rules of `sep` fix it.
pub open spec fn parent_fixed_on(p: Seq<char>, parent: Option<Seq<char>>, sep: char) -> bool {
    has_plain_parent_on(p, sep) ==> parent == Some(parent_on(p, sep))
}

/// `name` is the last component of `p` where the rules of `sep` fix it.
pub open spec fn name_text_fixed_on(p: Seq<char>, name: Seq<char>, sep: char) -> bool {
    has_plain_name_on(p, sep) ==> name == last_name_on(p, sep)
}

/// The parent of a path text, if it has one (std's `Path::parent`,
/// parsed as on the platform the application runs on): the text
/// without its last component, so a beginning of it, shorter than it.
/// Under the rules of the platform's separator, where
/// `has_plain_parent_on` holds, it is `parent_on`: the text before the
/// last component without trailing separators, unless they are the
/// root. Which separator that is, and the result for other shapes,
/// stays unstated.
#[verifier::external_body]
fn path_parent_text(p: &str) -> (r: Option<String>)
    ensures
        r is Some ==> is_proper_prefix(r.unwrap()@, p@),
        parent_text_on(p@, r, '/') || parent_text_on(p@, r, '\\'),
{
    std::path::Path::new(p).parent().map(|q| q.display().to_string())
}

/// Remove a deleted file or folder from a finished tree (see
/// `DirTree::prune_entry`). The parent path and last component of
/// `removed_path` come from the platform's path parsing (see
/// `parent_on` and `last_name_on`): the parent is a shorter beginning of
/// the path, the name a non-empty piece of it (empty when there is
/// none). The tree changes as `prune_entry` describes for them, with
/// the full paths of the platform.
pub fn prune_tree_path(tree: &mut DirTree, removed_path: &str)
    requires
        old(tree).wf(),
    ensures
        final(tree).wf(),
        final(tree).nodes@.len() == old(tree).nodes@.len(),
        exists|parent: Option<Seq<char>>, name: Seq<char>, sep: char|
            {
                &&& (sep == '/' || sep == '\\')
                &&& (parent matches Some(q) ==> is_proper_prefix(q, removed_path@))
                &&& (name.len() > 0 ==> is_piece_of(name, removed_path@))
                &&& (parent_fixed_on(removed_path@, parent, '/') || parent_fixed_on(removed_path@, parent, '\\'))
                &&& (name_text_fixed_on(removed_path@, name, '/') || name_text_fixed_on(removed_path@, name, '\\'))
                &&& forall|k: int|
                    0 <= k < old(tree).nodes@.len() ==> pruned_node(
                        old(tree).nodes@,
                        #[trigger] prune_plan(old(tree).nodes@, removed_path@, parent, name, sep),
                        k,
                        final(tree).nodes@[k],
                    )
            },
{
    let parent = path_parent_text(removed_path);
    let name = match path_file_name(removed_path) {
        Some(n) => n,
        None => String::new(),
    };
    let sep = main_separator();
    let ghost before = tree.nodes@;
    proof {
        let pv = match &parent {
            Some(q) => Some(q@),
            None => None,
        };
        assert(parent_fixed_on(removed_path@, pv, '/') || parent_fixed_on(removed_path@, pv, '\\'));
        assert(name_text_fixed_on(removed_path@, name@, '/') || name_text_fixed_on(removed_path@, name@, '\\'));
    }
    match &parent {
        Some(p) => {
            tree.prune_entry_with(removed_path, Some(p.as_str()), name.as_str(), sep);
            let ghost plan = prune_plan(before, removed_path@, Some(p@), name@, sep);
            assert(forall|k: int|
                0 <= k < before.len() ==> pruned_node(before, plan, k, tree.nodes@[k]));
        },
        None => {
            tree.prune_entry_with(removed_path, None, name.as_str(), sep);
            let ghost plan = prune_plan(before, removed_path@, None, name@, sep);
            assert(forall|k: int|
                0 <= k < before.len() ==> pruned_node(before, plan, k, tree.nodes@[k]));
        },
    }
}

impl DirTree {
    /// The first node named `name` whose full path is `path`.
    fn find_dir(&self, path: &str, name: &str, sep: char) -> (r: Option<usize>)
        requires
            self.wf(),
        ensures
            r matches Some(i) ==> find_dir_from(self.nodes@, path@, name@, 0, sep) == Some(i as int),
            r is None ==> find_dir_from(self.nodes@, path@, name@, 0, sep) is None,
    {
        let mut i: usize = 0;
        while i < self.nodes.len()
            invariant
                self.wf(),
                i <= self.nodes@.len(),
                find_dir_from(self.nodes@, path@, name@, 0, sep) == find_dir_from(self.nodes@, path@, name@, i as int, sep),
            decreases self.nodes.len() - i,
        {
            if text_eq(self.nodes[i].name.as_str(), name) {
                let p = self.full_path_with(i, sep);
                if text_eq(p.as_str(), path) {
                    return Some(i);
                }
            }
            i = i + 1;
        }
        None
    }

    /// The first node other than `skip` whose full path is `parent` and
    /// that lists a file named `name`, with the file's position.
    #[verifier::loop_isolation(false)]
    fn find_file(&self, parent: &str, name: &str, skip: Option<usize>, sep: char) -> (r: Option<(usize, usize)>)
        requires
            self.wf(),
        ensures
            ({
                let s = match skip {
                    Some(x) => Some(x as int),
                    None => None,
                };
                match r {
                    Some((j, x)) => find_file_from(self.nodes@, parent@, name@, s, 0, sep) == Some(j as int)
                        && top_file_index(self.nodes@[j as int].top_files@, name@, 0) == Some(x as int),
                    None => find_file_from(self.nodes@, parent@, name@, s, 0, sep) is None,
                }
            }),
    {
        let ghost s = match skip {
            Some(x) => Some(x as int),
            None => None,
        };
        let mut i: usize = 0;
        while i < self.nodes.len()
            invariant
                self.wf(),
                i <= self.nodes@.len(),
                s == (match skip {
                    Some(x) => Some(x as int),
                    None => None,
                }),
                find_file_from(self.nodes@, parent@, name@, s, 0, sep) == find_file_from(
                    self.nodes@,
                    parent@,
                    name@,
                    s,
                    i as int, sep),
            decreases self.nodes.len() - i,
        {
            if skip != Some(i) {
                let p = self.full_path_with(i, sep);
                if text_eq(p.as_str(), parent) {
                    let files = &self.nodes[i].top_files;
                    let mut x: usize = 0;
                    while x < files.len()
                        invariant
                            x <= files@.len(),
                            top_file_index(files@, name@, 0) == top_file_index(files@, name@, x as int),
                        decreases files.len() - x,
                    {
                        if text_eq(files[x].name.as_str(), name) {
                            assert(s != Some(i as int));
                            assert(top_file_index(files@, name@, x as int) == Some(x as int));
                            assert(find_file_from(self.nodes@, parent@, name@, s, i as int, sep) == Some(i as int));
                            return Some((i, x));
                        }
                        x = x + 1;
                    }
                }
            }
            i = i + 1;
        }
        None
    }

    /// Subtract `amount` (saturating) from the total of `start` and of
    /// each of its ancestors.
    fn subtract_from_ancestors(&mut self, start: Option<usize>, amount: u64)
        requires
            old(self).wf(),
            start matches Some(b) ==> b < old(self).nodes@.len(),
        ensures
            final(self).wf(),
            final(self).nodes@.len() == old(self).nodes@.len(),
            forall|k: int|
                0 <= k < old(self).nodes@.len() ==> #[trigger] final(self).nodes@[k] == (if start is Some
                    && ancestry(old(self).nodes@, start.unwrap() as int).contains(k) {
                    crate::tree::with_cumulative(
                        old(self).nodes@[k],
                        sat_sub(old(self).nodes@[k].cumulative_size, amount),
                    )
                } else {
                    old(self).nodes@[k]
                }),
    {
        let ghost orig = self.nodes@;
        let ghost b0 = start;
        let mut cur = start;
        loop
            invariant
                nodes_wf(self.nodes@),
                nodes_wf(orig),
                self.nodes@.len() == orig.len(),
                forall|k: int| 0 <= k < orig.len() ==> #[trigger] self.nodes@[k].parent == orig[k].parent,
                b0 is Some ==> b0.unwrap() < orig.len(),
                cur is Some ==> cur.unwrap() < orig.len() && b0 is Some,
                cur is Some ==> forall|k: int|
                    #[trigger] ancestry(orig, cur.unwrap() as int).contains(k) ==> ancestry(
                        orig,
                        b0.unwrap() as int,
                    ).contains(k),
                forall|k: int|
                    0 <= k < orig.len() ==> #[trigger] self.nodes@[k] == (if b0 is Some
                        && ancestry(orig, b0.unwrap() as int).contains(k) && !(cur is Some
                        && ancestry(orig, cur.unwrap() as int).contains(k)) {
                        crate::tree::with_cumulative(
                            orig[k],
                            sat_sub(orig[k].cumulative_size, amount),
                        )
                    } else {
                        orig[k]
                    }),
            ensures
                nodes_wf(self.nodes@),
                self.nodes@.len() == orig.len(),
                forall|k: int|
                    0 <= k < orig.len() ==> #[trigger] self.nodes@[k] == (if b0 is Some
                        && ancestry(orig, b0.unwrap() as int).contains(k) {
                        crate::tree::with_cumulative(
                            orig[k],
                            sat_sub(orig[k].cumulative_size, amount),
                        )
                    } else {
                        orig[k]
                    }),
            decreases (match cur {
                Some(c) => c as int + 1,
                None => 0,
            }),
        {
            match cur {
                Some(pid) => {
                    proof {
                        assert(parent_ok(orig, pid as int));
                        lemma_ancestry_below(orig, pid as int);
                    }
                    let ghost before = self.nodes@;
                    self.nodes[pid].cumulative_size = self.nodes[pid].cumulative_size.saturating_sub(amount);
                    let next = self.nodes[pid].parent;
                    proof {
                        assert(self.nodes@[pid as int].parent == orig[pid as int].parent);
                        match next {
                            Some(q) => {
                                lemma_ancestry_below(orig, q as int);
                                assert(ancestry(orig, pid as int) == ancestry(orig, q as int).push(pid as int));
                                assert(!ancestry(orig, q as int).contains(pid as int));
                                assert forall|k: int| #[trigger] ancestry(orig, q as int).contains(k) implies ancestry(orig, pid as int).contains(k) by {
                                    let w = ancestry(orig, q as int).index_of(k);
                                    assert(ancestry(orig, pid as int)[w] == k);
                                }
                            },
                            None => {},
                        }
                        assert(ancestry(orig, pid as int).contains(pid as int)) by {
                            assert(ancestry(orig, pid as int)[ancestry(orig, pid as int).len() - 1] == pid as int);
                        }
                        assert(nodes_wf(self.nodes@)) by {
                            let cn = self.nodes@;
                            assert forall|j: int| #![trigger cn[j]] 0 <= j < cn.len() implies parent_ok(
                                cn,
                                j,
                            ) && crate::tree::children_ok(cn, j) by {
                                assert(parent_ok(before, j));
                                assert(crate::tree::children_ok(before, j));
                                assert forall|x: int| 0 <= x < cn[j].children@.len() implies #[trigger] cn[cn[j].children@[x] as int].parent == before[before[j].children@[x] as int].parent by {
                                }
                            }
                        }
                    }
                    cur = next;
                },
                None => {
                    break;
                },
            }
        }
    }

    /// Remove a deleted path from the tree, given the path's parent path
    /// and last component.
    ///
    /// When a node named `name` has the full path `removed_path`, it is
    /// emptied (size, total, children and top files). Otherwise — or
    /// when that node's total was zero — the first node whose full path
    /// is `parent` and that lists a file named `name` drops that file
    /// and loses its bytes. The bytes removed are then subtracted
    /// (saturating) from the totals of all ancestors. Full paths are
    /// those of the platform this runs on.
    pub fn prune_entry(&mut self, removed_path: &str, parent: Option<&str>, name: &str)
        requires
            old(self).wf(),
        ensures
            final(self).wf(),
            final(self).nodes@.len() == old(self).nodes@.len(),
            exists|sep: char|
                (sep == '/' || sep == '\\') && forall|k: int|
                    0 <= k < old(self).nodes@.len() ==> pruned_node(
                        old(self).nodes@,
                        #[trigger] prune_plan(old(self).nodes@, removed_path@, opt_text(parent), name@, sep),
                        k,
                        final(self).nodes@[k],
                    ),
    {
        let sep = main_separator();
        let ghost before = self.nodes@;
        self.prune_entry_with(removed_path, parent, name, sep);
        let ghost plan = prune_plan(before, removed_path@, opt_text(parent), name@, sep);
        assert(forall|k: int| 0 <= k < before.len() ==> pruned_node(before, plan, k, #[trigger] self.nodes@[k]));
    }

    /// `prune_entry` with the full paths of a platform whose main
    /// separator is `sep`.
    #[verifier::rlimit(60)]
    #[verifier::spinoff_prover]
    pub fn prune_entry_with(&mut self, removed_path: &str, parent: Option<&str>, name: &str, sep: char)
        requires
            old(self).wf(),
        ensures
            final(self).wf(),
            final(self).nodes@.len() == old(self).nodes@.len(),
            forall|k: int|
                0 <= k < old(self).nodes@.len() ==> pruned_node(
                    old(self).nodes@,
                    prune_plan(old(self).nodes@, removed_path@, opt_text(parent), name@, sep),
                    k,
                    #[trigger] final(self).nodes@[k],
                ),
    {
        let ghost orig = self.nodes@;
        let ghost plan = prune_plan(
            orig,
            removed_path@,
            match parent {
                Some(p) => Some(p@),
                None => None,
            },
            name@, sep);
        let mut removed: u64 = 0;
        let mut bubble: Option<usize> = None;
        let d = self.find_dir(removed_path, name, sep);
        proof {
            lemma_find_dir_props(orig, removed_path@, name@, 0, sep);
        }
        if let Some(i) = d {
            removed = self.nodes[i].cumulative_size;
            self.nodes[i].size = 0;
            self.nodes[i].cumulative_size = 0;
            self.nodes[i].children.clear();
            self.nodes[i].top_files.clear();
            bubble = self.nodes[i].parent;
        }
        let ghost mid = self.nodes@;
        let ghost d_int = match d {
            Some(x) => Some(x as int),
            None => None,
        };
        assert(mid.len() == orig.len());
        assert(forall|k: int| 0 <= k < orig.len() && d_int != Some(k) ==> #[trigger] mid[k] == orig[k]);
        assert(forall|k: int| #![trigger mid[k]] 0 <= k < orig.len() ==> mid[k].name == orig[k].name && mid[k].parent == orig[k].parent && mid[k].kind == orig[k].kind && mid[k].depth == orig[k].depth && mid[k].other_files_bytes == orig[k].other_files_bytes && mid[k].other_files_count == orig[k].other_files_count);
        if let Some(i) = d {
            assert(mid[i as int].size == 0 && mid[i as int].cumulative_size == 0 && mid[i as int].children@.len() == 0 && mid[i as int].top_files@.len() == 0);
            assert(removed == orig[i as int].cumulative_size);
            assert(bubble == orig[i as int].parent);
        } else {
            assert(removed == 0 && bubble is None);
        }
        assert(nodes_wf(mid)) by {
            assert forall|j: int| #![trigger mid[j]] 0 <= j < mid.len() implies parent_ok(mid, j)
                && crate::tree::children_ok(mid, j) by {
                assert(parent_ok(orig, j));
                assert(crate::tree::children_ok(orig, j));
                assert forall|x: int| 0 <= x < mid[j].children@.len() implies #[trigger] mid[mid[j].children@[x] as int].parent == orig[orig[j].children@[x] as int].parent by {
                }
            }
        }
        let mut file_hit: Option<(usize, usize)> = None;
        if removed == 0 {
            if let Some(par) = parent {
                proof {
                    lemma_find_file_same(orig, mid, par@, name@, match d {
                        Some(x) => Some(x as int),
                        None => None,
                    }, sep);
                }
                let hit = self.find_file(par, name, d, sep);
                proof {
                    lemma_find_file_props(mid, par@, name@, d_int, 0, sep);
                    if let Some((j, x)) = hit {
                        lemma_top_file_props(mid[j as int].top_files@, name@, 0);
                    }
                }
                if let Some((j, x)) = hit {
                    let b = self.nodes[j].top_files[x].bytes;
                    removed = b;
                    self.nodes[j].top_files.remove(x);
                    self.nodes[j].size = self.nodes[j].size.saturating_sub(b);
                    self.nodes[j].cumulative_size = self.nodes[j].cumulative_size.saturating_sub(b);
                    bubble = self.nodes[j].parent;
                    file_hit = Some((j, x));
                }
            }
        }
        let ghost staged = self.nodes@;
        assert(staged.len() == orig.len());
        assert(forall|k: int| #![trigger staged[k]] 0 <= k < orig.len() ==> staged[k].name == orig[k].name && staged[k].parent == orig[k].parent);
        match file_hit {
            Some((j, x)) => {
                assert(forall|k: int| 0 <= k < orig.len() && k != j ==> #[trigger] staged[k] == mid[k]);
                assert(d_int != Some(j as int));
                assert(mid[j as int] == orig[j as int]);
                assert(staged[j as int].top_files@ == orig[j as int].top_files@.remove(x as int));
                assert(removed == orig[j as int].top_files@[x as int].bytes);
                assert(bubble == orig[j as int].parent);
            },
            None => {
                assert(staged == mid);
            },
        }
        let ghost b0 = bubble;
        assert(nodes_wf(staged)) by {
            assert forall|j: int| #![trigger staged[j]] 0 <= j < staged.len() implies parent_ok(
                staged,
                j,
            ) && crate::tree::children_ok(staged, j) by {
                assert(parent_ok(mid, j));
                assert(crate::tree::children_ok(mid, j));
                assert forall|x: int| 0 <= x < staged[j].children@.len() implies #[trigger] staged[staged[j].children@[x] as int].parent == mid[mid[j].children@[x] as int].parent by {
                }
            }
        }
        proof {
            assert(forall|k: int| 0 <= k < orig.len() ==> #[trigger] staged[k].parent == orig[k].parent);
            if let Some(b) = b0 {
                assert(b < orig.len());
            }
        }
        if removed > 0 {
            self.subtract_from_ancestors(bubble, removed);
        }
        proof {
            let pp = match parent {
                Some(p) => Some(p@),
                None => None,
            };
            assert(plan == prune_plan(orig, removed_path@, pp, name@, sep));
            lemma_find_dir_props(orig, removed_path@, name@, 0, sep);
            let d_int = match d {
                Some(x) => Some(x as int),
                None => None,
            };
            assert(plan.0 == d_int);
            match file_hit {
                Some((j, x)) => {
                    lemma_find_file_props(orig, pp.unwrap(), name@, d_int, 0, sep);
                    lemma_top_file_props(orig[j as int].top_files@, name@, 0);
                    assert(plan.1 == Some((j as int, x as int)));
                },
                None => {
                    if plan.1 is Some {
                        lemma_find_file_props(orig, pp.unwrap(), name@, d_int, 0, sep);
                    }
                    assert(plan.1 is None);
                },
            }
            assert(plan.2 == removed);
            assert(plan.3 == b0);
            assert forall|k: int| 0 <= k < orig.len() implies pruned_node(
                orig,
                plan,
                k,
                #[trigger] self.nodes@[k],
            ) by {
                let sk = staged[k];
                let ok = orig[k];
                if removed == 0 {
                    assert(self.nodes@[k] == sk);
                } else if b0 is Some {
                    lemma_ancestry_same(orig, staged, b0.unwrap() as int);
                }
                if d_int == Some(k) {
                    if let Some((j, x)) = file_hit {
                        assert(j as int != k);
                    }
                    assert(sk == mid[k]);
                    assert(sk.size == 0 && sk.cumulative_size == 0);
                    assert(sk.children@ =~= Seq::<usize>::empty());
                    assert(sk.top_files@ =~= Seq::<FileEntry>::empty());
                } else if file_hit is Some && file_hit.unwrap().0 as int == k {
                    assert(mid[k] == ok);
                    assert(sk.size == sat_sub(ok.size, removed));
                    assert(sk.cumulative_size == sat_sub(ok.cumulative_size, removed));
                } else {
                    if let Some((j, x)) = file_hit {
                        assert(sk == mid[k]);
                    }
                    assert(sk == ok);
                }
            }
        }
    }
}

/// Pruning a path that names no directory of the tree and no listed
/// file leaves every node as it was.
pub proof fn lemma_prune_unknown_path_changes_nothing(
    nodes: Seq<TreeNode>,
    path: Seq<char>,
    parent: Option<Seq<char>>,
    name: Seq<char>,
    sep: char,
    k: int,
    new: TreeNode,
)
    requires
        0 <= k < nodes.len(),
        find_dir_from(nodes, path, name, 0, sep) is None,
        parent matches Some(pp) ==> find_file_from(nodes, pp, name, None, 0, sep) is None,
        pruned_node(nodes, prune_plan(nodes, path, parent, name, sep), k, new),
    ensures
        new.name == nodes[k].name,
        new.kind == nodes[k].kind,
        new.parent == nodes[k].parent,
        new.depth == nodes[k].depth,
        new.size == nodes[k].size,
        new.cumulative_size == nodes[k].cumulative_size,
        new.children@ == nodes[k].children@,
        new.top_files@ == nodes[k].top_files@,
        new.other_files_bytes == nodes[k].other_files_bytes,
        new.other_files_count == nodes[k].other_files_count,
{
}

/// Pruning a directory empties it and takes its former total off every
/// ancestor (saturating at zero).
pub proof fn lemma_prune_directory(
    nodes: Seq<TreeNode>,
    path: Seq<char>,
    parent: Option<Seq<char>>,
    name: Seq<char>,
    sep: char,
    d: int,
    k: int,
    new: TreeNode,
)
    requires
        0 <= k < nodes.len(),
        find_dir_from(nodes, path, name, 0, sep) == Some(d),
        nodes[d].cumulative_size > 0,
        pruned_node(nodes, prune_plan(nodes, path, parent, name, sep), k, new),
    ensures
        k == d ==> new.size == 0 && new.cumulative_size == 0 && new.children@.len() == 0
            && new.top_files@.len() == 0,
        k != d && nodes[d].parent is Some && ancestry(nodes, nodes[d].parent.unwrap() as int).contains(k)
            ==> new.cumulative_size == sat_sub(nodes[k].cumulative_size, nodes[d].cumulative_size),
        k != d && !(nodes[d].parent is Some && ancestry(nodes, nodes[d].parent.unwrap() as int).contains(k))
            ==> new.cumulative_size == nodes[k].cumulative_size,
{
}

/// Pruning never makes a size or a total grow.
pub proof fn lemma_prune_never_grows(
    nodes: Seq<TreeNode>,
    path: Seq<char>,
    parent: Option<Seq<char>>,
    name: Seq<char>,
    sep: char,
    k: int,
    new: TreeNode,
)
    requires
        0 <= k < nodes.len(),
        pruned_node(nodes, prune_plan(nodes, path, parent, name, sep), k, new),
    ensures
        new.size <= nodes[k].size,
        new.cumulative_size <= nodes[k].cumulative_size,
{
}

/// Node `i`'s total is its own size plus its children's totals.
pub open spec fn consistent_at(nodes: Seq<TreeNode>, i: int) -> bool {
    nodes[i].cumulative_size == nodes[i].size + children_cumulative(nodes, i, nodes[i].children@.len() as int)
}

/// Every node's total is its own size plus its children's totals (what
/// aggregation makes, see `lemma_cumulative_is_own_plus_children`).
pub open spec fn totals_consistent(nodes: Seq<TreeNode>) -> bool {
    forall|i: int| 0 <= i < nodes.len() ==> #[trigger] consistent_at(nodes, i)
}

proof fn lemma_cc_nonneg(nodes: Seq<TreeNode>, i: int, m: int)
    ensures
        children_cumulative(nodes, i, m) >= 0,
    decreases m,
{
    if m > 0 {
        lemma_cc_nonneg(nodes, i, m - 1);
    }
}

proof fn lemma_cc_bound(nodes: Seq<TreeNode>, i: int, m: int, j: int)
    requires
        0 <= j < m,
    ensures
        children_cumulative(nodes, i, m) >= nodes[child(nodes, i, j)].cumulative_size,
    decreases m,
{
    lemma_cc_nonneg(nodes, i, m - 1);
    if j < m - 1 {
        lemma_cc_bound(nodes, i, m - 1, j);
    }
}

/// Node `k`, when it has a parent, is listed among the parent's children.
pub open spec fn listed_by_parent(nodes: Seq<TreeNode>, k: int) -> bool {
    nodes[k].parent is Some ==> nodes[nodes[k].parent.unwrap() as int].children@.contains(k as usize)
}

/// A node's total is at least that of any node below it.
proof fn lemma_ancestor_total(nodes: Seq<TreeNode>, k: int, a: int)
    requires
        parents_precede(nodes),
        forall|i: int| 0 <= i < nodes.len() ==> #[trigger] listed_by_parent(nodes, i),
        totals_consistent(nodes),
        nodes.len() <= usize::MAX,
        0 <= k < nodes.len(),
        ancestry(nodes, k).contains(a),
    ensures
        0 <= a < nodes.len(),
        nodes[a].cumulative_size >= nodes[k].cumulative_size,
    decreases k,
{
    assert(parent_ok(nodes, k));
    lemma_ancestry_in_range(nodes, k);
    match nodes[k].parent {
        Some(p) => {
            let pp = p as int;
            let an = ancestry(nodes, pp);
            assert(ancestry(nodes, k) == an.push(k));
            assert(listed_by_parent(nodes, k));
            assert(nodes[pp].children@.contains(k as usize));
            let w = choose|w: int| 0 <= w < nodes[pp].children@.len() && nodes[pp].children@[w] == k as usize;
            assert(child(nodes, pp, w) == k);
            lemma_cc_bound(nodes, pp, nodes[pp].children@.len() as int, w);
            assert(consistent_at(nodes, pp));
            assert(nodes[pp].cumulative_size >= nodes[k].cumulative_size);
            if a != k {
                let t = choose|t: int| 0 <= t < an.len() + 1 && an.push(k)[t] == a;
                assert(an[t] == a);
                lemma_ancestor_total(nodes, pp, a);
            }
        },
        None => {
            assert(ancestry(nodes, k) == seq![k]);
            let t = choose|t: int| 0 <= t < 1 && seq![k][t] == a;
        },
    }
}

/// The parent of a node on the chain above `b` is on it too.
proof fn lemma_chain_parent(nodes: Seq<TreeNode>, b: int, c: int)
    requires
        nodes_wf(nodes),
        0 <= b < nodes.len(),
        ancestry(nodes, b).contains(c),
        nodes[c].parent is Some,
    ensures
        ancestry(nodes, b).contains(nodes[c].parent.unwrap() as int),
    decreases b,
{
    assert(parent_ok(nodes, b));
    match nodes[b].parent {
        Some(pb) => {
            let an = ancestry(nodes, pb as int);
            assert(ancestry(nodes, b) == an.push(b));
            lemma_ancestry_below(nodes, pb as int);
            if c == b {
                assert(an.push(b)[an.len() - 1] == pb as int);
            } else {
                let t = choose|t: int| 0 <= t < an.len() + 1 && an.push(b)[t] == c;
                assert(an[t] == c);
                lemma_chain_parent(nodes, pb as int, c);
                let u = choose|u: int| 0 <= u < an.len() && an[u] == nodes[c].parent.unwrap() as int;
                assert(an.push(b)[u] == an[u]);
            }
        },
        None => {
            assert(ancestry(nodes, b) == seq![b]);
            let t = choose|t: int| 0 <= t < 1 && seq![b][t] == c;
        },
    }
}

/// Two nodes on the chain above `b` with the same parent are the same.
proof fn lemma_chain_unique_child(nodes: Seq<TreeNode>, b: int, s1: int, s2: int)
    requires
        nodes_wf(nodes),
        0 <= b < nodes.len(),
        ancestry(nodes, b).contains(s1),
        ancestry(nodes, b).contains(s2),
        nodes[s1].parent is Some,
        nodes[s1].parent == nodes[s2].parent,
    ensures
        s1 == s2,
    decreases b,
{
    assert(parent_ok(nodes, b));
    lemma_ancestry_below(nodes, b);
    match nodes[b].parent {
        Some(pb) => {
            let an = ancestry(nodes, pb as int);
            assert(ancestry(nodes, b) == an.push(b));
            lemma_ancestry_below(nodes, pb as int);
            if s1 != b && s2 != b {
                let t1 = choose|t: int| 0 <= t < an.len() + 1 && an.push(b)[t] == s1;
                let t2 = choose|t: int| 0 <= t < an.len() + 1 && an.push(b)[t] == s2;
                assert(an[t1] == s1 && an[t2] == s2);
                lemma_chain_unique_child(nodes, pb as int, s1, s2);
            } else if s1 == b && s2 != b {
                let t2 = choose|t: int| 0 <= t < an.len() + 1 && an.push(b)[t] == s2;
                assert(an[t2] == s2);
                assert(s2 <= pb);
                assert(parent_ok(nodes, s2));
            } else if s2 == b && s1 != b {
                let t1 = choose|t: int| 0 <= t < an.len() + 1 && an.push(b)[t] == s1;
                assert(an[t1] == s1);
                assert(s1 <= pb);
                assert(parent_ok(nodes, s1));
            }
        },
        None => {
            assert(ancestry(nodes, b) == seq![b]);
            let t1 = choose|t: int| 0 <= t < 1 && seq![b][t] == s1;
            let t2 = choose|t: int| 0 <= t < 1 && seq![b][t] == s2;
        },
    }
}

/// A node on the chain above `b`, other than `b`, has a child on it.
proof fn lemma_chain_child(nodes: Seq<TreeNode>, b: int, k: int) -> (s: int)
    requires
        nodes_wf(nodes),
        0 <= b < nodes.len(),
        ancestry(nodes, b).contains(k),
        k != b,
    ensures
        ancestry(nodes, b).contains(s),
        nodes[s].parent == Some(k as usize),
        0 <= s < nodes.len(),
    decreases b,
{
    assert(parent_ok(nodes, b));
    match nodes[b].parent {
        Some(pb) => {
            let an = ancestry(nodes, pb as int);
            assert(ancestry(nodes, b) == an.push(b));
            let t = choose|t: int| 0 <= t < an.len() + 1 && an.push(b)[t] == k;
            assert(an[t] == k);
            if k == pb as int {
                assert(an.push(b)[an.len() as int] == b);
                b
            } else {
                let s = lemma_chain_child(nodes, pb as int, k);
                let u = choose|u: int| 0 <= u < an.len() && an[u] == s;
                assert(an.push(b)[u] == s);
                s
            }
        },
        None => {
            assert(ancestry(nodes, b) == seq![b]);
            let t = choose|t: int| 0 <= t < 1 && seq![b][t] == k;
            b
        },
    }
}

/// Children's totals change by `delta` at the one listed child `c0`
/// (if it is listed) and nowhere else.
proof fn lemma_cc_change(a: Seq<TreeNode>, b: Seq<TreeNode>, k: int, m: int, c0: int, delta: int)
    requires
        nodes_wf(a),
        0 <= k < a.len(),
        a.len() == b.len(),
        b[k].children@ == a[k].children@,
        0 <= m <= a[k].children@.len(),
        forall|j: int|
            0 <= j < m ==> #[trigger] b[child(a, k, j)].cumulative_size == a[child(a, k, j)].cumulative_size - (
            if child(a, k, j) == c0 {
                delta
            } else {
                0
            }),
    ensures
        children_cumulative(b, k, m) == children_cumulative(a, k, m) - (if exists|j: int|
            0 <= j < m && #[trigger] child(a, k, j) == c0 {
            delta
        } else {
            0
        }),
    decreases m,
{
    assert(children_ok(a, k));
    if m > 0 {
        lemma_cc_change(a, b, k, m - 1, c0, delta);
        let c = child(a, k, m - 1);
        assert(child(b, k, m - 1) == c);
        if c == c0 {
            assert(!exists|j: int| 0 <= j < m - 1 && #[trigger] child(a, k, j) == c0) by {
                if exists|j: int| 0 <= j < m - 1 && #[trigger] child(a, k, j) == c0 {
                    let j = choose|j: int| 0 <= j < m - 1 && #[trigger] child(a, k, j) == c0;
                    assert(a[k].children@[j] < a[k].children@[m - 1]);
                }
            }
        } else {
            assert((exists|j: int| 0 <= j < m && #[trigger] child(a, k, j) == c0) == (exists|j: int|
                0 <= j < m - 1 && #[trigger] child(a, k, j) == c0));
        }
    }
}

/// What pruning takes off the total of node `c`.
spec fn prune_delta(nodes: Seq<TreeNode>, plan: (Option<int>, Option<(int, int)>, u64, Option<usize>), c: int) -> int {
    let (d, f, removed, bubble) = plan;
    if d == Some(c) {
        nodes[c].cumulative_size as int
    } else if (f is Some && f.unwrap().0 == c) || (removed > 0 && bubble is Some && ancestry(
        nodes,
        bubble.unwrap() as int,
    ).contains(c)) {
        removed as int
    } else {
        0
    }
}

/// The facts about a prune plan that the totals rest on.
spec fn plan_facts(nodes: Seq<TreeNode>, plan: (Option<int>, Option<(int, int)>, u64, Option<usize>)) -> bool {
    let (d, f, removed, bubble) = plan;
    &&& d matches Some(dd) ==> 0 <= dd < nodes.len()
    &&& f matches Some((j, x)) ==> {
        &&& 0 <= j < nodes.len()
        &&& d != Some(j)
        &&& 0 <= x < nodes[j].top_files@.len()
        &&& removed == nodes[j].top_files@[x].bytes
        &&& bubble == nodes[j].parent
        &&& removed <= nodes[j].size
        &&& (d matches Some(dd) ==> nodes[dd].cumulative_size == 0)
    }
    &&& f is None ==> (match d {
        Some(dd) => removed == nodes[dd].cumulative_size && bubble == nodes[dd].parent,
        None => removed == 0 && bubble is None,
    })
    &&& (removed > 0 && bubble is Some) ==> forall|c: int|
        #[trigger] ancestry(nodes, bubble.unwrap() as int).contains(c) ==> 0 <= c < nodes.len()
            && nodes[c].cumulative_size >= removed && d != Some(c) && !(f is Some && f.unwrap().0 == c)
}

proof fn lemma_plan_facts(
    nodes: Seq<TreeNode>,
    path: Seq<char>,
    parent: Option<Seq<char>>,
    name: Seq<char>,
    sep: char,
)
    requires
        nodes_wf(nodes),
        parents_list_children(nodes),
        totals_consistent(nodes),
        nodes.len() <= usize::MAX,
        forall|k: int, x: int|
            0 <= k < nodes.len() && 0 <= x < nodes[k].top_files@.len() ==> #[trigger] nodes[k].top_files@[x].bytes
                <= nodes[k].size,
    ensures
        plan_facts(nodes, prune_plan(nodes, path, parent, name, sep)),
{
    let plan = prune_plan(nodes, path, parent, name, sep);
    let (d, f, removed, bubble) = plan;
    lemma_find_dir_props(nodes, path, name, 0, sep);
    if parent is Some {
        lemma_find_file_props(nodes, parent.unwrap(), name, d, 0, sep);
        if let Some(j) = find_file_from(nodes, parent.unwrap(), name, d, 0, sep) {
            lemma_top_file_props(nodes[j].top_files@, name, 0);
        }
    }
    assert forall|i: int| 0 <= i < nodes.len() implies #[trigger] listed_by_parent(nodes, i) by {
        if nodes[i].parent is Some {
            assert(nodes[nodes[i].parent.unwrap() as int].children@.contains(i as usize));
        }
    }
    assert(parents_precede(nodes)) by {
        assert forall|i: int| 0 <= i < nodes.len() implies #[trigger] parent_ok(nodes, i) by {
            assert(nodes[i] == nodes[i]);
        }
    }
    if removed > 0 && bubble is Some {
        let b = bubble.unwrap() as int;
        // the node the removal starts from
        let (src, src_total): (int, int) = match f {
            Some((j, x)) => (j, nodes[j].cumulative_size as int),
            None => (d.unwrap(), nodes[d.unwrap()].cumulative_size as int),
        };
        assert(0 <= src < nodes.len());
        assert(nodes[src].parent == Some(b as usize));
        assert(parent_ok(nodes, src));
        assert(listed_by_parent(nodes, src));
        assert(nodes[b].children@.contains(src as usize));
        let w = choose|w: int| 0 <= w < nodes[b].children@.len() && nodes[b].children@[w] == src as usize;
        assert(child(nodes, b, w) == src);
        lemma_cc_bound(nodes, b, nodes[b].children@.len() as int, w);
        assert(consistent_at(nodes, b));
        assert(consistent_at(nodes, src));
        lemma_cc_nonneg(nodes, src, nodes[src].children@.len() as int);
        assert(nodes[b].cumulative_size >= removed);
        lemma_ancestry_in_range(nodes, b);
        assert forall|c: int| #[trigger] ancestry(nodes, b).contains(c) implies 0 <= c < nodes.len()
            && nodes[c].cumulative_size >= removed && d != Some(c) && !(f is Some && f.unwrap().0 == c) by {
            lemma_ancestor_total(nodes, b, c);
            let t = choose|t: int| 0 <= t < ancestry(nodes, b).len() && ancestry(nodes, b)[t] == c;
            assert(c <= b);
            if d == Some(c) && f is Some {
                assert(nodes[c].cumulative_size == 0);
            }
        }
    }
}

proof fn lemma_pruned_total(
    nodes: Seq<TreeNode>,
    plan: (Option<int>, Option<(int, int)>, u64, Option<usize>),
    k: int,
    new: TreeNode,
)
    requires
        plan_facts(nodes, plan),
        totals_consistent(nodes),
        0 <= k < nodes.len(),
        pruned_node(nodes, plan, k, new),
    ensures
        new.cumulative_size == nodes[k].cumulative_size - prune_delta(nodes, plan, k),
        new.size == nodes[k].size - (if plan.0 == Some(k) {
            nodes[k].size as int
        } else if plan.1 is Some && plan.1.unwrap().0 == k {
            plan.2 as int
        } else {
            0
        }),
{
    let (d, f, removed, bubble) = plan;
    if f is Some && f.unwrap().0 == k {
        assert(consistent_at(nodes, k));
        lemma_cc_nonneg(nodes, k, nodes[k].children@.len() as int);
        if removed > 0 && bubble is Some {
            assert(!ancestry(nodes, bubble.unwrap() as int).contains(k));
        }
    }
}

proof fn lemma_pruned_consistent_at(
    nodes: Seq<TreeNode>,
    plan: (Option<int>, Option<(int, int)>, u64, Option<usize>),
    new: Seq<TreeNode>,
    k: int,
)
    requires
        nodes_wf(nodes),
        parents_list_children(nodes),
        totals_consistent(nodes),
        nodes.len() <= usize::MAX,
        plan_facts(nodes, plan),
        new.len() == nodes.len(),
        forall|i: int| 0 <= i < nodes.len() ==> #[trigger] pruned_node(nodes, plan, i, new[i]),
        0 <= k < nodes.len(),
    ensures
        consistent_at(new, k),
{
    let (d, f, removed, bubble) = plan;
    assert(pruned_node(nodes, plan, k, new[k]));
    lemma_pruned_total(nodes, plan, k, new[k]);
    if d == Some(k) {
        assert(new[k].children@.len() == 0);
    } else {
        lemma_pruned_consistent_kept(nodes, plan, new, k);
    }
}

proof fn lemma_pruned_consistent_kept(
    nodes: Seq<TreeNode>,
    plan: (Option<int>, Option<(int, int)>, u64, Option<usize>),
    new: Seq<TreeNode>,
    k: int,
)
    requires
        nodes_wf(nodes),
        parents_list_children(nodes),
        totals_consistent(nodes),
        nodes.len() <= usize::MAX,
        plan_facts(nodes, plan),
        new.len() == nodes.len(),
        forall|i: int| 0 <= i < nodes.len() ==> #[trigger] pruned_node(nodes, plan, i, new[i]),
        0 <= k < nodes.len(),
        plan.0 != Some(k),
    ensures
        consistent_at(new, k),
{
    let (d, f, removed, bubble) = plan;
    assert(pruned_node(nodes, plan, k, new[k]));
    lemma_pruned_total(nodes, plan, k, new[k]);
    assert(new[k].children@ == nodes[k].children@);
    assert(children_ok(nodes, k));
    assert(consistent_at(nodes, k));
    let len = nodes[k].children@.len() as int;
    let active = removed > 0 && bubble is Some;
    let in_chain = active && ancestry(nodes, bubble.unwrap() as int).contains(k);
    // the one listed child whose total drops, if any
    let c0: int = if in_chain {
        let b = bubble.unwrap() as int;
        if k == b {
            match f {
                Some((j, x)) => j,
                None => d.unwrap(),
            }
        } else {
            lemma_chain_child(nodes, b, k)
        }
    } else {
        -1
    };
    assert forall|jj: int| 0 <= jj < len implies #[trigger] new[child(nodes, k, jj)].cumulative_size
        == nodes[child(nodes, k, jj)].cumulative_size - (if child(nodes, k, jj) == c0 {
        removed as int
    } else {
        0
    }) by {
        let c = child(nodes, k, jj);
        assert(nodes[k].children@[jj] == c);
        assert(0 <= c < nodes.len() && k < c && nodes[c].parent == Some(k as usize));
        assert(pruned_node(nodes, plan, c, new[c]));
        lemma_pruned_total(nodes, plan, c, new[c]);
        if active {
            let b = bubble.unwrap() as int;
            if ancestry(nodes, b).contains(c) {
                lemma_chain_parent(nodes, b, c);
                if k != b {
                    lemma_chain_unique_child(nodes, b, c, c0);
                } else {
                    lemma_ancestry_in_range(nodes, b);
                    let t = choose|t: int| 0 <= t < ancestry(nodes, b).len() && ancestry(nodes, b)[t] == c;
                }
            }
            if d == Some(c) && f is None {
                assert(bubble == nodes[c].parent);
                assert(in_chain) by {
                    lemma_ancestry_in_range(nodes, b);
                    assert(ancestry(nodes, b).last() == b) by {
                        assert(parent_ok(nodes, b));
                    }
                }
            }
            if f is Some && f.unwrap().0 == c {
                assert(bubble == nodes[c].parent);
                assert(ancestry(nodes, b).last() == b) by {
                    assert(parent_ok(nodes, b));
                }
            }
        } else {
            if d == Some(c) && f is None {
                assert(bubble == nodes[c].parent);
            }
        }
    }
    lemma_cc_change(nodes, new, k, len, c0, removed as int);
    if in_chain {
        let b = bubble.unwrap() as int;
        let cc0 = c0;
        assert(nodes[cc0].parent == Some(k as usize));
        assert(parents_list_children(nodes));
        assert(nodes[k].children@.contains(cc0 as usize));
        let w = choose|w: int| 0 <= w < len && nodes[k].children@[w] == cc0 as usize;
        assert(child(nodes, k, w) == cc0);
    }
}

/// Pruning keeps every total equal to the node's own size plus its
/// children's totals, when it held before and no listed file is larger
/// than its directory's own size.
pub proof fn lemma_prune_keeps_totals_consistent(
    nodes: Seq<TreeNode>,
    path: Seq<char>,
    parent: Option<Seq<char>>,
    name: Seq<char>,
    sep: char,
    new: Seq<TreeNode>,
)
    requires
        nodes_wf(nodes),
        parents_list_children(nodes),
        totals_consistent(nodes),
        nodes.len() <= usize::MAX,
        forall|k: int, x: int|
            0 <= k < nodes.len() && 0 <= x < nodes[k].top_files@.len() ==> #[trigger] nodes[k].top_files@[x].bytes
                <= nodes[k].size,
        new.len() == nodes.len(),
        forall|k: int|
            0 <= k < nodes.len() ==> #[trigger] pruned_node(nodes, prune_plan(nodes, path, parent, name, sep), k, new[k]),
    ensures
        totals_consistent(new),
{
    lemma_plan_facts(nodes, path, parent, name, sep);
    let plan = prune_plan(nodes, path, parent, name, sep);
    assert forall|k: int| 0 <= k < new.len() implies #[trigger] consistent_at(new, k) by {
        lemma_pruned_consistent_at(nodes, plan, new, k);
    }
}

proof fn lemma_found_directory(nodes: Seq<TreeNode>, path: Seq<char>, name: Seq<char>, i: int, sep: char)
    ensures
        find_dir_from(nodes, path, name, i, sep) matches Some(x) ==> 0 <= x < nodes.len() && nodes[x].name@
            == name && full_path_of(nodes, x, sep) == path,
    decreases nodes.len() - i,
{
    if 0 <= i < nodes.len() {
        lemma_found_directory(nodes, path, name, i + 1, sep);
    }
}

proof fn lemma_found_file_holder(
    nodes: Seq<TreeNode>,
    parent: Seq<char>,
    name: Seq<char>,
    skip: Option<int>,
    i: int,
    sep: char,
)
    ensures
        find_file_from(nodes, parent, name, skip, i, sep) matches Some(x) ==> 0 <= x < nodes.len()
            && full_path_of(nodes, x, sep) == parent && top_file_index(nodes[x].top_files@, name, 0) is Some,
    decreases nodes.len() - i,
{
    if 0 <= i < nodes.len() {
        lemma_found_file_holder(nodes, parent, name, skip, i + 1, sep);
    }
}

proof fn lemma_found_entry(files: Seq<FileEntry>, name: Seq<char>, j: int)
    ensures
        top_file_index(files, name, j) matches Some(x) ==> 0 <= x < files.len() && files[x].name@ == name,
    decreases files.len() - j,
{
    if 0 <= j < files.len() {
        lemma_found_entry(files, name, j + 1);
    }
}

/// Pruning takes entries only from the right node: a node whose top
/// files change is either the deleted directory itself (its full path
/// is the removed path and its name the removed name, and it is
/// emptied) or the directory whose full path is the parent path, which
/// loses exactly one listed file, the one named `name`, and that file's
/// bytes from its own size.
pub proof fn lemma_prune_takes_files_from_the_parent(
    nodes: Seq<TreeNode>,
    path: Seq<char>,
    parent: Option<Seq<char>>,
    name: Seq<char>,
    sep: char,
    k: int,
    new: TreeNode,
)
    requires
        0 <= k < nodes.len(),
        pruned_node(nodes, prune_plan(nodes, path, parent, name, sep), k, new),
        new.top_files@ != nodes[k].top_files@,
    ensures
        (full_path_of(nodes, k, sep) == path && nodes[k].name@ == name && new.top_files@.len() == 0) || (
        parent == Some(full_path_of(nodes, k, sep)) && exists|x: int|
            0 <= x < nodes[k].top_files@.len() && #[trigger] nodes[k].top_files@[x].name@ == name
                && new.top_files@ == nodes[k].top_files@.remove(x) && new.size == sat_sub(
                nodes[k].size,
                nodes[k].top_files@[x].bytes,
            )),
{
    let plan = prune_plan(nodes, path, parent, name, sep);
    let (d, f, removed, bubble) = plan;
    lemma_found_directory(nodes, path, name, 0, sep);
    if d == Some(k) {
    } else {
        assert(f is Some && f.unwrap().0 == k);
        let j = find_file_from(nodes, parent.unwrap(), name, d, 0, sep).unwrap();
        lemma_found_file_holder(nodes, parent.unwrap(), name, d, 0, sep);
        let x = top_file_index(nodes[j].top_files@, name, 0).unwrap();
        lemma_found_entry(nodes[j].top_files@, name, 0);
        assert(nodes[k].top_files@[x].name@ == name);
    }
}

} // verus!
