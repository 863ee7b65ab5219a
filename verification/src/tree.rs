//! Arena-based directory tree.
//!
//! Nodes store only their name and parent index; full paths are
//! reconstructed on demand by walking up the parent chain.

use vstd::prelude::*;
use vstd::string::*;
use crate::safety::is_ascii_letter;
use crate::text::{chars_of, string_from_chars};

verus! {

/// Index into the `DirTree` node arena.
pub type NodeId = usize;

/// Whether a node represents a file or a directory.
#[derive(Debug, Clone, Copy, PartialEq, Eq, Structural)]
pub enum NodeKind {
    File,
    Directory,
}

/// A top-K file entry stored on a directory node.
#[derive(Debug, Clone)]
pub struct FileEntry {
    /// File name (not the full path).
    pub name: String,
    /// Size in bytes.
    pub bytes: u64,
}

/// A single node in the directory tree.
#[derive(Debug, Clone)]
pub struct TreeNode {
    /// File or directory name (not the full path).
    pub name: String,
    /// Kind of entry.
    pub kind: NodeKind,
    /// Parent node index (`None` for the root node).
    pub parent: Option<NodeId>,
    /// Own size in bytes (file: file size, directory: total bytes of
    /// direct files, filled in by the scanner).
    pub size: u64,
    /// Cumulative size (own + descendants). Set after aggregation.
    pub cumulative_size: u64,
    /// Indices of direct children.
    pub children: Vec<NodeId>,
    /// Depth relative to scan root (root = 0).
    pub depth: u32,
    /// Top-K largest files in this directory (directory nodes only).
    pub top_files: Vec<FileEntry>,
    /// Total bytes of files not in `top_files`.
    pub other_files_bytes: u64,
    /// Count of files not in `top_files`.
    pub other_files_count: u64,
}

/// Arena-allocated directory tree built during a scan.
#[derive(Debug, Clone)]
pub struct DirTree {
    /// Flat arena of nodes (index = NodeId).
    pub nodes: Vec<TreeNode>,
}

// ── structural invariant ────────────────────────────────────────────

/// The `j`-th child of node `i`.
pub open spec fn child(nodes: Seq<TreeNode>, i: int, j: int) -> int {
    nodes[i].children@[j] as int
}

/// Node `i` has a parent with a smaller index, or no parent at all.
pub open spec fn parent_ok(nodes: Seq<TreeNode>, i: int) -> bool {
    match nodes[i].parent {
        Some(p) => p < i,
        None => true,
    }
}

/// Every node with a parent is listed among its parent's children.
pub open spec fn parents_list_children(nodes: Seq<TreeNode>) -> bool {
    forall|i: int|
        #![trigger nodes[i].parent]
        0 <= i < nodes.len() && nodes[i].parent is Some ==> nodes[nodes[i].parent.unwrap() as int].children@.contains(i as usize)
}

/// Every child of node `i` comes after `i` in the arena, names `i` as
/// its parent, and the child list is strictly increasing.
pub open spec fn children_ok(nodes: Seq<TreeNode>, i: int) -> bool {
    &&& forall|j: int|
        #![trigger nodes[i].children@[j]]
        0 <= j < nodes[i].children@.len() ==> {
            &&& i < child(nodes, i, j) < nodes.len()
            &&& nodes[child(nodes, i, j)].parent == Some(i as usize)
        }
    &&& forall|j: int, k: int|
        #![trigger nodes[i].children@[j], nodes[i].children@[k]]
        0 <= j < k < nodes[i].children@.len() ==> nodes[i].children@[j] < nodes[i].children@[k]
}

/// Every parent has a smaller index than its child.
pub open spec fn parents_precede(nodes: Seq<TreeNode>) -> bool {
    forall|i: int| 0 <= i < nodes.len() ==> #[trigger] parent_ok(nodes, i)
}

/// Every listed child has a larger index than its lister and exists.
pub open spec fn children_after(nodes: Seq<TreeNode>) -> bool {
    forall|i: int, j: int|
        #![trigger nodes[i].children@[j]]
        0 <= i < nodes.len() && 0 <= j < nodes[i].children@.len() ==> i < child(nodes, i, j) < nodes.len()
}

/// The whole arena invariant: `nodes_wf`, and every node with a parent
/// is listed among its parent's children.
pub open spec fn arena_wf(nodes: Seq<TreeNode>) -> bool {
    nodes_wf(nodes) && parents_list_children(nodes)
}

/// The arena invariant: parents precede their children, and every
/// listed child names its lister as parent. (`add_node` also keeps
/// `parents_list_children`; pruning a deleted directory empties its
/// child list and drops that property for its former children.)
pub open spec fn nodes_wf(nodes: Seq<TreeNode>) -> bool {
    forall|i: int|
        #![trigger nodes[i]]
        0 <= i < nodes.len() ==> parent_ok(nodes, i) && children_ok(nodes, i)
}


// ── paths ───────────────────────────────────────────────────────────

/// Indices on the path from the root of node `i`'s chain down to `i`
/// (root first).
pub open spec fn ancestry(nodes: Seq<TreeNode>, i: int) -> Seq<int>
    decreases i,
{
    match nodes[i].parent {
        Some(p) => if 0 <= p < i {
            ancestry(nodes, p as int).push(i)
        } else {
            seq![i]
        },
        None => seq![i],
    }
}

/// Whether a path text already ends with a separator.
pub open spec fn ends_with_separator(s: Seq<char>) -> bool {
    s.len() > 0 && (s.last() == '\\' || s.last() == '/')
}

/// Appends one component to a display name: a backslash goes between
/// them unless the text is empty or already ends with a separator.
pub open spec fn join_component(acc: Seq<char>, part: Seq<char>) -> Seq<char> {
    if acc.len() == 0 || ends_with_separator(acc) {
        acc + part
    } else {
        acc + seq!['\\'] + part
    }
}

/// Whether `c` separates path components on a platform whose main
/// separator is `sep`: `/` always does, and so does `sep` itself.
pub open spec fn is_sep_on(c: char, sep: char) -> bool {
    c == '/' || c == sep
}

/// A drive prefix such as `C:` at the start of a path text.
pub open spec fn starts_with_drive(s: Seq<char>) -> bool {
    s.len() >= 2 && is_ascii_letter(s[0]) && s[1] == ':'
}

/// A path text that carries a prefix of its own where the main
/// separator is `\`: a drive, or two leading separators (a UNC, device
/// or verbatim prefix).
pub open spec fn has_prefix_of_its_own(s: Seq<char>) -> bool {
    starts_with_drive(s) || (s.len() >= 2 && is_sep_on(s[0], '\\') && is_sep_on(s[1], '\\'))
}

/// The text of a path buffer holding `acc` after `part` is pushed onto
/// it, on a platform whose main separator is `sep` (`\\` selects the
/// Windows rules):
/// - a part with a prefix of its own (Windows), or that begins with a
///   separator, replaces the path; on Windows a drive prefix of `acc` is
///   kept in front of a part that begins with a separator;
/// - otherwise the separator goes between them, unless `acc` is empty,
///   already ends with a separator, or is a bare drive such as `C:`.
///
/// Some Windows cases follow these rules too, where std does more: a
/// path in verbatim form (`\\?\...`) is not rebuilt component by
/// component (std drops `.` and resolves `..` there, and adds no
/// separator after a bare verbatim drive), and a part that begins with
/// one separator keeps only a drive prefix in front of it, not a UNC
/// one.
pub open spec fn push_on(acc: Seq<char>, part: Seq<char>, sep: char) -> Seq<char> {
    let windows = sep == '\\';
    if windows && has_prefix_of_its_own(part) {
        part
    } else if part.len() > 0 && is_sep_on(part[0], sep) {
        if windows && starts_with_drive(acc) {
            acc.take(2) + part
        } else {
            part
        }
    } else if acc.len() > 0 && !is_sep_on(acc.last(), sep) && !(windows && acc.len() == 2
        && starts_with_drive(acc)) {
        acc + seq![sep] + part
    } else {
        acc + part
    }
}

/// The path text made of `parts`, pushed left to right onto an empty
/// path buffer.
pub open spec fn join_path(parts: Seq<Seq<char>>, sep: char) -> Seq<char>
    decreases parts.len(),
{
    if parts.len() == 0 {
        Seq::empty()
    } else {
        push_on(join_path(parts.drop_last(), sep), parts.last(), sep)
    }
}

/// The names along the ancestry of node `i`, root first.
pub open spec fn path_names(nodes: Seq<TreeNode>, i: int) -> Seq<Seq<char>> {
    ancestry(nodes, i).map_values(|j: int| nodes[j].name@)
}

/// The full path of node `i` on a platform whose main separator is
/// `sep`: the names from its root down to it, collected into a path.
pub open spec fn full_path_of(nodes: Seq<TreeNode>, i: int, sep: char) -> Seq<char> {
    join_path(path_names(nodes, i), sep)
}

// ── aggregation ─────────────────────────────────────────────────────

/// Own size of node `i` plus the sizes of everything below it.
pub open spec fn subtree_size(nodes: Seq<TreeNode>, i: int) -> int
    decreases nodes.len() - i, nodes[i].children@.len() + 1,
{
    if 0 <= i < nodes.len() {
        nodes[i].size + children_size(nodes, i, nodes[i].children@.len() as int)
    } else {
        0
    }
}

/// Sum of `subtree_size` over the first `k` children of node `i`.
pub open spec fn children_size(nodes: Seq<TreeNode>, i: int, k: int) -> int
    decreases nodes.len() - i, k,
{
    if k <= 0 || !(0 <= i < nodes.len()) {
        0
    } else {
        let c = child(nodes, i, k - 1);
        children_size(nodes, i, k - 1) + (if i < c < nodes.len() {
            subtree_size(nodes, c)
        } else {
            0
        })
    }
}

/// Sum of the `cumulative_size` fields of the first `k` children of
/// node `i`.
pub open spec fn children_cumulative(nodes: Seq<TreeNode>, i: int, k: int) -> int
    decreases k,
{
    if k <= 0 {
        0
    } else {
        children_cumulative(nodes, i, k - 1) + nodes[child(nodes, i, k - 1)].cumulative_size
    }
}

/// Node `n` with its cumulative size replaced by `c`.
pub open spec fn with_cumulative(n: TreeNode, c: u64) -> TreeNode {
    TreeNode { cumulative_size: c, ..n }
}

/// Every subtree total fits in a `u64`.
pub open spec fn totals_fit(nodes: Seq<TreeNode>) -> bool {
    forall|i: int| 0 <= i < nodes.len() ==> #[trigger] subtree_size(nodes, i) <= u64::MAX
}

/// The arena after aggregation: every node's cumulative size is the
/// total of its subtree.
pub open spec fn aggregated(nodes: Seq<TreeNode>) -> Seq<TreeNode> {
    Seq::new(nodes.len(), |j: int| with_cumulative(nodes[j], subtree_size(nodes, j) as u64))
}

proof fn lemma_subtree_nonneg(nodes: Seq<TreeNode>, i: int)
    ensures
        subtree_size(nodes, i) >= 0,
        forall|k: int| children_size(nodes, i, k) >= 0,
    decreases nodes.len() - i,
{
    assert forall|k: int| children_size(nodes, i, k) >= 0 by {
        lemma_children_nonneg(nodes, i, k);
    }
    if 0 <= i < nodes.len() {
        lemma_children_nonneg(nodes, i, nodes[i].children@.len() as int);
    }
}

proof fn lemma_children_nonneg(nodes: Seq<TreeNode>, i: int, k: int)
    ensures
        children_size(nodes, i, k) >= 0,
    decreases nodes.len() - i, k,
{
    if k <= 0 || !(0 <= i < nodes.len()) {
    } else {
        lemma_children_nonneg(nodes, i, k - 1);
        let c = child(nodes, i, k - 1);
        if i < c < nodes.len() {
            lemma_subtree_nonneg(nodes, c);
        }
    }
}

/// `children_size` grows with the number of children counted.
proof fn lemma_children_mono(nodes: Seq<TreeNode>, i: int, k1: int, k2: int)
    requires
        k1 <= k2,
    ensures
        children_size(nodes, i, k1) <= children_size(nodes, i, k2),
    decreases k2 - k1,
{
    if k1 < k2 {
        lemma_children_mono(nodes, i, k1, k2 - 1);
        if k2 > 0 && 0 <= i < nodes.len() {
            let c = child(nodes, i, k2 - 1);
            if i < c < nodes.len() {
                lemma_subtree_nonneg(nodes, c);
            }
        }
    }
}

/// Subtree totals depend only on the sizes and child lists.
proof fn lemma_subtree_frame(a: Seq<TreeNode>, b: Seq<TreeNode>, i: int)
    requires
        a.len() == b.len(),
        forall|j: int|
            #![trigger a[j]]
            0 <= j < a.len() ==> a[j].size == b[j].size && a[j].children@ == b[j].children@,
    ensures
        subtree_size(a, i) == subtree_size(b, i),
        forall|k: int| children_size(a, i, k) == children_size(b, i, k),
    decreases a.len() - i,
{
    assert forall|k: int| children_size(a, i, k) == children_size(b, i, k) by {
        lemma_children_frame(a, b, i, k);
    }
    if 0 <= i < a.len() {
        assert(a[i].children@ == b[i].children@);
        lemma_children_frame(a, b, i, a[i].children@.len() as int);
    }
}

proof fn lemma_children_frame(a: Seq<TreeNode>, b: Seq<TreeNode>, i: int, k: int)
    requires
        a.len() == b.len(),
        forall|j: int|
            #![trigger a[j]]
            0 <= j < a.len() ==> a[j].size == b[j].size && a[j].children@ == b[j].children@,
    ensures
        children_size(a, i, k) == children_size(b, i, k),
    decreases a.len() - i, k,
{
    if k <= 0 || !(0 <= i < a.len()) {
    } else {
        lemma_children_frame(a, b, i, k - 1);
        let c = child(a, i, k - 1);
        assert(a[i].children@ == b[i].children@);
        if i < c < a.len() {
            lemma_subtree_frame(a, b, c);
        }
    }
}

impl DirTree {
    /// The arena invariant of this tree.
    pub open spec fn wf(&self) -> bool {
        nodes_wf(self.nodes@)
    }

    /// Create an empty tree.
    pub fn new() -> (t: Self)
        ensures
            t.nodes@.len() == 0,
            t.wf(),
    {
        DirTree { nodes: Vec::new() }
    }

    /// Add a node and return its `NodeId`.
    ///
    /// The node gets the next free index; when it has a parent, the
    /// new index is appended to the parent's child list.
    pub fn add_node(
        &mut self,
        name: String,
        kind: NodeKind,
        parent: Option<NodeId>,
        size: u64,
        depth: u32,
    ) -> (id: NodeId)
        requires
            old(self).nodes@.len() < usize::MAX,
            parent matches Some(p) ==> p <= old(self).nodes@.len(),
        ensures
            id == old(self).nodes@.len(),
            final(self).nodes@.len() == old(self).nodes@.len() + 1,
            final(self).nodes@[id as int].name@ == name@,
            final(self).nodes@[id as int].kind == kind,
            final(self).nodes@[id as int].parent == parent,
            final(self).nodes@[id as int].size == size,
            final(self).nodes@[id as int].cumulative_size == 0,
            final(self).nodes@[id as int].depth == depth,
            final(self).nodes@[id as int].top_files@.len() == 0,
            final(self).nodes@[id as int].other_files_bytes == 0,
            final(self).nodes@[id as int].other_files_count == 0,
            parent == Some(id) ==> final(self).nodes@[id as int].children@ == seq![id],
            parent != Some(id) ==> final(self).nodes@[id as int].children@.len() == 0,
            forall|i: int|
                0 <= i < old(self).nodes@.len() && parent != Some(i as usize) ==> final(self).nodes@[i]
                    == old(self).nodes@[i],
            parent is Some && parent.unwrap() < id ==> {
                let q = parent.unwrap() as int;
                &&& final(self).nodes@[q].children@ == old(self).nodes@[q].children@.push(id)
                &&& final(self).nodes@[q].name == old(self).nodes@[q].name
                &&& final(self).nodes@[q].kind == old(self).nodes@[q].kind
                &&& final(self).nodes@[q].parent == old(self).nodes@[q].parent
                &&& final(self).nodes@[q].size == old(self).nodes@[q].size
                &&& final(self).nodes@[q].cumulative_size == old(self).nodes@[q].cumulative_size
                &&& final(self).nodes@[q].depth == old(self).nodes@[q].depth
                &&& final(self).nodes@[q].top_files == old(self).nodes@[q].top_files
                &&& final(self).nodes@[q].other_files_bytes
                    == old(self).nodes@[q].other_files_bytes
                &&& final(self).nodes@[q].other_files_count
                    == old(self).nodes@[q].other_files_count
            },
            old(self).wf() && (parent matches Some(p) ==> p < id) ==> final(self).wf(),
            old(self).wf() && parents_list_children(old(self).nodes@) && (parent matches Some(p)
                ==> p < id) ==> parents_list_children(final(self).nodes@),
            arena_wf(old(self).nodes@) && (parent matches Some(p) ==> p < id) ==> arena_wf(final(self).nodes@),
    {
        let id = self.nodes.len();
        self.nodes.push(
            TreeNode {
                name,
                kind,
                parent,
                size,
                cumulative_size: 0,
                children: Vec::new(),
                depth,
                top_files: Vec::new(),
                other_files_bytes: 0,
                other_files_count: 0,
            },
        );
        // Register this node as a child of its parent.
        if let Some(pid) = parent {
            self.nodes[pid].children.push(id);
        }
        proof {
            if old(self).wf() && (parent matches Some(p) ==> p < id) {
                let nodes = self.nodes@;
                assert forall|i: int| #![trigger nodes[i]] 0 <= i < nodes.len() implies parent_ok(
                    nodes,
                    i,
                ) && children_ok(nodes, i) by {
                    if i < id {
                        assert(parent_ok(old(self).nodes@, i));
                        assert(children_ok(old(self).nodes@, i));
                    } else {
                        if let Some(p) = parent {
                            assert(nodes[p as int].children@.last() == id);
                        }
                    }
                }
                if parents_list_children(old(self).nodes@) {
                    assert forall|i: int|
                        #![trigger nodes[i].parent]
                        0 <= i < nodes.len() && nodes[i].parent is Some implies nodes[nodes[i].parent.unwrap() as int].children@.contains(
                        i as usize,
                    ) by {
                        let p = nodes[i].parent.unwrap();
                        if i < id {
                            assert(old(self).nodes@[i].parent == Some(p));
                            let w = old(self).nodes@[p as int].children@.index_of(i as usize);
                            assert(nodes[p as int].children@[w] == i as usize);
                        } else {
                            assert(nodes[p as int].children@.last() == id);
                        }
                    }
                }
            }
        }
        id
    }

    /// Reconstruct the full path for a node by walking up the parent
    /// chain and collecting the names, root first, into a path, on the
    /// platform this runs on.
    pub fn full_path(&self, id: NodeId) -> (p: String)
        requires
            parents_precede(self.nodes@),
            id < self.nodes@.len(),
        ensures
            exists|sep: char|
                (sep == '/' || sep == '\\') && p@ == #[trigger] full_path_of(self.nodes@, id as int, sep),
    {
        let sep = main_separator();
        self.full_path_with(id, sep)
    }

    /// The full path of a node on a platform whose main separator is
    /// `sep`: the names from its root down to it, each pushed onto the
    /// path as a path buffer does there.
    pub fn full_path_with(&self, id: NodeId, sep: char) -> (p: String)
        requires
            parents_precede(self.nodes@),
            id < self.nodes@.len(),
        ensures
            p@ == full_path_of(self.nodes@, id as int, sep),
    {
        let ghost nodes = self.nodes@;
        // Collect the chain from `id` up to its root.
        let mut chain: Vec<usize> = Vec::new();
        let mut cur = id;
        loop
            invariant_except_break
                ancestry(nodes, id as int) == ancestry(nodes, cur as int) + chain@.map_values(
                    |j: usize| j as int,
                ).reverse(),
            invariant
                parents_precede(self.nodes@),
                nodes == self.nodes@,
                cur < nodes.len(),
                forall|m: int| 0 <= m < chain@.len() ==> #[trigger] chain@[m] < nodes.len(),
            ensures
                ancestry(nodes, id as int) == chain@.map_values(|j: usize| j as int).reverse(),
                forall|m: int| 0 <= m < chain@.len() ==> #[trigger] chain@[m] < nodes.len(),
            decreases cur,
        {
            assert(parent_ok(nodes, cur as int));
            let ghost old_chain = chain@;
            chain.push(cur);
            let ghost rc = chain@.map_values(|j: usize| j as int).reverse();
            let ghost orc = old_chain.map_values(|j: usize| j as int).reverse();
            assert(rc =~= seq![cur as int] + orc);
            match self.nodes[cur].parent {
                Some(pid) => {
                    assert(ancestry(nodes, cur as int) == ancestry(nodes, pid as int).push(
                        cur as int,
                    ));
                    assert(ancestry(nodes, pid as int).push(cur as int) + orc =~= ancestry(
                        nodes,
                        pid as int,
                    ) + rc);
                    cur = pid;
                },
                None => {
                    assert(ancestry(nodes, cur as int) == seq![cur as int]);
                    break ;
                },
            }
        }
        let ghost anc = ancestry(nodes, id as int);
        let ghost parts = path_names(nodes, id as int);
        let mut out: Vec<char> = Vec::new();
        let mut k = chain.len();
        while k > 0
            invariant
                parents_precede(self.nodes@),
                nodes == self.nodes@,
                k <= chain@.len(),
                anc == chain@.map_values(|j: usize| j as int).reverse(),
                parts == anc.map_values(|j: int| nodes[j].name@),
                forall|m: int| 0 <= m < chain@.len() ==> #[trigger] chain@[m] < nodes.len(),
                out@ == join_path(parts.take(chain@.len() - k), sep),
            decreases k,
        {
            let ghost done = (chain@.len() - k) as int;
            k = k - 1;
            let node_id = chain[k];
            assert(anc[done] == node_id as int);
            let name = chars_of(self.nodes[node_id].name.as_str());
            push_component(&mut out, &name, sep);
            assert(parts.take(done + 1).drop_last() =~= parts.take(done));
            assert(parts.take(done + 1).last() == nodes[node_id as int].name@);
        }
        assert(parts.take(chain@.len() as int) =~= parts);
        string_from_chars(out.as_slice())
    }


    /// Whether every subtree total fits in a `u64`, so that
    /// `compute_cumulative_sizes` cannot overflow.
    pub fn totals_fit_check(&self) -> (b: bool)
        requires
            children_after(self.nodes@),
        ensures
            b == totals_fit(self.nodes@),
    {
        let ghost nodes = self.nodes@;
        let n = self.nodes.len();
        let mut tot: Vec<u64> = Vec::new();
        let mut z: usize = 0;
        while z < n
            invariant
                z <= n,
                tot@.len() == z,
            decreases n - z,
        {
            tot.push(0);
            z = z + 1;
        }
        let mut i = n;
        while i > 0
            invariant
                nodes == self.nodes@,
                children_after(nodes),
                n == nodes.len(),
                i <= n,
                tot@.len() == n,
                forall|j: int| i <= j < n ==> #[trigger] tot@[j] == subtree_size(nodes, j),
            decreases i,
        {
            i = i - 1;
            let own = self.nodes[i].size;
            let nch = self.nodes[i].children.len();
            let mut sum: u64 = 0;
            let mut k: usize = 0;
            while k < nch
                invariant
                    nodes == self.nodes@,
                    children_after(nodes),
                    n == nodes.len(),
                    i < n,
                    tot@.len() == n,
                    forall|j: int| i < j < n ==> #[trigger] tot@[j] == subtree_size(nodes, j),
                    nch == nodes[i as int].children@.len(),
                    k <= nch,
                    sum == children_size(nodes, i as int, k as int),
                    own == nodes[i as int].size,
                decreases nch - k,
            {
                let cid = self.nodes[i].children[k];
                assert(nodes[i as int].children@[k as int] == cid);
                let c = tot[cid];
                if c > u64::MAX - sum {
                    proof {
                        lemma_children_mono(nodes, i as int, k as int + 1, nch as int);
                        assert(subtree_size(nodes, i as int) > u64::MAX);
                        assert(!totals_fit(nodes));
                    }
                    return false;
                }
                sum = sum + c;
                k = k + 1;
            }
            if sum > u64::MAX - own {
                proof {
                    assert(subtree_size(nodes, i as int) > u64::MAX);
                    assert(!totals_fit(nodes));
                }
                return false;
            }
            tot[i] = own + sum;
        }
        assert forall|j: int| 0 <= j < n implies #[trigger] subtree_size(nodes, j) <= u64::MAX by {
            assert(tot@[j] == subtree_size(nodes, j));
        }
        true
    }

    /// Whether the arena invariant holds (every parent precedes its
    /// children, and every child list is increasing and names nodes
    /// that point back to the lister).
    pub fn is_well_formed(&self) -> (b: bool)
        ensures
            b == self.wf(),
    {
        let ghost nodes = self.nodes@;
        let n = self.nodes.len();
        let mut i: usize = 0;
        while i < n
            invariant
                nodes == self.nodes@,
                n == nodes.len(),
                i <= n,
                forall|k: int| 0 <= k < i ==> parent_ok(nodes, k) && children_ok(nodes, k),
            decreases n - i,
        {
            match self.nodes[i].parent {
                Some(p) => {
                    if p >= i {
                        assert(!parent_ok(nodes, i as int));
                        assert(!nodes_wf(nodes)) by {
                            assert(nodes[i as int] == nodes[i as int]);
                        }
                        return false;
                    }
                },
                None => {},
            }
            let ghost ch = nodes[i as int].children@;
            let mut j: usize = 0;
            while j < self.nodes[i].children.len()
                invariant
                    nodes == self.nodes@,
                    n == nodes.len(),
                    i < n,
                    ch == nodes[i as int].children@,
                    j <= ch.len(),
                    forall|q: int|
                        #![trigger ch[q]]
                        0 <= q < j ==> i < ch[q] < n && nodes[ch[q] as int].parent == Some(i),
                    forall|a: int, b: int| #![trigger ch[a], ch[b]] 0 <= a < b < j ==> ch[a] < ch[b],
                decreases ch.len() - j,
            {
                let c = self.nodes[i].children[j];
                let bad_range = !(i < c && c < n);
                if bad_range {
                    assert(!children_ok(nodes, i as int)) by {
                        assert(nodes[i as int].children@[j as int] == c);
                    }
                    assert(!nodes_wf(nodes)) by {
                        assert(nodes[i as int] == nodes[i as int]);
                    }
                    return false;
                }
                let back = match self.nodes[c].parent {
                    Some(p) => p == i,
                    None => false,
                };
                if !back {
                    assert(!children_ok(nodes, i as int)) by {
                        assert(nodes[i as int].children@[j as int] == c);
                    }
                    assert(!nodes_wf(nodes)) by {
                        assert(nodes[i as int] == nodes[i as int]);
                    }
                    return false;
                }
                if j > 0 && self.nodes[i].children[j - 1] >= c {
                    assert(!children_ok(nodes, i as int)) by {
                        assert(nodes[i as int].children@[j - 1] == ch[j - 1]);
                        assert(nodes[i as int].children@[j as int] == c);
                    }
                    assert(!nodes_wf(nodes)) by {
                        assert(nodes[i as int] == nodes[i as int]);
                    }
                    return false;
                }
                proof {
                    assert forall|a: int, b: int| #![trigger ch[a], ch[b]] 0 <= a < b < j + 1 implies ch[a] < ch[b] by {
                        if b == j && a < j - 1 {
                            assert(ch[a] < ch[j - 1]);
                        }
                    }
                }
                j = j + 1;
            }
            proof {
                assert(children_ok(nodes, i as int));
            }
            i = i + 1;
        }
        true
    }

    /// Bottom-up pass: compute `cumulative_size` for every node.
    ///
    /// Must be called after the tree is fully built. Iterates nodes in
    /// reverse arena order (children are always added after parents),
    /// so every node's total is its own size plus the totals of its
    /// children.
    pub fn compute_cumulative_sizes(&mut self)
        requires
            children_after(old(self).nodes@),
            totals_fit(old(self).nodes@),
        ensures
            final(self).nodes@ == aggregated(old(self).nodes@),
    {
        let ghost orig = self.nodes@;
        let n = self.nodes.len();
        let mut i = n;
        while i > 0
            invariant
                children_after(orig),
                totals_fit(orig),
                n == orig.len(),
                i <= n,
                self.nodes@.len() == n,
                forall|j: int|
                    0 <= j < n ==> #[trigger] self.nodes@[j] == (if j >= i {
                        with_cumulative(orig[j], subtree_size(orig, j) as u64)
                    } else {
                        orig[j]
                    }),
            decreases i,
        {
            i = i - 1;
                        assert(self.nodes@[i as int] == orig[i as int]);
            let own = self.nodes[i].size;
            let nch = self.nodes[i].children.len();
            let mut sum: u64 = 0;
            let mut k: usize = 0;
            proof {
                assert(subtree_size(orig, i as int) <= u64::MAX);
            }
            while k < nch
                invariant
                    children_after(orig),
                    totals_fit(orig),
                    n == orig.len(),
                    i < n,
                    self.nodes@.len() == n,
                    nch == orig[i as int].children@.len(),
                    k <= nch,
                    self.nodes@[i as int] == orig[i as int],
                    forall|j: int|
                        0 <= j < n ==> #[trigger] self.nodes@[j] == (if j > i {
                            with_cumulative(orig[j], subtree_size(orig, j) as u64)
                        } else {
                            orig[j]
                        }),
                    sum == children_size(orig, i as int, k as int),
                    own == orig[i as int].size,
                    subtree_size(orig, i as int) == own + children_size(orig, i as int, nch as int),
                decreases nch - k,
            {
                let cid = self.nodes[i].children[k];
                                assert(orig[i as int].children@[k as int] == cid);
                assert(i < cid < n);
                proof {
                    lemma_subtree_nonneg(orig, cid as int);
                    lemma_children_mono(orig, i as int, k as int + 1, nch as int);
                    assert(subtree_size(orig, cid as int) <= u64::MAX);
                }
                sum = sum + self.nodes[cid].cumulative_size;
                k = k + 1;
            }
            proof {
                lemma_subtree_nonneg(orig, i as int);
            }
            self.nodes[i].cumulative_size = own + sum;
        }
        assert(self.nodes@ =~= aggregated(orig));
    }
}

impl Default for DirTree {
    /// An empty tree, as `new` makes.
    fn default() -> (t: Self)
        ensures
            t.nodes@.len() == 0,
            t.wf(),
    {
        Self::new()
    }
}

// ── laws ────────────────────────────────────────────────────────────

proof fn lemma_children_cumulative_agree(nodes: Seq<TreeNode>, i: int, k: int)
    requires
        nodes_wf(nodes),
        totals_fit(nodes),
        0 <= i < nodes.len(),
        0 <= k <= nodes[i].children@.len(),
    ensures
        children_size(nodes, i, k) == children_cumulative(aggregated(nodes), i, k),
    decreases k,
{
    if k > 0 {
        lemma_children_cumulative_agree(nodes, i, k - 1);
        assert(children_ok(nodes, i));
        let c = child(nodes, i, k - 1);
        assert(nodes[i].children@[k - 1] == c);
        assert(i < c < nodes.len());
        assert(aggregated(nodes)[i].children@ == nodes[i].children@);
        assert(child(aggregated(nodes), i, k - 1) == c);
        lemma_subtree_nonneg(nodes, c);
        assert(subtree_size(nodes, c) <= u64::MAX);
        assert(aggregated(nodes)[c].cumulative_size == subtree_size(nodes, c));
    }
}

/// After aggregation, the cumulative size of every node is its own
/// size plus the cumulative sizes of its children.
pub proof fn lemma_cumulative_is_own_plus_children(nodes: Seq<TreeNode>, i: int)
    requires
        nodes_wf(nodes),
        totals_fit(nodes),
        0 <= i < nodes.len(),
    ensures
        aggregated(nodes)[i].cumulative_size == nodes[i].size + children_cumulative(
            aggregated(nodes),
            i,
            nodes[i].children@.len() as int,
        ),
{
    lemma_children_cumulative_agree(nodes, i, nodes[i].children@.len() as int);
    lemma_subtree_nonneg(nodes, i);
    assert(subtree_size(nodes, i) <= u64::MAX);
}

/// The main separator of path components on the platform this runs
/// on: `std::path::MAIN_SEPARATOR`, which std documents as `/` on Unix
/// and `\\` on Windows. Which of the two it is stays unstated.
#[verifier::external_body]
pub(crate) fn main_separator() -> (c: char)
    ensures
        c == '/' || c == '\\',
{
    std::path::MAIN_SEPARATOR
}

fn letter(c: char) -> (b: bool)
    ensures
        b == is_ascii_letter(c),
{
    ('a' <= c && c <= 'z') || ('A' <= c && c <= 'Z')
}

/// Pushes the component `part` onto the path text `out` as a path buffer
/// does on a platform whose main separator is `sep`.
pub fn push_component(out: &mut Vec<char>, part: &Vec<char>, sep: char)
    ensures
        final(out)@ == push_on(old(out)@, part@, sep),
{
    let windows = sep == '\\';
    let part_drive = part.len() >= 2 && letter(part[0]) && part[1] == ':';
    let part_unc = part.len() >= 2 && (part[0] == '/' || part[0] == '\\') && (part[1] == '/'
        || part[1] == '\\');
    let out_drive = out.len() >= 2 && letter(out[0]) && out[1] == ':';
    if windows && (part_drive || part_unc) {
        out.clear();
    } else if part.len() > 0 && (part[0] == '/' || part[0] == sep) {
        if windows && out_drive {
            out.truncate(2);
        } else {
            out.clear();
        }
    } else if out.len() > 0 && !(out[out.len() - 1] == '/' || out[out.len() - 1] == sep) && !(
    windows && out.len() == 2 && out_drive) {
        out.push(sep);
    }
    let ghost before = out@;
    let mut t: usize = 0;
    while t < part.len()
        invariant
            t <= part@.len(),
            out@ == before + part@.take(t as int),
        decreases part.len() - t,
    {
        out.push(part[t]);
        t = t + 1;
        assert(out@ =~= before + part@.take(t as int));
    }
    assert(part@.take(part@.len() as int) =~= part@);
    assert(out@ == push_on(old(out)@, part@, sep));
}

/// In a well-formed arena (as `add_node` keeps it), a node names `i` as
/// its parent exactly when `i` lists it, `i` lists it at most once, and
/// a parent comes before its child.
pub proof fn lemma_arena_links(nodes: Seq<TreeNode>, i: int, c: int)
    requires
        arena_wf(nodes),
        nodes.len() <= usize::MAX,
        0 <= i < nodes.len(),
        0 <= c < nodes.len(),
    ensures
        nodes[c].parent == Some(i as usize) <==> nodes[i].children@.contains(c as usize),
        nodes[i].children@.no_duplicates(),
        nodes[c].parent == Some(i as usize) ==> i < c,
{
    assert(parent_ok(nodes, c));
    assert(children_ok(nodes, i));
    if nodes[i].children@.contains(c as usize) {
        let w = nodes[i].children@.index_of(c as usize);
        assert(nodes[i].children@[w] == c as usize);
    }
    if nodes[c].parent == Some(i as usize) {
        assert(nodes[c].parent is Some);
        assert(nodes[nodes[c].parent.unwrap() as int].children@.contains(c as usize));
    }
    let ch = nodes[i].children@;
    assert forall|a: int, b: int| 0 <= a < b < ch.len() implies ch[a] != ch[b] by {
        assert(ch[a] < ch[b]);
    }
}

/// The full path of a root is its name; the full path of any other
/// node is its parent's full path joined with its name.
pub proof fn lemma_full_path_steps(nodes: Seq<TreeNode>, i: int, sep: char)
    requires
        nodes_wf(nodes),
        0 <= i < nodes.len(),
    ensures
        nodes[i].parent is None ==> full_path_of(nodes, i, sep) == nodes[i].name@,
        nodes[i].parent matches Some(p) ==> full_path_of(nodes, i, sep) == push_on(
            full_path_of(nodes, p as int, sep),
            nodes[i].name@,
            sep,
        ),
{
    assert(parent_ok(nodes, i));
    match nodes[i].parent {
        Some(p) => {
            let a = ancestry(nodes, p as int);
            assert(ancestry(nodes, i) == a.push(i));
            let names = path_names(nodes, i);
            assert(names.drop_last() =~= path_names(nodes, p as int));
            assert(names.last() == nodes[i].name@);
        },
        None => {
            assert(ancestry(nodes, i) == seq![i]);
            let names = path_names(nodes, i);
            assert(names.drop_last() =~= Seq::<Seq<char>>::empty());
            assert(join_path(names.drop_last(), sep) == Seq::<char>::empty());
            assert(Seq::<char>::empty() + nodes[i].name@ =~= nodes[i].name@);
        },
    }
}

/// Every node but the first hangs below the first: the first node is
/// the only one without a parent, and every parent lists its children.
pub open spec fn rooted_at_first(nodes: Seq<TreeNode>) -> bool {
    &&& nodes.len() > 0
    &&& nodes[0].parent is None
    &&& forall|i: int| 0 < i < nodes.len() ==> #[trigger] nodes[i].parent is Some
    &&& parents_list_children(nodes)
}

/// Sum of the own sizes of the first `m` nodes.
pub open spec fn own_sizes(nodes: Seq<TreeNode>, m: int) -> int
    decreases m,
{
    if m <= 0 {
        0
    } else {
        own_sizes(nodes, m - 1) + nodes[m - 1].size
    }
}

/// Own sizes counted up to `m` depend only on those nodes' sizes.
pub(crate) proof fn lemma_own_sizes_frame(a: Seq<TreeNode>, b: Seq<TreeNode>, m: int)
    requires
        0 <= m <= a.len(),
        m <= b.len(),
        forall|i: int| 0 <= i < m ==> #[trigger] a[i].size == b[i].size,
    ensures
        own_sizes(a, m) == own_sizes(b, m),
    decreases m,
{
    if m > 0 {
        lemma_own_sizes_frame(a, b, m - 1);
    }
}

/// Changing the size of node `j` changes the sum by the difference.
pub(crate) proof fn lemma_own_sizes_change(a: Seq<TreeNode>, b: Seq<TreeNode>, j: int, m: int)
    requires
        0 <= j < m <= a.len(),
        m <= b.len(),
        forall|i: int| 0 <= i < m && i != j ==> #[trigger] a[i].size == b[i].size,
    ensures
        own_sizes(b, m) == own_sizes(a, m) - a[j].size + b[j].size,
    decreases m,
{
    if m - 1 == j {
        lemma_own_sizes_frame(a, b, m - 1);
    } else {
        lemma_own_sizes_change(a, b, j, m - 1);
    }
}

/// Sum of the subtree totals of those among the first `k` children of
/// node `i` whose index is at least `a`.
spec fn children_from(nodes: Seq<TreeNode>, i: int, a: int, k: int) -> int
    decreases k,
{
    if k <= 0 {
        0
    } else {
        let c = child(nodes, i, k - 1);
        children_from(nodes, i, a, k - 1) + (if c >= a {
            subtree_size(nodes, c)
        } else {
            0
        })
    }
}

/// Sum of `children_from` (all children, threshold `a`) over the first
/// `m` nodes: the totals still to be expanded.
spec fn frontier(nodes: Seq<TreeNode>, a: int, m: int) -> int
    decreases m,
{
    if m <= 0 {
        0
    } else {
        frontier(nodes, a, m - 1) + children_from(nodes, m - 1, a, nodes[m - 1].children@.len() as int)
    }
}

proof fn lemma_children_from_step(nodes: Seq<TreeNode>, i: int, a: int, k: int)
    requires
        nodes_wf(nodes),
        0 <= i < nodes.len(),
        0 <= a <= usize::MAX,
        0 <= k <= nodes[i].children@.len(),
    ensures
        children_from(nodes, i, a, k) - children_from(nodes, i, a + 1, k) == (if nodes[i].children@.take(
            k,
        ).contains(a as usize) {
            subtree_size(nodes, a)
        } else {
            0
        }),
    decreases k,
{
    assert(children_ok(nodes, i));
    let ch = nodes[i].children@;
    if k > 0 {
        lemma_children_from_step(nodes, i, a, k - 1);
        let c = ch[k - 1];
        assert(child(nodes, i, k - 1) == c as int);
        assert(ch.take(k) =~= ch.take(k - 1).push(c));
        let prev = ch.take(k - 1).contains(a as usize);
        if prev {
            let j = choose|j: int| 0 <= j < k - 1 && #[trigger] ch.take(k - 1)[j] == a as usize;
            assert(ch[j] == ch.take(k - 1)[j]);
            assert(ch[j] < ch[k - 1]);
            assert(c != a);
            assert(ch.take(k).contains(a as usize)) by {
                assert(ch.take(k)[j] == a as usize);
            }
        } else {
            if c == a {
                assert(ch.take(k)[k - 1] == a as usize);
                assert(ch.take(k).contains(a as usize));
            } else {
                assert(!ch.take(k).contains(a as usize)) by {
                    if ch.take(k).contains(a as usize) {
                        let j = choose|j: int| 0 <= j < k && #[trigger] ch.take(k)[j] == a as usize;
                        if j < k - 1 {
                            assert(ch.take(k - 1)[j] == a as usize);
                        }
                    }
                }
            }
        }
    } else {
        assert(!ch.take(0).contains(a as usize));
    }
}

proof fn lemma_children_from_all(nodes: Seq<TreeNode>, i: int, a: int, k: int)
    requires
        nodes_wf(nodes),
        0 <= i < nodes.len(),
        0 <= k <= nodes[i].children@.len(),
        a <= i + 1,
    ensures
        children_from(nodes, i, a, k) == children_size(nodes, i, k),
    decreases k,
{
    assert(children_ok(nodes, i));
    if k > 0 {
        lemma_children_from_all(nodes, i, a, k - 1);
        assert(nodes[i].children@[k - 1] == child(nodes, i, k - 1));
    }
}

proof fn lemma_children_from_none(nodes: Seq<TreeNode>, i: int, k: int)
    requires
        nodes_wf(nodes),
        0 <= i < nodes.len(),
        0 <= k <= nodes[i].children@.len(),
    ensures
        children_from(nodes, i, nodes.len() as int, k) == 0,
    decreases k,
{
    assert(children_ok(nodes, i));
    if k > 0 {
        lemma_children_from_none(nodes, i, k - 1);
        assert(nodes[i].children@[k - 1] == child(nodes, i, k - 1));
    }
}

proof fn lemma_frontier_none(nodes: Seq<TreeNode>, m: int)
    requires
        nodes_wf(nodes),
        0 <= m <= nodes.len(),
    ensures
        frontier(nodes, nodes.len() as int, m) == 0,
    decreases m,
{
    if m > 0 {
        lemma_frontier_none(nodes, m - 1);
        lemma_children_from_none(nodes, m - 1, nodes[m - 1].children@.len() as int);
    }
}

/// Moving the threshold past node `a` removes its total once, from
/// its parent, when the parent is among the first `m` nodes.
proof fn lemma_frontier_step(nodes: Seq<TreeNode>, a: int, m: int)
    requires
        nodes_wf(nodes),
        parents_list_children(nodes),
        0 <= a < nodes.len(),
        nodes.len() <= usize::MAX,
        0 <= m <= nodes.len(),
    ensures
        frontier(nodes, a, m) - frontier(nodes, a + 1, m) == (if nodes[a].parent is Some
            && nodes[a].parent.unwrap() < m {
            subtree_size(nodes, a)
        } else {
            0
        }),
    decreases m,
{
    if m > 0 {
        let i = m - 1;
        lemma_frontier_step(nodes, a, m - 1);
        let len = nodes[i].children@.len() as int;
        lemma_children_from_step(nodes, i, a, len);
        assert(nodes[i].children@.take(len) =~= nodes[i].children@);
        assert(children_ok(nodes, i));
        if nodes[i].children@.contains(a as usize) {
            let j = choose|j: int| 0 <= j < len && #[trigger] nodes[i].children@[j] == a as usize;
            assert(nodes[child(nodes, i, j)].parent == Some(i as usize));
        }
        if nodes[a].parent == Some(i as usize) {
            assert(nodes[a].parent is Some);
        }
    }
}

proof fn lemma_frontier_invariant(nodes: Seq<TreeNode>, a: int)
    requires
        nodes_wf(nodes),
        rooted_at_first(nodes),
        nodes.len() <= usize::MAX,
        1 <= a <= nodes.len(),
    ensures
        own_sizes(nodes, a) + frontier(nodes, a, a) == subtree_size(nodes, 0),
    decreases a,
{
    if a == 1 {
        let len = nodes[0].children@.len() as int;
        lemma_children_from_all(nodes, 0, 1, len);
        assert(frontier(nodes, 1, 0) == 0);
        assert(own_sizes(nodes, 0) == 0);
        assert(own_sizes(nodes, 1) == nodes[0].size);
        assert(frontier(nodes, 1, 1) == children_from(nodes, 0, 1, len));
        assert(subtree_size(nodes, 0) == nodes[0].size + children_size(nodes, 0, len));
    } else {
        let b = a - 1;
        lemma_frontier_invariant(nodes, b);
        // own(a) + frontier(a, a)
        //   = own(b) + size(b) + frontier(a, b) + children_from(b, a, all)
        //   = own(b) + size(b) + frontier(b, b) - subtree(b) + children_size(b)
        //   = own(b) + frontier(b, b)
        assert(nodes[b].parent is Some);
        assert(parent_ok(nodes, b));
        lemma_frontier_step(nodes, b, b);
        let len = nodes[b].children@.len() as int;
        lemma_children_from_all(nodes, b, a, len);
        assert(own_sizes(nodes, a) == own_sizes(nodes, b) + nodes[b].size);
        assert(frontier(nodes, a, a) == frontier(nodes, a, b) + children_from(nodes, b, a, len));
        assert(subtree_size(nodes, b) == nodes[b].size + children_size(nodes, b, len));
    }
}

/// In a tree where every node hangs below the first, the total below
/// the first node is the sum of the own sizes of all nodes; after
/// aggregation, that is the first node's cumulative size.
pub proof fn lemma_root_total_is_sum_of_sizes(nodes: Seq<TreeNode>)
    requires
        nodes_wf(nodes),
        rooted_at_first(nodes),
        nodes.len() <= usize::MAX,
    ensures
        subtree_size(nodes, 0) == own_sizes(nodes, nodes.len() as int),
        totals_fit(nodes) ==> aggregated(nodes)[0].cumulative_size == own_sizes(nodes, nodes.len() as int),
{
    lemma_frontier_invariant(nodes, nodes.len() as int);
    lemma_frontier_none(nodes, nodes.len() as int);
    if totals_fit(nodes) {
        assert(subtree_size(nodes, 0) <= u64::MAX);
        lemma_subtree_nonneg(nodes, 0);
    }
}

} // verus!
