//! The force-directed graph view of a finished tree.
//!
//! Starting from one directory, the graph takes nodes breadth first,
//! larger subdirectories first, adds each directory's top files as
//! leaves, and stops when the node budget or the depth limit is
//! reached.

use std::collections::VecDeque;
use vstd::prelude::*;

use crate::text::{
    chars_of, concat, decimal, decimal_text, last_segment, lowercase_of, string_from_chars,
    to_lowercase, vec_last_segment,
};
use crate::listing::{lemma_size_order_unique, size_order};
use crate::tree::{ancestry, children_ok, full_path_of, main_separator, nodes_wf, parent_ok, DirTree, NodeKind, TreeNode};

verus! {

/// One node of the graph: a directory (or file node of the tree) or a
/// file listed among a directory's top files.
pub struct ForceGraphNode {
    pub id: String,
    pub name: String,
    pub path: String,
    pub size: u64,
    pub is_dir: bool,
    pub depth: u32,
    pub ext: String,
}

/// An edge from a directory to one of its entries.
pub struct ForceGraphLink {
    pub source: String,
    pub target: String,
}

/// The graph: nodes and links.
pub struct ForceGraphPayload {
    pub nodes: Vec<ForceGraphNode>,
    pub links: Vec<ForceGraphLink>,
}

/// Node `k` lies in the subtree of `start` (`start` itself included).
pub open spec fn in_subtree(nodes: Seq<TreeNode>, start: int, k: int) -> bool {
    0 <= k < nodes.len() && ancestry(nodes, k).contains(start)
}

/// Depth of node `k` relative to `start`.
pub open spec fn rel_depth(nodes: Seq<TreeNode>, start: int, k: int) -> int {
    nodes[k].depth - nodes[start].depth
}

/// The depths below `start` are at least the depth of `start`, and
/// relative depths leave room for one more level.
pub open spec fn depths_fit(nodes: Seq<TreeNode>, start: int) -> bool {
    forall|k: int|
        #[trigger] in_subtree(nodes, start, k) ==> 0 <= rel_depth(nodes, start, k) < u32::MAX
}

/// Node `k` may show its entries under the depth limit.
pub open spec fn expands(nodes: Seq<TreeNode>, start: int, k: int, depth_limit: Option<u32>) -> bool {
    match depth_limit {
        Some(dl) => rel_depth(nodes, start, k) < dl,
        None => true,
    }
}

/// The id of the graph node for file `name` of directory `k`.
pub open spec fn file_id_text(k: int, name: Seq<char>) -> Seq<char> {
    seq!['f', '_'] + decimal_text(k as nat) + seq!['_'] + name
}

/// `e` is the graph node of tree node `k` (origin `(k, -1)`) or of the
/// `x`-th top file of directory `k` (origin `(k, x)`).
pub open spec fn graph_entry(nodes: Seq<TreeNode>, start: int, origin: (int, int), e: ForceGraphNode, sep: char) -> bool {
    let (k, x) = origin;
    &&& in_subtree(nodes, start, k)
    &&& if x < 0 {
        &&& e.id@ == decimal_text(k as nat)
        &&& e.name@ == nodes[k].name@
        &&& e.path@ == full_path_of(nodes, k, sep)
        &&& e.size == nodes[k].cumulative_size
        &&& e.is_dir == (nodes[k].kind == NodeKind::Directory)
        &&& e.depth == rel_depth(nodes, start, k)
        &&& e.ext@.len() == 0
    } else {
        let f = nodes[k].top_files@[x];
        &&& x < nodes[k].top_files@.len()
        &&& nodes[k].kind == NodeKind::Directory
        &&& e.id@ == file_id_text(k, f.name@)
        &&& e.name@ == f.name@
        &&& e.path@ == full_path_of(nodes, k, sep) + seq!['\\'] + f.name@
        &&& e.size == f.bytes
        &&& !e.is_dir
        &&& e.depth == rel_depth(nodes, start, k) + 1
        &&& e.ext@ == lowercase_of(last_segment(f.name@, '.'))
    }
}

/// The link that leads to entry `e` of origin `origin`: from the
/// parent directory of a tree node, or from the directory of a file.
pub open spec fn link_to(nodes: Seq<TreeNode>, origin: (int, int), e: ForceGraphNode, l: ForceGraphLink) -> bool {
    let (k, x) = origin;
    &&& l.target@ == e.id@
    &&& if x < 0 {
        nodes[k].parent is Some && l.source@ == decimal_text(nodes[k].parent.unwrap() as nat)
    } else {
        l.source@ == decimal_text(k as nat)
    }
}

/// Entries other than the start come from a directory that was
/// expanded: the tree node's parent or the file's directory.
pub open spec fn from_expanded(nodes: Seq<TreeNode>, start: int, origin: (int, int), depth_limit: Option<u32>) -> bool {
    let (k, x) = origin;
    let d = if x < 0 {
        nodes[k].parent.unwrap() as int
    } else {
        k
    };
    &&& in_subtree(nodes, start, d)
    &&& nodes[d].kind == NodeKind::Directory
    &&& expands(nodes, start, d, depth_limit)
}

/// What the graph from `start` is made of.
pub open spec fn graph_from(
    nodes: Seq<TreeNode>,
    start: int,
    max_nodes: int,
    depth_limit: Option<u32>,
    out: Seq<ForceGraphNode>,
    links: Seq<ForceGraphLink>,
    origins: Seq<(int, int)>,
    sep: char,
) -> bool {
    &&& out.len() >= 1
    &&& out.len() <= (if max_nodes < 1 {
        1
    } else {
        max_nodes
    })
    &&& origins.len() == out.len()
    &&& links.len() == out.len() - 1
    &&& origins[0] == (start, -1int)
    &&& forall|e: int|
        #![trigger out[e]]
        0 <= e < out.len() ==> graph_entry(nodes, start, origins[e], out[e], sep)
    &&& forall|e: int|
        #![trigger links[e]]
        0 <= e < links.len() ==> link_to(nodes, origins[e + 1], out[e + 1], links[e])
            && from_expanded(nodes, start, origins[e + 1], depth_limit)
}

pub(crate) proof fn lemma_ancestry_bounds(nodes: Seq<TreeNode>, i: int)
    requires
        nodes_wf(nodes),
        0 <= i < nodes.len(),
    ensures
        ancestry(nodes, i).len() > 0,
        ancestry(nodes, i).last() == i,
        forall|m: int| 0 <= m < ancestry(nodes, i).len() ==> 0 <= #[trigger] ancestry(nodes, i)[m] <= i,
    decreases i,
{
    assert(parent_ok(nodes, i));
    match nodes[i].parent {
        Some(p) => {
            lemma_ancestry_bounds(nodes, p as int);
        },
        None => {},
    }
}

/// A child of a node in the subtree is in the subtree.
pub(crate) proof fn lemma_child_in_subtree(nodes: Seq<TreeNode>, start: int, v: int, j: int)
    requires
        nodes_wf(nodes),
        in_subtree(nodes, start, v),
        0 <= j < nodes[v].children@.len(),
    ensures
        in_subtree(nodes, start, nodes[v].children@[j] as int),
        nodes[nodes[v].children@[j] as int].parent == Some(v as usize),
        v < nodes[v].children@[j],
{
    assert(children_ok(nodes, v));
    let c = nodes[v].children@[j] as int;
    assert(nodes[c].parent == Some(v as usize));
    assert(ancestry(nodes, c) == ancestry(nodes, v).push(c));
    let w = ancestry(nodes, v).index_of(start);
    assert(ancestry(nodes, c)[w] == start);
}

/// The id of the graph node for file `name` of directory `id`.
fn file_id(id: usize, name: &str) -> (r: String)
    ensures
        r@ == file_id_text(id as int, name@),
{
    let mut v: Vec<char> = vec!['f', '_'];
    let d = chars_of(decimal(id).as_str());
    let nm = chars_of(name);
    let mut i: usize = 0;
    while i < d.len()
        invariant
            i <= d@.len(),
            v@ == seq!['f', '_'] + d@.take(i as int),
        decreases d.len() - i,
    {
        v.push(d[i]);
        i = i + 1;
        assert(v@ =~= seq!['f', '_'] + d@.take(i as int));
    }
    assert(d@.take(d@.len() as int) =~= d@);
    v.push('_');
    let ghost mid = v@;
    let mut i: usize = 0;
    while i < nm.len()
        invariant
            i <= nm@.len(),
            v@ == mid + nm@.take(i as int),
        decreases nm.len() - i,
    {
        v.push(nm[i]);
        i = i + 1;
        assert(v@ =~= mid + nm@.take(i as int));
    }
    assert(nm@.take(nm@.len() as int) =~= nm@);
    assert(v@ =~= file_id_text(id as int, name@));
    string_from_chars(v.as_slice())
}

/// `dir` followed by a backslash and `name`.
fn child_path(dir: &str, name: &str) -> (r: String)
    ensures
        r@ == dir@ + seq!['\\'] + name@,
{
    let mut v = chars_of(dir);
    v.push('\\');
    let ghost mid = v@;
    let nm = chars_of(name);
    let mut i: usize = 0;
    while i < nm.len()
        invariant
            i <= nm@.len(),
            v@ == mid + nm@.take(i as int),
        decreases nm.len() - i,
    {
        v.push(nm[i]);
        i = i + 1;
        assert(v@ =~= mid + nm@.take(i as int));
    }
    assert(nm@.take(nm@.len() as int) =~= nm@);
    string_from_chars(v.as_slice())
}

impl DirTree {
    /// The children of `id`, larger totals first (equal totals keep
    /// their order).
    fn children_by_size(&self, id: usize) -> (r: Vec<usize>)
        requires
            self.wf(),
            id < self.nodes@.len(),
        ensures
            size_order(self.nodes@, self.nodes@[id as int].children@, r@),
    {
        proof {
            assert(children_ok(self.nodes@, id as int));
        }
        self.order_by_size(&self.nodes[id].children)
    }
}

/// The children of `k` in the order the graph takes them: larger
/// totals first, equal totals by id (see `size_order`).
pub open spec fn children_by_size_of(nodes: Seq<TreeNode>, k: int) -> Seq<usize> {
    choose|r: Seq<usize>| size_order(nodes, nodes[k].children@, r)
}

/// How many of `n` candidates still fit when `used` of `budget` places
/// are taken.
pub open spec fn fitting(n: int, used: int, budget: int) -> int {
    if budget - used <= 0 {
        0
    } else if n < budget - used {
        n
    } else {
        budget - used
    }
}

/// The breadth-first walk that makes the graph. `queue` holds the tree
/// nodes waiting to be shown and `origins` the entries shown so far (as
/// in `graph_entry`). A step shows the next node of the queue; when it
/// is a directory that may expand, its children are queued, larger
/// totals first, and then its top files are shown, each only while the
/// entries shown and queued stay below the budget.
pub open spec fn walk(
    nodes: Seq<TreeNode>,
    start: int,
    budget: int,
    depth_limit: Option<u32>,
    queue: Seq<usize>,
    origins: Seq<(int, int)>,
) -> Seq<(int, int)>
    decreases budget - origins.len(),
{
    if queue.len() == 0 || origins.len() >= budget {
        origins
    } else {
        let k = queue[0] as int;
        let q1 = queue.drop_first();
        let o1 = origins.push((k, -1int));
        if expands(nodes, start, k, depth_limit) && nodes[k].kind == NodeKind::Directory {
            let cs = children_by_size_of(nodes, k);
            let m = fitting(cs.len() as int, (o1.len() + q1.len()) as int, budget);
            let q2 = q1 + cs.take(m);
            let f = fitting(nodes[k].top_files@.len() as int, (o1.len() + q2.len()) as int, budget);
            let o2 = o1 + Seq::new(f as nat, |x: int| (k, x));
            walk(nodes, start, budget, depth_limit, q2, o2)
        } else {
            walk(nodes, start, budget, depth_limit, q1, o1)
        }
    }
}

/// The entries of the graph from `start`, in the order they are shown.
pub open spec fn graph_walk(nodes: Seq<TreeNode>, start: int, max_nodes: int, depth_limit: Option<u32>) -> Seq<(int, int)> {
    walk(
        nodes,
        start,
        if max_nodes < 1 {
            1
        } else {
            max_nodes
        },
        depth_limit,
        seq![start as usize],
        Seq::empty(),
    )
}

/// Build the force graph from `start_node`: breadth first, children
/// with larger totals first, each expanded directory's top files as
/// leaves; at most `max_nodes` nodes (the start node always), and no
/// directory deeper than `depth_limit` (relative to the start) is
/// expanded. Empty when the tree is empty or the start does not exist.
/// Paths are those of the platform this runs on.
pub fn build_force_graph(
    tree: &DirTree,
    start_node: usize,
    max_nodes: usize,
    depth_limit: Option<u32>,
) -> (g: ForceGraphPayload)
    requires
        start_node < tree.nodes@.len() ==> tree.wf() && depths_fit(tree.nodes@, start_node as int),
    ensures
        start_node >= tree.nodes@.len() ==> g.nodes@.len() == 0 && g.links@.len() == 0,
        start_node < tree.nodes@.len() ==> exists|sep: char|
            (sep == '/' || sep == '\\') && #[trigger] graph_from(
                tree.nodes@,
                start_node as int,
                max_nodes as int,
                depth_limit,
                g.nodes@,
                g.links@,
                graph_walk(tree.nodes@, start_node as int, max_nodes as int, depth_limit),
                sep,
            ),
{
    let sep = main_separator();
    build_force_graph_with(tree, start_node, max_nodes, depth_limit, sep)
}

/// The force graph of `build_force_graph`, with the paths of a platform
/// whose main separator is `sep`.
#[verifier::spinoff_prover]
#[verifier::rlimit(40)]
pub fn build_force_graph_with(
    tree: &DirTree,
    start_node: usize,
    max_nodes: usize,
    depth_limit: Option<u32>,
    sep: char,
) -> (g: ForceGraphPayload)
    requires
        start_node < tree.nodes@.len() ==> tree.wf() && depths_fit(tree.nodes@, start_node as int),
    ensures
        start_node >= tree.nodes@.len() ==> g.nodes@.len() == 0 && g.links@.len() == 0,
        start_node < tree.nodes@.len() ==> graph_from(
            tree.nodes@,
            start_node as int,
            max_nodes as int,
            depth_limit,
            g.nodes@,
            g.links@,
            graph_walk(tree.nodes@, start_node as int, max_nodes as int, depth_limit),
            sep,
        ),
{
    let mut out: Vec<ForceGraphNode> = Vec::new();
    let mut links: Vec<ForceGraphLink> = Vec::new();
    if tree.nodes.len() == 0 || start_node >= tree.nodes.len() {
        return ForceGraphPayload { nodes: out, links };
    }
    let ghost nodes = tree.nodes@;
    let ghost start = start_node as int;
    let n = tree.nodes.len();
    let mut queue: VecDeque<usize> = VecDeque::new();
    queue.push_back(start_node);
    let mut added: Vec<bool> = Vec::new();
    let mut z: usize = 0;
    while z < n
        invariant
            z <= n,
            added@.len() == z,
            forall|j: int| 0 <= j < z ==> !#[trigger] added@[j],
        decreases n - z,
    {
        added.push(false);
        z = z + 1;
    }
    added.set(start_node, true);
    let current_depth = tree.nodes[start_node].depth;
    let ghost mut origins: Seq<(int, int)> = Seq::empty();
    proof {
        lemma_ancestry_bounds(nodes, start);
        assert(ancestry(nodes, start)[ancestry(nodes, start).len() - 1] == start);
        assert(in_subtree(nodes, start, start));
    }
    let budget: usize = if max_nodes < 1 {
        1
    } else {
        max_nodes
    };
    while queue.len() > 0
        invariant
            nodes == tree.nodes@,
            tree.wf(),
            n == nodes.len(),
            start_node < n,
            start == start_node as int,
            depths_fit(nodes, start),
            current_depth == nodes[start].depth,
            budget == (if max_nodes < 1 {
                1
            } else {
                max_nodes
            }),
            added@.len() == n,
            added@[start] == true,
            out@.len() + queue@.len() <= budget,
            origins.len() == out@.len(),
            walk(nodes, start, budget as int, depth_limit, queue@, origins) == graph_walk(
                nodes,
                start,
                max_nodes as int,
                depth_limit,
            ),
            out@.len() == 0 ==> queue@ == seq![start_node] && links@.len() == 0,
            out@.len() > 0 ==> links@.len() == out@.len() - 1 && origins[0] == (start, -1int),
            forall|q: int| 0 <= q < queue@.len() ==> #[trigger] in_subtree(nodes, start, queue@[q] as int),
            forall|q: int| 0 <= q < queue@.len() ==> added@[#[trigger] queue@[q] as int],
            out@.len() > 0 ==> forall|q: int|
                0 <= q < queue@.len() ==> {
                    let c = #[trigger] queue@[q] as int;
                    &&& nodes[c].parent is Some
                    &&& added@[nodes[c].parent.unwrap() as int]
                    &&& c != start
                    &&& from_expanded(nodes, start, (c, -1int), depth_limit)
                },
            forall|e: int|
                #![trigger out@[e]]
                0 <= e < out@.len() ==> graph_entry(nodes, start, origins[e], out@[e], sep),
            forall|e: int|
                #![trigger links@[e]]
                0 <= e < links@.len() ==> link_to(nodes, origins[e + 1], out@[e + 1], links@[e])
                    && from_expanded(nodes, start, origins[e + 1], depth_limit),
        decreases budget - out@.len(),
    {
        let ghost q_old = queue@;
        let id = queue.pop_front().unwrap();
        let ghost k = id as int;
        assert(q_old[0] == id);
        assert(queue@ =~= q_old.drop_first());
        let ghost q1 = queue@;
        assert(added@[k]);
        assert forall|q: int| 0 <= q < queue@.len() implies #[trigger] in_subtree(nodes, start, queue@[q] as int) && added@[queue@[q] as int] by {
            assert(queue@[q] == q_old[q + 1]);
        }
        if out.len() > 0 {
            assert forall|q: int| 0 <= q < queue@.len() implies ({
                let c = #[trigger] queue@[q] as int;
                &&& nodes[c].parent is Some
                &&& added@[nodes[c].parent.unwrap() as int]
                &&& c != start
                &&& from_expanded(nodes, start, (c, -1int), depth_limit)
            }) by {
                assert(queue@[q] == q_old[q + 1]);
            }
            assert(nodes[k].parent is Some && added@[nodes[k].parent.unwrap() as int] && k != start);
            assert(from_expanded(nodes, start, (k, -1int), depth_limit));
        } else {
            assert(q_old == seq![start_node]);
            assert(k == start);
            assert(queue@.len() == 0);
        }
        assert(in_subtree(nodes, start, k));
        proof {
            lemma_ancestry_bounds(nodes, k);
            let w = ancestry(nodes, k).index_of(start);
            assert(ancestry(nodes, k)[w] == start);
        }
        let node = &tree.nodes[id];
        let node_path = tree.full_path_with(id, sep);
        let rel = node.depth - current_depth;
        let ghost e0 = out@.len();
        let ghost out_b = out@;
        let ghost links_b = links@;
        let ghost origins_b = origins;
        out.push(
            ForceGraphNode {
                id: decimal(id),
                name: node.name.clone(),
                path: node_path.clone(),
                size: node.cumulative_size,
                is_dir: node.kind == NodeKind::Directory,
                depth: rel,
                ext: String::new(),
            },
        );
        proof {
            origins = origins.push((k, -1int));
        }
        let ghost o1 = origins;
        if id != start_node {
            if let Some(pid) = node.parent {
                if added[pid] {
                    links.push(ForceGraphLink { source: decimal(pid), target: decimal(id) });
                }
            }
        }
        proof {
            assert(graph_entry(nodes, start, origins[e0 as int], out@[e0 as int], sep));
            if e0 > 0 {
                assert(links@.len() == out@.len() - 1);
                assert(link_to(nodes, origins[e0 as int], out@[e0 as int], links@[e0 - 1]));
                assert(from_expanded(nodes, start, origins[e0 as int], depth_limit));
                assert forall|e: int|
                    #![trigger links@[e]]
                    0 <= e < links@.len() implies link_to(nodes, origins[e + 1], out@[e + 1], links@[e])
                        && from_expanded(nodes, start, origins[e + 1], depth_limit) by {
                    if e < links@.len() - 1 {
                        assert(links@[e] == links_b[e]);
                        assert(out@[e + 1] == out_b[e + 1]);
                        assert(origins[e + 1] == origins_b[e + 1]);
                    }
                }
                assert forall|e: int|
                    #![trigger out@[e]]
                    0 <= e < out@.len() implies graph_entry(nodes, start, origins[e], out@[e], sep) by {
                    if e < out@.len() - 1 {
                        assert(out@[e] == out_b[e]);
                        assert(origins[e] == origins_b[e]);
                    }
                }
            } else {
                assert(links@.len() == 0);
                assert(origins[0] == (start, -1int));
            }
        }
        let at_limit = match depth_limit {
            Some(dl) => rel >= dl,
            None => false,
        };
        if !at_limit && node.kind == NodeKind::Directory {
            let cids = tree.children_by_size(id);
            proof {
                lemma_size_order_unique(nodes, nodes[k].children@, cids@, children_by_size_of(nodes, k));
            }
            let ghost m = fitting(cids@.len() as int, (o1.len() + q1.len()) as int, budget as int);
            let mut j: usize = 0;
            while j < cids.len()
                invariant
                    nodes == tree.nodes@,
                    tree.wf(),
                    n == nodes.len(),
                    start == start_node as int,
                    k == id as int,
                    k >= start,
                    in_subtree(nodes, start, k),
                    nodes[k].kind == NodeKind::Directory,
                    expands(nodes, start, k, depth_limit),
                    added@.len() == n,
                    added@[start] == true,
                    added@[k] == true,
                    out@.len() + queue@.len() <= budget,
                    out@.len() >= 1,
                    cids@.len() == nodes[k].children@.len(),
                    forall|x: int| 0 <= x < cids@.len() ==> #[trigger] nodes[k].children@.contains(cids@[x]),
                    j <= cids@.len(),
                    out@.len() == o1.len(),
                    m == fitting(cids@.len() as int, (o1.len() + q1.len()) as int, budget as int),
                    queue@ == q1 + cids@.take(
                        if j < m {
                            j as int
                        } else {
                            m
                        },
                    ),
                    forall|q: int| 0 <= q < queue@.len() ==> #[trigger] in_subtree(nodes, start, queue@[q] as int),
                    forall|q: int| 0 <= q < queue@.len() ==> added@[#[trigger] queue@[q] as int],
                    forall|q: int|
                        0 <= q < queue@.len() ==> {
                            let c = #[trigger] queue@[q] as int;
                            &&& nodes[c].parent is Some
                            &&& added@[nodes[c].parent.unwrap() as int]
                            &&& c != start
                            &&& from_expanded(nodes, start, (c, -1int), depth_limit)
                        },
                decreases cids.len() - j,
            {
                let cid = cids[j];
                let ghost jm = if j < m {
                    j as int
                } else {
                    m
                };
                proof {
                    if m > 0 {
                        assert(m <= cids@.len());
                    }
                    assert(queue@.len() == q1.len() + jm);
                }
                if out.len() + queue.len() < budget {
                    assert(j < m);
                    proof {
                        assert(nodes[k].children@.contains(cid));
                        let w = choose|w: int| 0 <= w < nodes[k].children@.len() && nodes[k].children@[w] == cid;
                        lemma_child_in_subtree(nodes, start, k, w);
                    }
                    let ghost before = added@;
                    let ghost qb = queue@;
                    queue.push_back(cid);
                    assert(queue@ == qb.push(cid));
                    added[cid] = true;
                    proof {
                        assert(added@ == before.update(cid as int, true));
                        assert(queue@[queue@.len() - 1] == cid);
                        assert forall|q: int| 0 <= q < queue@.len() implies added@[#[trigger] queue@[q] as int] by {
                            let c = queue@[q];
                            if q < queue@.len() - 1 {
                                assert(c == qb[q]);
                                assert(in_subtree(nodes, start, qb[q] as int));
                                assert(before[qb[q] as int]);
                                assert(added@[c as int] == before.update(cid as int, true)[c as int]);
                            } else {
                                assert(c == cid);
                                assert(added@[c as int] == before.update(cid as int, true)[c as int]);
                            }
                            assert(added@[c as int]);
                        }
                        assert(queue@ =~= q1 + cids@.take(j + 1));
                    }
                } else {
                    assert(j >= m);
                }
                j = j + 1;
            }
            let ghost q2 = queue@;
            assert(q2 == q1 + cids@.take(m));
            let ghost nf = fitting(node.top_files@.len() as int, (o1.len() + q2.len()) as int, budget as int);
            assert(origins =~= o1 + Seq::new(0, |i: int| (k, i)));
            let mut x: usize = 0;
            while x < node.top_files.len()
                invariant
                    nodes == tree.nodes@,
                    tree.wf(),
                    n == nodes.len(),
                    start == start_node as int,
                    k == id as int,
                    *node == nodes[k],
                    node_path@ == full_path_of(nodes, k, sep),
                    rel == rel_depth(nodes, start, k),
                    depths_fit(nodes, start),
                    in_subtree(nodes, start, k),
                    nodes[k].kind == NodeKind::Directory,
                    expands(nodes, start, k, depth_limit),
                    out@.len() + queue@.len() <= budget,
                    out@.len() >= 1,
                    out@.len() >= e0 + 1,
                    origins.len() == out@.len(),
                    links@.len() == out@.len() - 1,
                    origins[0] == (start, -1int),
                    x <= node.top_files@.len(),
                    queue@ == q2,
                    nf == fitting(node.top_files@.len() as int, (o1.len() + q2.len()) as int, budget as int),
                    origins == o1 + Seq::new(
                        (if x < nf {
                            x as int
                        } else {
                            nf
                        }) as nat,
                        |i: int| (k, i),
                    ),
                    forall|e: int|
                        #![trigger out@[e]]
                        0 <= e < out@.len() ==> graph_entry(nodes, start, origins[e], out@[e], sep),
                    forall|e: int|
                        #![trigger links@[e]]
                        0 <= e < links@.len() ==> link_to(nodes, origins[e + 1], out@[e + 1], links@[e])
                            && from_expanded(nodes, start, origins[e + 1], depth_limit),
                decreases node.top_files.len() - x,
            {
                proof {
                    if nf > 0 {
                        assert(nf <= node.top_files@.len());
                    }
                }
                if out.len() + queue.len() < budget {
                    assert(x < nf);
                    let f = &node.top_files[x];
                    let fid = file_id(id, f.name.as_str());
                    let ext = to_lowercase(
                        string_from_chars(vec_last_segment(&chars_of(f.name.as_str()), '.').as_slice()).as_str(),
                    );
                    let ghost e1 = out@.len();
                    let ghost ob = out@;
                    let ghost lb = links@;
                    let ghost gb = origins;
                    out.push(
                        ForceGraphNode {
                            id: fid.clone(),
                            name: f.name.clone(),
                            path: child_path(node_path.as_str(), f.name.as_str()),
                            size: f.bytes,
                            is_dir: false,
                            depth: rel + 1,
                            ext,
                        },
                    );
                    links.push(ForceGraphLink { source: decimal(id), target: fid });
                    proof {
                        origins = origins.push((k, x as int));
                        assert(graph_entry(nodes, start, origins[e1 as int], out@[e1 as int], sep));
                        assert(link_to(nodes, origins[e1 as int], out@[e1 as int], links@[e1 - 1]));
                        assert(from_expanded(nodes, start, origins[e1 as int], depth_limit));
                        assert forall|e: int|
                            #![trigger links@[e]]
                            0 <= e < links@.len() implies link_to(nodes, origins[e + 1], out@[e + 1], links@[e])
                                && from_expanded(nodes, start, origins[e + 1], depth_limit) by {
                            if e < links@.len() - 1 {
                                assert(links@[e] == lb[e]);
                                assert(out@[e + 1] == ob[e + 1]);
                                assert(origins[e + 1] == gb[e + 1]);
                            }
                        }
                        assert forall|e: int|
                            #![trigger out@[e]]
                            0 <= e < out@.len() implies graph_entry(nodes, start, origins[e], out@[e], sep) by {
                            if e < out@.len() - 1 {
                                assert(out@[e] == ob[e]);
                                assert(origins[e] == gb[e]);
                            }
                        }
                        assert(origins =~= o1 + Seq::new((x + 1) as nat, |i: int| (k, i)));
                    }
                } else {
                    assert(x >= nf);
                }
                x = x + 1;
            }
            proof {
                assert(origins == o1 + Seq::new(nf as nat, |i: int| (k, i)));
                assert(expands(nodes, start, k, depth_limit));
                assert(walk(nodes, start, budget as int, depth_limit, q_old, origins_b) == walk(
                    nodes,
                    start,
                    budget as int,
                    depth_limit,
                    queue@,
                    origins,
                ));
            }
        } else {
            proof {
                assert(!(expands(nodes, start, k, depth_limit) && nodes[k].kind == NodeKind::Directory));
                assert(walk(nodes, start, budget as int, depth_limit, q_old, origins_b) == walk(
                    nodes,
                    start,
                    budget as int,
                    depth_limit,
                    queue@,
                    origins,
                ));
            }
        }
    }
    proof {
        assert(out@.len() >= 1);
        assert(out@.len() <= budget);
        assert(graph_from(tree.nodes@, start_node as int, max_nodes as int, depth_limit, out@, links@, origins, sep));
    }
    let g = ForceGraphPayload { nodes: out, links };
    assert(graph_from(tree.nodes@, start_node as int, max_nodes as int, depth_limit, g.nodes@, g.links@, origins, sep));
    g
}

} // verus!
