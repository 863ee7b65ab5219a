//! The shape of the force graph, stated directly: no entry twice, every
//! entry after its parent, the children shown being the first ones by
//! size, and files only where all children are shown.

use vstd::prelude::*;

use crate::graph::{
    children_by_size_of, expands, file_id_text, fitting, graph_entry, graph_from, graph_walk, in_subtree,
    lemma_ancestry_bounds, lemma_child_in_subtree, walk, ForceGraphLink, ForceGraphNode,
};
use crate::text::{decimal_text, lemma_decimal_digits, lemma_decimal_injective};
use crate::listing::{lemma_size_order_exists, size_order};
use crate::tree::{ancestry, children_ok, full_path_of, nodes_wf, parent_ok, NodeKind, TreeNode};

verus! {

/// Tree node `k` itself (not one of its files) is among `origins`.
pub open spec fn shows(origins: Seq<(int, int)>, k: int) -> bool {
    origins.contains((k, -1int))
}

/// Entry `e` comes after its parent: a file after its directory, and a
/// tree node other than the first after its parent directory.
pub open spec fn shown_after_parent(nodes: Seq<TreeNode>, origins: Seq<(int, int)>, e: int) -> bool {
    let (k, x) = origins[e];
    if x >= 0 {
        shows(origins.take(e), k)
    } else {
        e > 0 ==> nodes[k].parent is Some && shows(origins.take(e), nodes[k].parent.unwrap() as int)
    }
}

/// Tree node `c` is shown or waits in the queue.
spec fn present(origins: Seq<(int, int)>, queue: Seq<usize>, c: usize) -> bool {
    shows(origins, c as int) || queue.contains(c)
}

/// The children of `k` that are present come first in the order by
/// size: a present child has every child before it present too.
spec fn children_prefix(nodes: Seq<TreeNode>, queue: Seq<usize>, origins: Seq<(int, int)>, k: int) -> bool {
    let cs = children_by_size_of(nodes, k);
    forall|a: int, b: int|
        #![trigger cs[a], cs[b]]
        0 <= a < b < cs.len() && present(origins, queue, cs[b]) ==> present(origins, queue, cs[a])
}

/// Every child of `k` is present.
spec fn all_children_present(nodes: Seq<TreeNode>, queue: Seq<usize>, origins: Seq<(int, int)>, k: int) -> bool {
    let cs = children_by_size_of(nodes, k);
    forall|j: int| 0 <= j < cs.len() ==> present(origins, queue, #[trigger] cs[j])
}

/// A waiting node other than the start hangs below a shown directory.
spec fn waits_below_shown(nodes: Seq<TreeNode>, start: int, origins: Seq<(int, int)>, c: usize) -> bool {
    &&& c != start
    &&& nodes[c as int].parent is Some
    &&& shows(origins, nodes[c as int].parent.unwrap() as int)
}

/// What holds of the walk's state at every step.
spec fn walk_inv(nodes: Seq<TreeNode>, start: int, budget: int, queue: Seq<usize>, origins: Seq<(int, int)>) -> bool {
    &&& budget >= 1
    &&& origins.len() + queue.len() <= budget
    &&& origins.len() == 0 ==> queue == seq![start as usize]
    &&& origins.len() > 0 ==> origins[0] == (start, -1int)
    &&& origins.no_duplicates()
    &&& queue.no_duplicates()
    &&& forall|i: int| 0 <= i < queue.len() ==> !shows(origins, #[trigger] queue[i] as int)
    &&& forall|i: int| 0 <= i < queue.len() ==> in_subtree(nodes, start, #[trigger] queue[i] as int)
    &&& forall|e: int| #![trigger origins[e]] 0 <= e < origins.len() ==> in_subtree(nodes, start, origins[e].0)
    &&& forall|e: int| #![trigger origins[e]] 0 <= e < origins.len() ==> origins[e].1 >= -1
    &&& forall|e: int| #![trigger origins[e]] 0 <= e < origins.len() ==> shown_after_parent(nodes, origins, e)
    &&& origins.len() > 0 ==> forall|i: int|
        0 <= i < queue.len() ==> waits_below_shown(nodes, start, origins, #[trigger] queue[i])
    &&& forall|k: int| #[trigger] shows(origins, k) ==> children_prefix(nodes, queue, origins, k)
    &&& forall|e: int|
        #![trigger origins[e]]
        0 <= e < origins.len() && origins[e].1 >= 0 ==> all_children_present(nodes, queue, origins, origins[e].0)
}

/// The children of a node in the order by size: its children, each
/// once, each after it in the arena.
proof fn lemma_children_by_size(nodes: Seq<TreeNode>, k: int)
    requires
        nodes_wf(nodes),
        0 <= k < nodes.len(),
    ensures
        size_order(nodes, nodes[k].children@, children_by_size_of(nodes, k)),
        forall|j: int|
            0 <= j < children_by_size_of(nodes, k).len() ==> {
                let c = #[trigger] children_by_size_of(nodes, k)[j] as int;
                &&& k < c < nodes.len()
                &&& nodes[c].parent == Some(k as usize)
            },
{
    assert(children_ok(nodes, k));
    let ch = nodes[k].children@;
    assert(ch.no_duplicates()) by {
        assert forall|i: int, j: int| 0 <= i < j < ch.len() implies ch[i] != ch[j] by {
            assert(ch[i] < ch[j]);
        }
    }
    lemma_size_order_exists(nodes, ch);
    let cs = children_by_size_of(nodes, k);
    assert forall|j: int| 0 <= j < cs.len() implies {
        let c = #[trigger] cs[j] as int;
        &&& k < c < nodes.len()
        &&& nodes[c].parent == Some(k as usize)
    } by {
        assert(ch.contains(cs[j]));
        let w = choose|w: int| 0 <= w < ch.len() && ch[w] == cs[j];
        assert(ch[w] == nodes[k].children@[w]);
    }
}

/// No child of the node at the head of the queue is present yet.
proof fn lemma_head_children_absent(
    nodes: Seq<TreeNode>,
    start: int,
    budget: int,
    queue: Seq<usize>,
    origins: Seq<(int, int)>,
)
    requires
        nodes_wf(nodes),
        0 <= start < nodes.len(),
        walk_inv(nodes, start, budget, queue, origins),
        queue.len() > 0,
    ensures
        forall|c: usize|
            #![trigger present(origins, queue, c)]
            0 <= c < nodes.len() && nodes[c as int].parent == Some(queue[0]) ==> !present(origins, queue, c),
{
    let k = queue[0] as int;
    assert(in_subtree(nodes, start, k));
    assert(!shows(origins, k));
    assert forall|c: usize|
        #![trigger present(origins, queue, c)]
        0 <= c < nodes.len() && nodes[c as int].parent == Some(queue[0]) implies !present(origins, queue, c) by {
        assert(parent_ok(nodes, c as int));
        if c == start {
            lemma_ancestry_bounds(nodes, k);
            let w = ancestry(nodes, k).index_of(start);
            assert(ancestry(nodes, k)[w] == start);
        } else {
            if shows(origins, c as int) {
                let e = origins.index_of((c as int, -1int));
                assert(origins[e] == (c as int, -1int));
                assert(shown_after_parent(nodes, origins, e));
                if e == 0 {
                    assert(origins[0] == (start, -1int));
                } else {
                    let t = origins.take(e);
                    let e2 = t.index_of((k, -1int));
                    assert(t[e2] == (k, -1int));
                    assert(origins[e2] == (k, -1int));
                }
            }
            if queue.contains(c) {
                let i = queue.index_of(c);
                assert(queue[i] == c);
                if origins.len() == 0 {
                    assert(queue == seq![start as usize]);
                } else {
                    assert(waits_below_shown(nodes, start, origins, queue[i]));
                }
            }
        }
    }
}

/// The state after one step of the walk.
spec fn step_state(
    nodes: Seq<TreeNode>,
    start: int,
    budget: int,
    depth_limit: Option<u32>,
    queue: Seq<usize>,
    origins: Seq<(int, int)>,
) -> (Seq<usize>, Seq<(int, int)>) {
    let k = queue[0] as int;
    let q1 = queue.drop_first();
    let o1 = origins.push((k, -1int));
    let cs = children_by_size_of(nodes, k);
    let exp = expands(nodes, start, k, depth_limit) && nodes[k].kind == NodeKind::Directory;
    let m = if exp {
        fitting(cs.len() as int, (o1.len() + q1.len()) as int, budget)
    } else {
        0
    };
    let q2 = q1 + cs.take(m);
    let f = if exp {
        fitting(nodes[k].top_files@.len() as int, (o1.len() + q2.len()) as int, budget)
    } else {
        0
    };
    (q2, o1 + Seq::new(f as nat, |x: int| (k, x)))
}

/// One step of the walk keeps its invariant.
#[verifier::rlimit(60)]
#[verifier::spinoff_prover]
proof fn lemma_walk_step(
    nodes: Seq<TreeNode>,
    start: int,
    budget: int,
    depth_limit: Option<u32>,
    queue: Seq<usize>,
    origins: Seq<(int, int)>,
)
    requires
        nodes_wf(nodes),
        0 <= start < nodes.len(),
        walk_inv(nodes, start, budget, queue, origins),
        queue.len() > 0,
        origins.len() < budget,
    ensures
        walk(nodes, start, budget, depth_limit, queue, origins) == walk(
            nodes,
            start,
            budget,
            depth_limit,
            step_state(nodes, start, budget, depth_limit, queue, origins).0,
            step_state(nodes, start, budget, depth_limit, queue, origins).1,
        ),
        step_state(nodes, start, budget, depth_limit, queue, origins).1.len() > origins.len(),
        walk_inv(
            nodes,
            start,
            budget,
            step_state(nodes, start, budget, depth_limit, queue, origins).0,
            step_state(nodes, start, budget, depth_limit, queue, origins).1,
        ),
{
    let k = queue[0] as int;
    let q1 = queue.drop_first();
    let o1 = origins.push((k, -1int));
    let cs = children_by_size_of(nodes, k);
    let exp = expands(nodes, start, k, depth_limit) && nodes[k].kind == NodeKind::Directory;
    let m = if exp {
        fitting(cs.len() as int, (o1.len() + q1.len()) as int, budget)
    } else {
        0
    };
    let q2 = q1 + cs.take(m);
    let f = if exp {
        fitting(nodes[k].top_files@.len() as int, (o1.len() + q2.len()) as int, budget)
    } else {
        0
    };
    let files = Seq::new(f as nat, |x: int| (k, x));
    let o2 = o1 + files;
    assert(step_state(nodes, start, budget, depth_limit, queue, origins) == (q2, o2));
    if !exp {
        assert(q2 =~= q1);
        assert(o2 =~= o1);
    }
    assert(0 <= m <= cs.len());
    assert(o2.len() + q2.len() <= budget);
    assert(f > 0 ==> m == cs.len());
    assert(in_subtree(nodes, start, k));
    lemma_children_by_size(nodes, k);
    lemma_head_children_absent(nodes, start, budget, queue, origins);
    lemma_ancestry_bounds(nodes, k);
    assert(start <= k) by {
        let w = ancestry(nodes, k).index_of(start);
        assert(ancestry(nodes, k)[w] == start);
    }
    assert(!shows(origins, k));
    // The children of `k` are absent before the step.
    assert forall|j: int| 0 <= j < cs.len() implies !#[trigger] present(origins, queue, cs[j]) by {
        assert(nodes[cs[j] as int].parent == Some(k as usize));
    }
    let added = cs.take(m);
    // What is present after the step.
    assert forall|c: usize| #[trigger] present(o2, q2, c) <==> (present(origins, queue, c) || added.contains(c)) by {
        if shows(o2, c as int) {
            let e = o2.index_of((c as int, -1int));
            if e < origins.len() {
                assert(o2[e] == origins[e]);
                assert(shows(origins, c as int));
            } else if e > origins.len() {
                assert(o2[e] == files[e - o1.len()]);
            } else {
                assert(c as int == k);
                assert(queue[0] == c);
                assert(queue.contains(c));
            }
        }
        if q2.contains(c) {
            let i = q2.index_of(c);
            if i < q1.len() {
                assert(q1[i] == queue[i + 1]);
                assert(queue.contains(c));
            } else {
                assert(added[i - q1.len()] == c);
            }
        }
        if shows(origins, c as int) {
            let e = origins.index_of((c as int, -1int));
            assert(o2[e] == origins[e]);
        }
        if queue.contains(c) {
            let i = queue.index_of(c);
            if i == 0 {
                assert(o2[origins.len() as int] == (k, -1int));
            } else {
                assert(q2[i - 1] == queue[i]);
            }
        }
        if added.contains(c) {
            let i = added.index_of(c);
            assert(q2[q1.len() + i] == c);
        }
    }
    assert(o2.len() > 0 ==> o2[0] == (start, -1int)) by {
        if origins.len() == 0 {
            assert(queue == seq![start as usize]);
            assert(o2[0] == (k, -1int));
        } else {
            assert(o2[0] == origins[0]);
        }
    }
    // No entry twice.
    assert(o2.no_duplicates()) by {
        assert forall|a: int, b: int| 0 <= a < b < o2.len() implies o2[a] != o2[b] by {
            if b < origins.len() {
                assert(o2[a] == origins[a] && o2[b] == origins[b]);
            } else if a < origins.len() {
                assert(o2[a] == origins[a]);
                if o2[a] == o2[b] {
                    assert(o2[b].0 == k);
                    assert(shown_after_parent(nodes, origins, a));
                    if origins[a].1 >= 0 {
                        let t = origins.take(a);
                        let e2 = t.index_of((k, -1int));
                        assert(origins[e2] == t[e2]);
                    } else {
                        assert(b == origins.len());
                    }
                }
            } else if a == origins.len() {
                assert(o2[b] == files[b - o1.len()]);
            } else {
                assert(o2[a] == files[a - o1.len()] && o2[b] == files[b - o1.len()]);
            }
        }
    }
    assert(q2.no_duplicates()) by {
        assert forall|a: int, b: int| 0 <= a < b < q2.len() implies q2[a] != q2[b] by {
            if b < q1.len() {
                assert(q2[a] == queue[a + 1] && q2[b] == queue[b + 1]);
            } else if a < q1.len() {
                assert(q2[a] == queue[a + 1]);
                assert(q2[b] == cs[b - q1.len()]);
                assert(!present(origins, queue, cs[b - q1.len()]));
                assert(queue.contains(queue[a + 1]));
            } else {
                assert(q2[a] == cs[a - q1.len()] && q2[b] == cs[b - q1.len()]);
            }
        }
    }
    assert forall|i: int| 0 <= i < q2.len() implies !shows(o2, #[trigger] q2[i] as int) && in_subtree(
        nodes,
        start,
        q2[i] as int,
    ) by {
        let c = q2[i];
        if i < q1.len() {
            assert(c == queue[i + 1]);
            assert(!shows(origins, queue[i + 1] as int));
            assert(in_subtree(nodes, start, queue[i + 1] as int));
            assert(queue[0] != queue[i + 1]);
        } else {
            let j = i - q1.len();
            assert(c == cs[j]);
            assert(!present(origins, queue, cs[j]));
            assert(nodes[k].children@.contains(cs[j]));
            let w = nodes[k].children@.index_of(cs[j]);
            lemma_child_in_subtree(nodes, start, k, w);
        }
        if shows(o2, c as int) {
            let e = o2.index_of((c as int, -1int));
            if e < origins.len() {
                assert(o2[e] == origins[e]);
            } else if e > origins.len() {
                assert(o2[e] == files[e - o1.len()]);
            }
        }
    }
    // Every entry in the subtree, and after its parent.
    assert forall|e: int| #![trigger o2[e]] 0 <= e < o2.len() implies in_subtree(nodes, start, o2[e].0)
        && o2[e].1 >= -1 && shown_after_parent(nodes, o2, e) by {
        if e < origins.len() {
            assert(o2[e] == origins[e]);
            assert(o2.take(e) =~= origins.take(e));
            assert(in_subtree(nodes, start, origins[e].0));
            assert(shown_after_parent(nodes, origins, e));
        } else if e == origins.len() {
            assert(o2[e] == (k, -1int));
            assert(o2.take(e) =~= origins);
            if e > 0 {
                assert(waits_below_shown(nodes, start, origins, queue[0]));
            }
        } else {
            assert(o2[e] == files[e - o1.len()]);
            assert(o2.take(e)[origins.len() as int] == (k, -1int));
        }
    }
    // What waits hangs below a shown directory.
    assert forall|i: int| 0 <= i < q2.len() implies waits_below_shown(nodes, start, o2, #[trigger] q2[i]) by {
        if i < q1.len() {
            assert(origins.len() > 0) by {
                if origins.len() == 0 {
                    assert(queue == seq![start as usize]);
                }
            }
            assert(q2[i] == queue[i + 1]);
            assert(waits_below_shown(nodes, start, origins, queue[i + 1]));
            let p = nodes[q2[i] as int].parent.unwrap() as int;
            let e = origins.index_of((p, -1int));
            assert(o2[e] == origins[e]);
        } else {
            assert(q2[i] == cs[i - q1.len()]);
            assert(o2[origins.len() as int] == (k, -1int));
        }
    }
    // Shown directories show their children in order by size.
    assert forall|k2: int| #[trigger] shows(o2, k2) implies children_prefix(nodes, q2, o2, k2) by {
        let cs2 = children_by_size_of(nodes, k2);
        if k2 == k {
            assert forall|a: int, b: int|
                #![trigger cs2[a], cs2[b]]
                0 <= a < b < cs2.len() && present(o2, q2, cs2[b]) implies present(o2, q2, cs2[a]) by {
                assert(!present(origins, queue, cs[b]));
                assert(added.contains(cs[b]));
                let i = added.index_of(cs[b]);
                assert(cs[i] == cs[b]);
                assert(added[a] == cs[a]);
                assert(added.contains(cs[a]));
            }
        } else {
            let e = o2.index_of((k2, -1int));
            if e >= origins.len() {
                assert(e == origins.len()) by {
                    if e > origins.len() {
                        assert(o2[e] == files[e - o1.len()]);
                    }
                }
            }
            assert(o2[e] == origins[e]);
            assert(shows(origins, k2));
            assert(children_prefix(nodes, queue, origins, k2));
            assert(in_subtree(nodes, start, k2));
            lemma_children_by_size(nodes, k2);
            assert forall|a: int, b: int|
                #![trigger cs2[a], cs2[b]]
                0 <= a < b < cs2.len() && present(o2, q2, cs2[b]) implies present(o2, q2, cs2[a]) by {
                if added.contains(cs2[b]) {
                    let i = added.index_of(cs2[b]);
                    assert(cs[i] == cs2[b]);
                    assert(nodes[cs2[b] as int].parent == Some(k as usize));
                }
                assert(present(origins, queue, cs2[b]));
            }
        }
    }
    // Files only where all children are present.
    assert forall|e: int|
        #![trigger o2[e]]
        0 <= e < o2.len() && o2[e].1 >= 0 implies all_children_present(nodes, q2, o2, o2[e].0) by {
        if e < origins.len() {
            assert(o2[e] == origins[e]);
            assert(all_children_present(nodes, queue, origins, origins[e].0));
            let cs2 = children_by_size_of(nodes, origins[e].0);
            assert forall|j: int| 0 <= j < cs2.len() implies present(o2, q2, #[trigger] cs2[j]) by {
                assert(present(origins, queue, cs2[j]));
            }
        } else {
            assert(e > origins.len());
            assert(o2[e] == files[e - o1.len()]);
            assert(f > 0);
            assert forall|j: int| 0 <= j < cs.len() implies present(o2, q2, #[trigger] cs[j]) by {
                assert(added[j] == cs[j]);
                assert(added.contains(cs[j]));
            }
        }
    }
}

/// The walk keeps its invariant to the end, where nothing waits.
proof fn lemma_walk_to_end(
    nodes: Seq<TreeNode>,
    start: int,
    budget: int,
    depth_limit: Option<u32>,
    queue: Seq<usize>,
    origins: Seq<(int, int)>,
)
    requires
        nodes_wf(nodes),
        0 <= start < nodes.len(),
        walk_inv(nodes, start, budget, queue, origins),
    ensures
        walk(nodes, start, budget, depth_limit, queue, origins).len() > 0,
        walk_inv(nodes, start, budget, Seq::empty(), walk(nodes, start, budget, depth_limit, queue, origins)),
    decreases budget - origins.len(),
{
    if queue.len() == 0 || origins.len() >= budget {
        assert(queue =~= Seq::<usize>::empty());
    } else {
        lemma_walk_step(nodes, start, budget, depth_limit, queue, origins);
        let next = step_state(nodes, start, budget, depth_limit, queue, origins);
        lemma_walk_to_end(nodes, start, budget, depth_limit, next.0, next.1);
    }
}

/// The children of `k` that are shown come first in the order by
/// size: a shown child has every child before it shown too.
pub open spec fn children_shown_first(nodes: Seq<TreeNode>, origins: Seq<(int, int)>, k: int) -> bool {
    let cs = children_by_size_of(nodes, k);
    forall|a: int, b: int|
        #![trigger cs[a], cs[b]]
        0 <= a < b < cs.len() && shows(origins, cs[b] as int) ==> shows(origins, cs[a] as int)
}

/// Every child of `k` is shown.
pub open spec fn all_children_shown(nodes: Seq<TreeNode>, origins: Seq<(int, int)>, k: int) -> bool {
    let cs = children_by_size_of(nodes, k);
    forall|j: int| 0 <= j < cs.len() ==> shows(origins, #[trigger] cs[j] as int)
}

/// The shape of the force graph from `start`, read from its entries in
/// the order they are shown (see `build_force_graph`), each a tree node
/// `(k, -1)` or the `x`-th top file `(k, x)` of directory `k`:
/// - the first entry is the start node, and no entry comes twice;
/// - every other entry comes after its parent: a tree node after its
///   parent directory, a file after its directory (so each entry but
///   the first has exactly one link, and it comes from an entry shown
///   before it);
/// - the children of a shown directory that are shown are the first
///   ones in the order by size (larger totals first);
/// - a directory shows top files only when all its children are shown.
pub proof fn lemma_graph_shape(nodes: Seq<TreeNode>, start: int, max_nodes: int, depth_limit: Option<u32>)
    requires
        nodes_wf(nodes),
        0 <= start < nodes.len(),
        nodes.len() <= usize::MAX,
    ensures
        graph_walk(nodes, start, max_nodes, depth_limit).len() > 0,
        graph_walk(nodes, start, max_nodes, depth_limit)[0] == (start, -1int),
        graph_walk(nodes, start, max_nodes, depth_limit).no_duplicates(),
        forall|e: int|
            0 <= e < graph_walk(nodes, start, max_nodes, depth_limit).len() ==> #[trigger] graph_walk(
                nodes,
                start,
                max_nodes,
                depth_limit,
            )[e].1 >= -1,
        forall|e: int|
            0 <= e < graph_walk(nodes, start, max_nodes, depth_limit).len() ==> #[trigger] shown_after_parent(
                nodes,
                graph_walk(nodes, start, max_nodes, depth_limit),
                e,
            ),
        forall|k: int|
            #[trigger] shows(graph_walk(nodes, start, max_nodes, depth_limit), k) ==> children_shown_first(
                nodes,
                graph_walk(nodes, start, max_nodes, depth_limit),
                k,
            ),
        forall|e: int|
            0 <= e < graph_walk(nodes, start, max_nodes, depth_limit).len() && #[trigger] graph_walk(
                nodes,
                start,
                max_nodes,
                depth_limit,
            )[e].1 >= 0 ==> all_children_shown(
                nodes,
                graph_walk(nodes, start, max_nodes, depth_limit),
                graph_walk(nodes, start, max_nodes, depth_limit)[e].0,
            ),
{
    let budget = if max_nodes < 1 {
        1
    } else {
        max_nodes
    };
    let q0 = seq![start as usize];
    let o0 = Seq::<(int, int)>::empty();
    assert(q0.no_duplicates());
    assert(q0[0] as int == start);
    assert(in_subtree(nodes, start, start)) by {
        lemma_ancestry_bounds(nodes, start);
        assert(ancestry(nodes, start)[ancestry(nodes, start).len() - 1] == start);
    }
    assert(walk_inv(nodes, start, budget, q0, o0));
    lemma_walk_to_end(nodes, start, budget, depth_limit, q0, o0);
    let r = graph_walk(nodes, start, max_nodes, depth_limit);
    let empty = Seq::<usize>::empty();
    assert(walk_inv(nodes, start, budget, empty, r));
    assert forall|k: int| #[trigger] shows(r, k) implies children_shown_first(nodes, r, k) by {
        assert(children_prefix(nodes, empty, r, k));
        let cs = children_by_size_of(nodes, k);
        assert forall|a: int, b: int|
            #![trigger cs[a], cs[b]]
            0 <= a < b < cs.len() && shows(r, cs[b] as int) implies shows(r, cs[a] as int) by {
            assert(present(r, empty, cs[b]));
            assert(present(r, empty, cs[a]));
        }
    }
    assert forall|e: int| 0 <= e < r.len() && #[trigger] r[e].1 >= 0 implies all_children_shown(nodes, r, r[e].0) by {
        assert(all_children_present(nodes, empty, r, r[e].0));
        let cs = children_by_size_of(nodes, r[e].0);
        assert forall|j: int| 0 <= j < cs.len() implies shows(r, #[trigger] cs[j] as int) by {
            assert(present(r, empty, cs[j]));
        }
    }
    assert forall|e: int| 0 <= e < r.len() implies #[trigger] shown_after_parent(nodes, r, e) by {
        assert(r[e] == r[e]);
    }
}

/// No directory lists two top files of one name (as in a directory of
/// a file system).
pub open spec fn top_file_names_distinct(nodes: Seq<TreeNode>) -> bool {
    forall|k: int, x: int, y: int|
        #![trigger nodes[k].top_files@[x], nodes[k].top_files@[y]]
        0 <= k < nodes.len() && 0 <= x < y < nodes[k].top_files@.len() ==> nodes[k].top_files@[x].name@
            != nodes[k].top_files@[y].name@
}

/// A file's graph id names its directory and its name alone.
proof fn lemma_file_ids_differ(k1: int, n1: Seq<char>, k2: int, n2: Seq<char>)
    requires
        k1 >= 0,
        k2 >= 0,
        file_id_text(k1, n1) == file_id_text(k2, n2),
    ensures
        k1 == k2,
        n1 == n2,
{
    let d1 = decimal_text(k1 as nat);
    let d2 = decimal_text(k2 as nat);
    let t1 = file_id_text(k1, n1);
    let t2 = file_id_text(k2, n2);
    lemma_decimal_digits(k1 as nat);
    lemma_decimal_digits(k2 as nat);
    assert(t1 == seq!['f', '_'] + d1 + seq!['_'] + n1);
    if d1.len() < d2.len() {
        assert(t1[2 + d1.len() as int] == '_');
        assert(t2[2 + d1.len() as int] == d2[d1.len() as int]);
    } else if d2.len() < d1.len() {
        assert(t2[2 + d2.len() as int] == '_');
        assert(t1[2 + d2.len() as int] == d1[d2.len() as int]);
    } else {
        assert forall|i: int| 0 <= i < d1.len() implies d1[i] == d2[i] by {
            assert(t1[2 + i] == d1[i]);
            assert(t2[2 + i] == d2[i]);
        }
        assert(d1 =~= d2);
        lemma_decimal_injective(k1 as nat, k2 as nat);
        assert(n1 =~= t1.skip(3 + d1.len() as int));
        assert(n2 =~= t2.skip(3 + d2.len() as int));
    }
}

/// The nodes of the force graph from `start` have distinct ids, where
/// no directory lists two top files of one name.
pub proof fn lemma_graph_ids_distinct(
    nodes: Seq<TreeNode>,
    start: int,
    max_nodes: int,
    depth_limit: Option<u32>,
    out: Seq<ForceGraphNode>,
    links: Seq<ForceGraphLink>,
    sep: char,
)
    requires
        nodes_wf(nodes),
        0 <= start < nodes.len(),
        nodes.len() <= usize::MAX,
        top_file_names_distinct(nodes),
        graph_from(nodes, start, max_nodes, depth_limit, out, links, graph_walk(nodes, start, max_nodes, depth_limit), sep),
    ensures
        forall|a: int, b: int| 0 <= a < b < out.len() ==> #[trigger] out[a].id@ != #[trigger] out[b].id@,
{
    let origins = graph_walk(nodes, start, max_nodes, depth_limit);
    lemma_graph_shape(nodes, start, max_nodes, depth_limit);
    assert forall|a: int, b: int| 0 <= a < b < out.len() implies #[trigger] out[a].id@ != #[trigger] out[b].id@ by {
        assert(graph_entry(nodes, start, origins[a], out[a], sep));
        assert(graph_entry(nodes, start, origins[b], out[b], sep));
        let (ka, xa) = origins[a];
        let (kb, xb) = origins[b];
        assert(origins[a] != origins[b]);
        if out[a].id@ == out[b].id@ {
            if xa < 0 && xb < 0 {
                lemma_decimal_injective(ka as nat, kb as nat);
            } else if xa < 0 {
                lemma_decimal_digits(ka as nat);
                assert(out[b].id@[0] == 'f');
                assert(out[a].id@[0] == decimal_text(ka as nat)[0]);
            } else if xb < 0 {
                lemma_decimal_digits(kb as nat);
                assert(out[a].id@[0] == 'f');
                assert(out[b].id@[0] == decimal_text(kb as nat)[0]);
            } else {
                let fa = nodes[ka].top_files@[xa];
                let fb = nodes[kb].top_files@[xb];
                lemma_file_ids_differ(ka, fa.name@, kb, fb.name@);
                if xa < xb {
                    assert(nodes[ka].top_files@[xa].name@ != nodes[ka].top_files@[xb].name@);
                } else {
                    assert(nodes[ka].top_files@[xb].name@ != nodes[ka].top_files@[xa].name@);
                }
            }
        }
    }
}

/// Every node of the graph describes what it stands for: a tree node
/// `(k, -1)` has its name, its full path, its total size and its
/// kind; the `x`-th top file of directory `k` has that file's name and
/// own bytes, the directory's full path with a backslash and the name
/// as its path, lies one level below the directory, and is no
/// directory. Each link leads to the entry after it, from the tree
/// node's parent or the file's directory.
pub proof fn lemma_graph_nodes_describe_entries(
    nodes: Seq<TreeNode>,
    start: int,
    max_nodes: int,
    depth_limit: Option<u32>,
    out: Seq<ForceGraphNode>,
    links: Seq<ForceGraphLink>,
    origins: Seq<(int, int)>,
    sep: char,
)
    requires
        graph_from(nodes, start, max_nodes, depth_limit, out, links, origins, sep),
    ensures
        forall|e: int|
            0 <= e < out.len() && origins[e].1 >= 0 ==> {
                let k = origins[e].0;
                let f = nodes[k].top_files@[origins[e].1];
                &&& #[trigger] out[e].size == f.bytes
                &&& out[e].name@ == f.name@
                &&& out[e].path@ == full_path_of(nodes, k, sep) + seq!['\\'] + f.name@
                &&& !out[e].is_dir
                &&& out[e].depth == nodes[k].depth - nodes[start].depth + 1
            },
        forall|e: int|
            0 <= e < out.len() && origins[e].1 < 0 ==> {
                let k = origins[e].0;
                &&& #[trigger] out[e].size == nodes[k].cumulative_size
                &&& out[e].name@ == nodes[k].name@
                &&& out[e].path@ == full_path_of(nodes, k, sep)
                &&& out[e].is_dir == (nodes[k].kind == NodeKind::Directory)
                &&& out[e].depth == nodes[k].depth - nodes[start].depth
                &&& out[e].id@ == decimal_text(k as nat)
            },
        forall|e: int|
            0 <= e < links.len() ==> {
                let (k, x) = origins[e + 1];
                &&& #[trigger] links[e].target@ == out[e + 1].id@
                &&& x < 0 ==> links[e].source@ == decimal_text(nodes[k].parent.unwrap() as nat)
                &&& x >= 0 ==> links[e].source@ == decimal_text(k as nat)
            },
{
    assert forall|e: int| 0 <= e < out.len() implies graph_entry(nodes, start, origins[e], out[e], sep) by {
        assert(out[e] == out[e]);
    }
    assert forall|e: int| 0 <= e < links.len() implies crate::graph::link_to(
        nodes,
        origins[e + 1],
        out[e + 1],
        links[e],
    ) by {
        assert(links[e] == links[e]);
    }
}

} // verus!
