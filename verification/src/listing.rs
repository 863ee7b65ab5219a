//! Listings computed from a finished tree: nodes ordered by total
//! size, the root's children, the largest directories, the directory
//! with a given path, and the depth check the graph view relies on.

use vstd::prelude::*;

use crate::graph::{depths_fit, in_subtree, rel_depth};
use crate::text::text_eq;
use crate::tree::{ancestry, children_ok, full_path_of, main_separator, nodes_wf, parent_ok, parents_precede, DirTree, NodeKind, TreeNode};

verus! {

/// `r` lists exactly the ids of `ids`, larger totals first and, among
/// equal totals, smaller ids first.
pub open spec fn size_order(nodes: Seq<TreeNode>, ids: Seq<usize>, r: Seq<usize>) -> bool {
    &&& r.len() == ids.len()
    &&& r.no_duplicates()
    &&& forall|j: int| 0 <= j < r.len() ==> #[trigger] ids.contains(r[j])
    &&& forall|w: int| 0 <= w < ids.len() ==> #[trigger] r.contains(ids[w])
    &&& forall|a: int, b: int|
        #![trigger r[a], r[b]]
        0 <= a < b < r.len() ==> {
            let sa = nodes[r[a] as int].cumulative_size;
            let sb = nodes[r[b] as int].cumulative_size;
            sa > sb || (sa == sb && r[a] < r[b])
        }
}

/// The ids are strictly increasing and name nodes of the arena.
pub open spec fn ascending_ids(nodes: Seq<TreeNode>, ids: Seq<usize>) -> bool {
    &&& forall|j: int| 0 <= j < ids.len() ==> #[trigger] ids[j] < nodes.len()
    &&& forall|a: int, b: int| #![trigger ids[a], ids[b]] 0 <= a < b < ids.len() ==> ids[a] < ids[b]
}

/// `x` comes before `y` in the order by size: a larger total, or the
/// same total and a smaller id.
pub open spec fn before_by_size(nodes: Seq<TreeNode>, x: usize, y: usize) -> bool {
    let sx = nodes[x as int].cumulative_size;
    let sy = nodes[y as int].cumulative_size;
    sx > sy || (sx == sy && x < y)
}

proof fn lemma_sorted_unique(nodes: Seq<TreeNode>, r1: Seq<usize>, r2: Seq<usize>)
    requires
        r1.len() == r2.len(),
        forall|x: usize| r1.contains(x) <==> r2.contains(x),
        forall|a: int, b: int| #![trigger r1[a], r1[b]] 0 <= a < b < r1.len() ==> before_by_size(nodes, r1[a], r1[b]),
        forall|a: int, b: int| #![trigger r2[a], r2[b]] 0 <= a < b < r2.len() ==> before_by_size(nodes, r2[a], r2[b]),
    ensures
        r1 == r2,
    decreases r1.len(),
{
    if r1.len() > 0 {
        let h1 = r1[0];
        let h2 = r2[0];
        assert(r1.contains(h1));
        assert(r2.contains(h2));
        if h1 != h2 {
            assert(r2.contains(h1));
            let j = choose|j: int| 0 <= j < r2.len() && r2[j] == h1;
            assert(r1.contains(h2));
            let i = choose|i: int| 0 <= i < r1.len() && r1[i] == h2;
            assert(j > 0 && i > 0);
            assert(before_by_size(nodes, r2[0], r2[j]));
            assert(before_by_size(nodes, r1[0], r1[i]));
            assert(false);
        }
        let t1 = r1.drop_first();
        let t2 = r2.drop_first();
        assert forall|x: usize| t1.contains(x) <==> t2.contains(x) by {
            if t1.contains(x) {
                let i = choose|i: int| 0 <= i < t1.len() && t1[i] == x;
                assert(r1[i + 1] == x);
                assert(before_by_size(nodes, r1[0], r1[i + 1]));
                assert(x != h1);
                assert(r1.contains(x));
                assert(r2.contains(x));
                let j = choose|j: int| 0 <= j < r2.len() && r2[j] == x;
                assert(j != 0);
                assert(t2[j - 1] == x);
            }
            if t2.contains(x) {
                let j = choose|j: int| 0 <= j < t2.len() && t2[j] == x;
                assert(r2[j + 1] == x);
                assert(before_by_size(nodes, r2[0], r2[j + 1]));
                assert(x != h2);
                assert(r2.contains(x));
                assert(r1.contains(x));
                let i = choose|i: int| 0 <= i < r1.len() && r1[i] == x;
                assert(i != 0);
                assert(t1[i - 1] == x);
            }
        }
        assert forall|a: int, b: int| #![trigger t1[a], t1[b]] 0 <= a < b < t1.len() implies before_by_size(nodes, t1[a], t1[b]) by {
            assert(t1[a] == r1[a + 1] && t1[b] == r1[b + 1]);
        }
        assert forall|a: int, b: int| #![trigger t2[a], t2[b]] 0 <= a < b < t2.len() implies before_by_size(nodes, t2[a], t2[b]) by {
            assert(t2[a] == r2[a + 1] && t2[b] == r2[b + 1]);
        }
        lemma_sorted_unique(nodes, t1, t2);
        assert(r1 =~= seq![h1] + t1);
        assert(r2 =~= seq![h2] + t2);
    } else {
        assert(r1 =~= r2);
    }
}

/// The order by size of a list of ids is unique: two orderings of the
/// same ids that both satisfy `size_order` are the same sequence.
pub proof fn lemma_size_order_unique(nodes: Seq<TreeNode>, ids: Seq<usize>, r1: Seq<usize>, r2: Seq<usize>)
    requires
        size_order(nodes, ids, r1),
        size_order(nodes, ids, r2),
    ensures
        r1 == r2,
{
    assert forall|x: usize| r1.contains(x) <==> r2.contains(x) by {
        if r1.contains(x) {
            let i = choose|i: int| 0 <= i < r1.len() && r1[i] == x;
            assert(ids.contains(r1[i]));
            let w = choose|w: int| 0 <= w < ids.len() && ids[w] == x;
            assert(r2.contains(ids[w]));
        }
        if r2.contains(x) {
            let i = choose|i: int| 0 <= i < r2.len() && r2[i] == x;
            assert(ids.contains(r2[i]));
            let w = choose|w: int| 0 <= w < ids.len() && ids[w] == x;
            assert(r1.contains(ids[w]));
        }
    }
    assert forall|a: int, b: int| #![trigger r1[a], r1[b]] 0 <= a < b < r1.len() implies before_by_size(nodes, r1[a], r1[b]) by {
    }
    assert forall|a: int, b: int| #![trigger r2[a], r2[b]] 0 <= a < b < r2.len() implies before_by_size(nodes, r2[a], r2[b]) by {
    }
    lemma_sorted_unique(nodes, r1, r2);
}

/// Pairwise sorted by size.
pub open spec fn sorted_by_size(nodes: Seq<TreeNode>, r: Seq<usize>) -> bool {
    forall|a: int, b: int| #![trigger r[a], r[b]] 0 <= a < b < r.len() ==> before_by_size(nodes, r[a], r[b])
}

/// `x` inserted into `r` before the first entry it comes before by size.
spec fn insert_by_size(nodes: Seq<TreeNode>, r: Seq<usize>, x: usize) -> Seq<usize>
    decreases r.len(),
{
    if r.len() == 0 {
        seq![x]
    } else if before_by_size(nodes, x, r[0]) {
        seq![x] + r
    } else {
        seq![r[0]] + insert_by_size(nodes, r.drop_first(), x)
    }
}

/// `ids` sorted by size, one insertion at a time.
spec fn sort_by_size(nodes: Seq<TreeNode>, ids: Seq<usize>) -> Seq<usize>
    decreases ids.len(),
{
    if ids.len() == 0 {
        Seq::empty()
    } else {
        insert_by_size(nodes, sort_by_size(nodes, ids.drop_last()), ids.last())
    }
}

proof fn lemma_insert_by_size(nodes: Seq<TreeNode>, r: Seq<usize>, x: usize)
    requires
        sorted_by_size(nodes, r),
        !r.contains(x),
    ensures
        insert_by_size(nodes, r, x).len() == r.len() + 1,
        sorted_by_size(nodes, insert_by_size(nodes, r, x)),
        forall|y: usize| #[trigger] insert_by_size(nodes, r, x).contains(y) <==> (r.contains(y) || y == x),
    decreases r.len(),
{
    let s = insert_by_size(nodes, r, x);
    if r.len() == 0 {
        assert forall|y: usize| #[trigger] s.contains(y) <==> (r.contains(y) || y == x) by {
            if s.contains(y) {
                assert(s[0] == y);
            } else if y == x {
                assert(s[0] == x);
            }
        }
    } else if before_by_size(nodes, x, r[0]) {
        assert forall|a: int, b: int| #![trigger s[a], s[b]] 0 <= a < b < s.len() implies before_by_size(nodes, s[a], s[b]) by {
            if a == 0 {
                assert(s[b] == r[b - 1]);
                if b > 1 {
                    assert(before_by_size(nodes, r[0], r[b - 1]));
                }
            } else {
                assert(s[a] == r[a - 1] && s[b] == r[b - 1]);
            }
        }
        assert forall|y: usize| #[trigger] s.contains(y) <==> (r.contains(y) || y == x) by {
            if s.contains(y) {
                let i = choose|i: int| 0 <= i < s.len() && s[i] == y;
                if i > 0 {
                    assert(r[i - 1] == y);
                }
            }
            if r.contains(y) {
                let i = choose|i: int| 0 <= i < r.len() && r[i] == y;
                assert(s[i + 1] == y);
            }
            if y == x {
                assert(s[0] == x);
            }
        }
    } else {
        let rest = r.drop_first();
        assert(sorted_by_size(nodes, rest)) by {
            assert forall|a: int, b: int| #![trigger rest[a], rest[b]] 0 <= a < b < rest.len() implies before_by_size(nodes, rest[a], rest[b]) by {
                assert(rest[a] == r[a + 1] && rest[b] == r[b + 1]);
            }
        }
        assert(!rest.contains(x)) by {
            if rest.contains(x) {
                let i = choose|i: int| 0 <= i < rest.len() && rest[i] == x;
                assert(r[i + 1] == x);
            }
        }
        lemma_insert_by_size(nodes, rest, x);
        let t = insert_by_size(nodes, rest, x);
        assert(s == seq![r[0]] + t);
        assert(x != r[0]) by {
            assert(r[0] == r[0]);
        }
        assert(before_by_size(nodes, r[0], x));
        assert forall|a: int, b: int| #![trigger s[a], s[b]] 0 <= a < b < s.len() implies before_by_size(nodes, s[a], s[b]) by {
            if a == 0 {
                assert(s[b] == t[b - 1]);
                assert(t.contains(t[b - 1]));
                if t[b - 1] != x {
                    assert(rest.contains(t[b - 1]));
                    let i = choose|i: int| 0 <= i < rest.len() && rest[i] == t[b - 1];
                    assert(r[i + 1] == t[b - 1]);
                    assert(before_by_size(nodes, r[0], r[i + 1]));
                }
            } else {
                assert(s[a] == t[a - 1] && s[b] == t[b - 1]);
            }
        }
        assert forall|y: usize| #[trigger] s.contains(y) <==> (r.contains(y) || y == x) by {
            if s.contains(y) {
                let i = choose|i: int| 0 <= i < s.len() && s[i] == y;
                if i > 0 {
                    assert(t[i - 1] == y);
                    assert(t.contains(y));
                    if rest.contains(y) {
                        let j = choose|j: int| 0 <= j < rest.len() && rest[j] == y;
                        assert(r[j + 1] == y);
                    }
                } else {
                    assert(r[0] == y);
                }
            }
            if r.contains(y) {
                let i = choose|i: int| 0 <= i < r.len() && r[i] == y;
                if i == 0 {
                    assert(s[0] == y);
                } else {
                    assert(rest[i - 1] == y);
                    assert(rest.contains(y));
                    assert(t.contains(y));
                    let j = choose|j: int| 0 <= j < t.len() && t[j] == y;
                    assert(s[j + 1] == y);
                }
            }
            if y == x {
                assert(t.contains(x));
                let j = choose|j: int| 0 <= j < t.len() && t[j] == x;
                assert(s[j + 1] == x);
            }
        }
    }
}

proof fn lemma_sort_by_size(nodes: Seq<TreeNode>, ids: Seq<usize>)
    requires
        ids.no_duplicates(),
    ensures
        size_order(nodes, ids, sort_by_size(nodes, ids)),
    decreases ids.len(),
{
    let r = sort_by_size(nodes, ids);
    if ids.len() == 0 {
    } else {
        let init = ids.drop_last();
        assert(init.no_duplicates()) by {
            assert forall|i: int, j: int| 0 <= i < j < init.len() implies init[i] != init[j] by {
                assert(init[i] == ids[i] && init[j] == ids[j]);
            }
        }
        lemma_sort_by_size(nodes, init);
        let r0 = sort_by_size(nodes, init);
        assert(sorted_by_size(nodes, r0)) by {
            assert forall|a: int, b: int| #![trigger r0[a], r0[b]] 0 <= a < b < r0.len() implies before_by_size(nodes, r0[a], r0[b]) by {
            }
        }
        let x = ids.last();
        assert(!r0.contains(x)) by {
            if r0.contains(x) {
                let i = choose|i: int| 0 <= i < r0.len() && r0[i] == x;
                assert(init.contains(r0[i]));
                let w = choose|w: int| 0 <= w < init.len() && init[w] == x;
                assert(ids[w] == ids[ids.len() - 1]);
            }
        }
        lemma_insert_by_size(nodes, r0, x);
        assert(r == insert_by_size(nodes, r0, x));
        assert(r.no_duplicates()) by {
            assert forall|i: int, j: int| 0 <= i < j < r.len() implies r[i] != r[j] by {
                assert(before_by_size(nodes, r[i], r[j]));
            }
        }
        assert forall|j: int| 0 <= j < r.len() implies #[trigger] ids.contains(r[j]) by {
            assert(r.contains(r[j]));
            if r[j] == x {
                assert(ids[ids.len() - 1] == x);
            } else {
                assert(r0.contains(r[j]));
                let i = choose|i: int| 0 <= i < r0.len() && r0[i] == r[j];
                assert(init.contains(r0[i]));
                let w = choose|w: int| 0 <= w < init.len() && init[w] == r[j];
                assert(ids[w] == r[j]);
            }
        }
        assert forall|w: int| 0 <= w < ids.len() implies #[trigger] r.contains(ids[w]) by {
            if w < ids.len() - 1 {
                assert(init[w] == ids[w]);
                assert(r0.contains(init[w]));
            }
        }
        assert forall|a: int, b: int| #![trigger r[a], r[b]] 0 <= a < b < r.len() implies ({
            let sa = nodes[r[a] as int].cumulative_size;
            let sb = nodes[r[b] as int].cumulative_size;
            sa > sb || (sa == sb && r[a] < r[b])
        }) by {
            assert(before_by_size(nodes, r[a], r[b]));
        }
    }
}

/// Every list of distinct ids has an order by size.
pub proof fn lemma_size_order_exists(nodes: Seq<TreeNode>, ids: Seq<usize>)
    requires
        ids.no_duplicates(),
    ensures
        exists|r: Seq<usize>| size_order(nodes, ids, r),
{
    lemma_sort_by_size(nodes, ids);
}

impl DirTree {
    /// `ids` reordered by total size, larger first; equal totals keep
    /// their (ascending) order.
    pub fn order_by_size(&self, ids: &Vec<usize>) -> (r: Vec<usize>)
        requires
            ascending_ids(self.nodes@, ids@),
        ensures
            size_order(self.nodes@, ids@, r@),
    {
        let ghost ch = ids@;
        let mut r: Vec<usize> = Vec::new();
        let n = ids.len();
        let mut t: usize = 0;
        while t < n
            invariant
                ch == ids@,
                ascending_ids(self.nodes@, ch),
                n == ch.len(),
                t <= n,
                r@.len() == t,
                r@.no_duplicates(),
                forall|j: int| 0 <= j < r@.len() ==> exists|w: int| 0 <= w < t && #[trigger] ch[w] == #[trigger] r@[j],
                forall|j: int| 0 <= j < r@.len() ==> #[trigger] ch.contains(r@[j]),
                forall|w: int| 0 <= w < t ==> #[trigger] r@.contains(ch[w]),
                forall|j: int| 0 <= j < r@.len() ==> #[trigger] r@[j] < self.nodes@.len(),
                forall|a: int, b: int|
                    #![trigger r@[a], r@[b]]
                    0 <= a < b < r@.len() ==> {
                        let sa = self.nodes@[r@[a] as int].cumulative_size;
                        let sb = self.nodes@[r@[b] as int].cumulative_size;
                        sa > sb || (sa == sb && r@[a] < r@[b])
                    },
            decreases n - t,
        {
            let c = ids[t];
            assert(ch[t as int] == c);
            let key = self.nodes[c].cumulative_size;
            // Insert after every element with a total >= key.
            let mut pos = r.len();
            while pos > 0 && self.nodes[r[pos - 1]].cumulative_size < key
                invariant
                    pos <= r@.len(),
                    forall|j: int| 0 <= j < r@.len() ==> #[trigger] r@[j] < self.nodes@.len(),
                    forall|j: int| pos <= j < r@.len() ==> self.nodes@[#[trigger] r@[j] as int].cumulative_size < key,
                decreases pos,
            {
                pos = pos - 1;
            }
            let ghost before = r@;
            proof {
                assert forall|j: int| 0 <= j < before.len() implies #[trigger] before[j] < c by {
                    let w = choose|w: int| 0 <= w < t && #[trigger] ch[w] == #[trigger] before[j];
                    assert(ch[w] < ch[t as int]);
                }
                assert(!before.contains(c)) by {
                    if before.contains(c) {
                        let j = choose|j: int| 0 <= j < before.len() && before[j] == c;
                        assert(before[j] < c);
                    }
                }
            }
            r.insert(pos, c);
            proof {
                assert(r@ == before.insert(pos as int, c));
                assert forall|a: int, b: int| 0 <= a < b < r@.len() implies r@[a] != r@[b] by {
                    let pa = if a < pos { a } else if a == pos { -1 } else { a - 1 };
                    let pb = if b < pos { b } else if b == pos { -1 } else { b - 1 };
                    if pa >= 0 && pb >= 0 {
                        assert(r@[a] == before[pa] && r@[b] == before[pb]);
                    } else if pa < 0 {
                        assert(r@[b] == before[pb]);
                    } else {
                        assert(r@[a] == before[pa]);
                    }
                }
                assert forall|j: int| 0 <= j < r@.len() implies exists|w: int| 0 <= w < t + 1 && #[trigger] ch[w] == #[trigger] r@[j] by {
                    if j < pos {
                        assert(r@[j] == before[j]);
                    } else if j > pos {
                        assert(r@[j] == before[j - 1]);
                    } else {
                        assert(ch[t as int] == r@[j]);
                    }
                }
                assert forall|j: int| 0 <= j < r@.len() implies #[trigger] ch.contains(r@[j]) by {
                    if j < pos {
                        assert(r@[j] == before[j]);
                    } else if j > pos {
                        assert(r@[j] == before[j - 1]);
                    } else {
                        assert(ch[t as int] == c);
                    }
                }
                assert forall|w: int| 0 <= w < t + 1 implies #[trigger] r@.contains(ch[w]) by {
                    if w == t {
                        assert(r@[pos as int] == c);
                    } else {
                        assert(before.contains(ch[w]));
                        let j = choose|j: int| 0 <= j < before.len() && before[j] == ch[w];
                        if j < pos {
                            assert(r@[j] == before[j]);
                        } else {
                            assert(r@[j + 1] == before[j]);
                        }
                    }
                }
                assert forall|a: int, b: int|
                    #![trigger r@[a], r@[b]]
                    0 <= a < b < r@.len() implies {
                        let sa = self.nodes@[r@[a] as int].cumulative_size;
                        let sb = self.nodes@[r@[b] as int].cumulative_size;
                        sa > sb || (sa == sb && r@[a] < r@[b])
                    } by {
                    if b < pos {
                        assert(r@[a] == before[a] && r@[b] == before[b]);
                    } else if b == pos {
                        assert(r@[a] == before[a]);
                        assert(before[a] < c);
                        if pos > 0 {
                            assert(before[pos - 1] == r@[pos - 1]);
                            if a < pos - 1 {
                                assert(before[a] == r@[a]);
                            }
                        }
                    } else if a == pos {
                        assert(r@[b] == before[b - 1]);
                    } else if a < pos {
                        assert(r@[a] == before[a] && r@[b] == before[b - 1]);
                    } else {
                        assert(r@[a] == before[a - 1] && r@[b] == before[b - 1]);
                    }
                }
            }
            t = t + 1;
        }
        r
    }
}

/// One child of the scan root: its name and total size.
#[derive(Debug)]
pub struct RootChild {
    pub path: String,
    pub bytes: u64,
}

/// The immediate children of the root (node 0), larger totals first;
/// empty for an empty tree.
pub fn root_children(tree: &DirTree) -> (r: Vec<RootChild>)
    requires
        tree.nodes@.len() > 0 ==> ascending_ids(tree.nodes@, tree.nodes@[0].children@),
    ensures
        tree.nodes@.len() == 0 ==> r@.len() == 0,
        tree.nodes@.len() > 0 ==> exists|ids: Seq<usize>|
            {
                &&& size_order(tree.nodes@, tree.nodes@[0].children@, ids)
                &&& r@.len() == ids.len()
                &&& forall|j: int|
                    #![trigger r@[j]]
                    0 <= j < r@.len() ==> r@[j].path@ == tree.nodes@[ids[j] as int].name@
                        && r@[j].bytes == tree.nodes@[ids[j] as int].cumulative_size
            },
{
    let mut r: Vec<RootChild> = Vec::new();
    if tree.nodes.len() == 0 {
        return r;
    }
    let ids = tree.order_by_size(&tree.nodes[0].children);
    let mut j: usize = 0;
    while j < ids.len()
        invariant
            tree.nodes@.len() > 0,
            ascending_ids(tree.nodes@, tree.nodes@[0].children@),
            size_order(tree.nodes@, tree.nodes@[0].children@, ids@),
            j <= ids@.len(),
            r@.len() == j,
            forall|q: int|
                #![trigger r@[q]]
                0 <= q < j ==> r@[q].path@ == tree.nodes@[ids@[q] as int].name@
                    && r@[q].bytes == tree.nodes@[ids@[q] as int].cumulative_size,
        decreases ids.len() - j,
    {
        let c = ids[j];
        proof {
            assert(tree.nodes@[0].children@.contains(c));
            let w = choose|w: int| 0 <= w < tree.nodes@[0].children@.len() && tree.nodes@[0].children@[w] == c;
            assert(tree.nodes@[0].children@[w] < tree.nodes@.len());
        }
        r.push(RootChild { path: tree.nodes[c].name.clone(), bytes: tree.nodes[c].cumulative_size });
        j = j + 1;
    }
    r
}

/// Ids of the directory nodes among the first `n` nodes, ascending.
pub open spec fn directory_ids(nodes: Seq<TreeNode>, n: int) -> Seq<usize>
    decreases n,
{
    if n <= 0 {
        Seq::empty()
    } else if nodes[n - 1].kind == NodeKind::Directory {
        directory_ids(nodes, n - 1).push((n - 1) as usize)
    } else {
        directory_ids(nodes, n - 1)
    }
}

proof fn lemma_directory_ids(nodes: Seq<TreeNode>, n: int)
    requires
        0 <= n <= nodes.len(),
        nodes.len() <= usize::MAX,
    ensures
        forall|j: int| 0 <= j < directory_ids(nodes, n).len() ==> #[trigger] directory_ids(nodes, n)[j] < n,
        ascending_ids(nodes, directory_ids(nodes, n)),
    decreases n,
{
    if n > 0 {
        lemma_directory_ids(nodes, n - 1);
        let prev = directory_ids(nodes, n - 1);
        if nodes[n - 1].kind == NodeKind::Directory {
            let cur = prev.push((n - 1) as usize);
            assert(cur == directory_ids(nodes, n));
            assert forall|a: int, b: int| #![trigger cur[a], cur[b]] 0 <= a < b < cur.len() implies cur[a] < cur[b] by {
                if b < prev.len() {
                    assert(cur[a] == prev[a] && cur[b] == prev[b]);
                } else {
                    assert(cur[a] == prev[a]);
                    assert(prev[a] < n - 1);
                    assert(cur[b] == n - 1);
                }
            }
        }
    }
}

/// The `top` directories with the largest totals, larger first (equal
/// totals by ascending id).
pub fn largest_directories(tree: &DirTree, top: usize) -> (r: Vec<usize>)
    ensures
        exists|all: Seq<usize>|
            size_order(tree.nodes@, directory_ids(tree.nodes@, tree.nodes@.len() as int), all)
                && r@ == all.take(if top < all.len() { top as int } else { all.len() as int }),
{
    let ghost nodes = tree.nodes@;
    let mut ids: Vec<usize> = Vec::new();
    let mut i: usize = 0;
    while i < tree.nodes.len()
        invariant
            nodes == tree.nodes@,
            i <= nodes.len(),
            ids@ == directory_ids(nodes, i as int),
        decreases tree.nodes.len() - i,
    {
        if tree.nodes[i].kind == NodeKind::Directory {
            ids.push(i);
        }
        i = i + 1;
    }
    proof {
        lemma_directory_ids(nodes, nodes.len() as int);
    }
    let mut r = tree.order_by_size(&ids);
    let ghost all = r@;
    r.truncate(top);
    assert(r@ == all.take(if top < all.len() { top as int } else { all.len() as int }));
    r
}

/// `r` is the first directory whose full path, on a platform whose main
/// separator is `sep`, is `path`, or `None` where no directory has it.
pub open spec fn first_directory_at(nodes: Seq<TreeNode>, path: Seq<char>, sep: char, r: Option<usize>) -> bool {
    match r {
        Some(i) => i < nodes.len() && nodes[i as int].kind == NodeKind::Directory
            && full_path_of(nodes, i as int, sep) == path
            && forall|j: int|
                0 <= j < i ==> !(nodes[j].kind == NodeKind::Directory
                    && #[trigger] full_path_of(nodes, j, sep) == path),
        None => forall|j: int|
            0 <= j < nodes.len() ==> !(nodes[j].kind == NodeKind::Directory
                && #[trigger] full_path_of(nodes, j, sep) == path),
    }
}

/// The first directory whose full path is `path`, on the platform this
/// runs on.
pub fn find_directory(tree: &DirTree, path: &str) -> (r: Option<usize>)
    requires
        parents_precede(tree.nodes@),
    ensures
        exists|sep: char|
            (sep == '/' || sep == '\\') && #[trigger] first_directory_at(tree.nodes@, path@, sep, r),
{
    let sep = main_separator();
    find_directory_with(tree, path, sep)
}

/// The first directory whose full path, on a platform whose main
/// separator is `sep`, is `path`.
pub fn find_directory_with(tree: &DirTree, path: &str, sep: char) -> (r: Option<usize>)
    requires
        parents_precede(tree.nodes@),
    ensures
        first_directory_at(tree.nodes@, path@, sep, r),
{
    let mut i: usize = 0;
    while i < tree.nodes.len()
        invariant
            parents_precede(tree.nodes@),
            i <= tree.nodes@.len(),
            forall|j: int|
                0 <= j < i ==> !(tree.nodes@[j].kind == NodeKind::Directory
                    && #[trigger] full_path_of(tree.nodes@, j, sep) == path@),
        decreases tree.nodes.len() - i,
    {
        if tree.nodes[i].kind == NodeKind::Directory {
            let p = tree.full_path_with(i, sep);
            if text_eq(p.as_str(), path) {
                return Some(i);
            }
        }
        i = i + 1;
    }
    None
}

impl DirTree {
    /// Whether `start` lies on the chain from node `k` up to its root.
    fn reaches(&self, k: usize, start: usize) -> (b: bool)
        requires
            self.wf(),
            k < self.nodes@.len(),
        ensures
            b == ancestry(self.nodes@, k as int).contains(start as int),
    {
        let ghost nodes = self.nodes@;
        let mut cur = k;
        loop
            invariant
                nodes == self.nodes@,
                nodes_wf(nodes),
                cur < nodes.len(),
                ancestry(nodes, k as int).contains(start as int) == ancestry(nodes, cur as int).contains(start as int),
            decreases cur,
        {
            proof {
                assert(parent_ok(nodes, cur as int));
            }
            if cur == start {
                assert(ancestry(nodes, cur as int).last() == cur as int);
                return true;
            }
            match self.nodes[cur].parent {
                Some(p) => {
                    proof {
                        let a = ancestry(nodes, p as int);
                        assert(ancestry(nodes, cur as int) == a.push(cur as int));
                        assert(a.push(cur as int).contains(start as int) ==> a.contains(start as int)) by {
                            if a.push(cur as int).contains(start as int) {
                                let w = choose|w: int| 0 <= w < a.len() + 1 && a.push(cur as int)[w] == start as int;
                                assert(w < a.len());
                                assert(a[w] == start as int);
                            }
                        }
                        assert(a.contains(start as int) ==> a.push(cur as int).contains(start as int)) by {
                            if a.contains(start as int) {
                                let w = choose|w: int| 0 <= w < a.len() && a[w] == start as int;
                                assert(a.push(cur as int)[w] == start as int);
                            }
                        }
                    }
                    cur = p;
                },
                None => {
                    assert(ancestry(nodes, cur as int) == seq![cur as int]);
                    assert(!seq![cur as int].contains(start as int)) by {
                        if seq![cur as int].contains(start as int) {
                            let w = choose|w: int| 0 <= w < 1 && seq![cur as int][w] == start as int;
                        }
                    }
                    return false;
                },
            }
        }
    }

    /// Whether every node below `start` has a depth at least that of
    /// `start` and leaves room for one more level (what the graph
    /// view needs of its start node).
    pub fn depths_fit_from(&self, start: usize) -> (b: bool)
        requires
            self.wf(),
            start < self.nodes@.len(),
        ensures
            b == depths_fit(self.nodes@, start as int),
    {
        let ghost nodes = self.nodes@;
        let base = self.nodes[start].depth;
        let mut k: usize = 0;
        while k < self.nodes.len()
            invariant
                nodes == self.nodes@,
                self.wf(),
                start < nodes.len(),
                base == nodes[start as int].depth,
                k <= nodes.len(),
                forall|j: int| 0 <= j < k ==> #[trigger] in_subtree(nodes, start as int, j)
                    ==> 0 <= rel_depth(nodes, start as int, j) < u32::MAX,
            decreases self.nodes.len() - k,
        {
            if self.reaches(k, start) {
                let d = self.nodes[k].depth;
                if d < base || d - base == u32::MAX {
                    assert(in_subtree(nodes, start as int, k as int));
                    return false;
                }
            }
            k = k + 1;
        }
        proof {
            assert forall|j: int| #[trigger] in_subtree(nodes, start as int, j) implies 0 <= rel_depth(nodes, start as int, j) < u32::MAX by {
                assert(0 <= j < nodes.len());
            }
        }
        true
    }
}

} // verus!
