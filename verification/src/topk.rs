//! Keeping the largest files of a directory.
//!
//! A directory node does not hold one tree node per file: it keeps the
//! `k` largest files by name and size, and aggregates the rest into a
//! byte total and a count.

use vstd::prelude::*;

use crate::text::{chars_lt, chars_of, lemma_lex_irreflexive, lemma_lex_total, lemma_lex_transitive, lex_lt};
use crate::tree::FileEntry;

verus! {

/// How many files a directory node keeps by name.
pub const TOP_K: usize = 50;

/// Sum of the sizes in a list of `(name, size)` pairs.
pub open spec fn total_bytes(files: Seq<(String, u64)>) -> int
    decreases files.len(),
{
    if files.len() == 0 {
        0
    } else {
        total_bytes(files.drop_last()) + files.last().1
    }
}

/// Sum of the sizes of the files at the given positions.
pub open spec fn sum_at(files: Seq<(String, u64)>, idx: Seq<usize>) -> int
    decreases idx.len(),
{
    if idx.len() == 0 {
        0
    } else {
        sum_at(files, idx.drop_last()) + files[idx.last() as int].1
    }
}

/// Sum of the `bytes` fields of a list of entries.
pub open spec fn entries_total(top: Seq<FileEntry>) -> int
    decreases top.len(),
{
    if top.len() == 0 {
        0
    } else {
        entries_total(top.drop_last()) + top.last().bytes
    }
}

/// File `x` is smaller than file `y`: a smaller size, or the same size
/// and a name that comes first.
pub open spec fn key_lt(files: Seq<(String, u64)>, x: usize, y: usize) -> bool {
    let fx = files[x as int];
    let fy = files[y as int];
    fx.1 < fy.1 || (fx.1 == fy.1 && lex_lt(fx.0@, fy.0@))
}

/// Position `m` of `kept` holds the first of its smallest files: no
/// kept file is smaller, and every earlier one is larger.
pub open spec fn first_smallest(files: Seq<(String, u64)>, kept: Seq<usize>, m: int) -> bool {
    &&& 0 <= m < kept.len()
    &&& forall|t: int| 0 <= t < kept.len() ==> !#[trigger] key_lt(files, kept[t], kept[m])
    &&& forall|t: int| 0 <= t < m ==> #[trigger] key_lt(files, kept[m], kept[t])
}

/// The position of the kept file that a larger newcomer replaces.
pub open spec fn evicted_pos(files: Seq<(String, u64)>, kept: Seq<usize>) -> int {
    choose|m: int| first_smallest(files, kept, m)
}

/// The positions of the files kept after the first `i` files, in the
/// order of their places: while fewer than `k` are kept a file joins;
/// otherwise it replaces the first smallest kept file when it is
/// strictly larger than it.
pub open spec fn kept_after(files: Seq<(String, u64)>, k: nat, i: int) -> Seq<usize>
    decreases i,
{
    if i <= 0 {
        Seq::empty()
    } else {
        let prev = kept_after(files, k, i - 1);
        if prev.len() < k {
            prev.push((i - 1) as usize)
        } else {
            let m = evicted_pos(files, prev);
            if files[i - 1].1 > files[prev[m] as int].1 {
                prev.update(m, (i - 1) as usize)
            } else {
                prev
            }
        }
    }
}

/// `top` lists the files at positions `idx` of `files` (distinct
/// positions), `min(k, |files|)` of them, largest first, and no file
/// left out is larger than any file kept.
pub open spec fn selects(files: Seq<(String, u64)>, k: nat, top: Seq<FileEntry>, idx: Seq<usize>) -> bool {
    &&& idx.len() == top.len()
    &&& top.len() == (if files.len() < k {
        files.len()
    } else {
        k
    })
    &&& idx.no_duplicates()
    &&& forall|j: int|
        #![trigger idx[j]]
        0 <= j < idx.len() ==> {
            &&& idx[j] < files.len()
            &&& top[j].name@ == files[idx[j] as int].0@
            &&& top[j].bytes == files[idx[j] as int].1
        }
    &&& forall|a: int, b: int|
        #![trigger top[a], top[b]]
        0 <= a < b < top.len() ==> top[a].bytes >= top[b].bytes
    &&& forall|i: int, j: int|
        #![trigger files[i], top[j]]
        0 <= i < files.len() && 0 <= j < top.len() && !idx.contains(i as usize) ==> files[i].1
            <= top[j].bytes
}

/// The outcome of keeping the `k` largest of `files`: the kept entries
/// as described by `selects`, being the files `kept_after` keeps, plus
/// the byte total and count of the files that were not kept.
pub open spec fn is_top_selection(
    files: Seq<(String, u64)>,
    k: nat,
    top: Seq<FileEntry>,
    other_bytes: int,
    other_count: int,
) -> bool {
    &&& exists|idx: Seq<usize>|
        selects(files, k, top, idx) && forall|x: usize|
            #[trigger] idx.contains(x) <==> kept_after(files, k, files.len() as int).contains(x)
    &&& other_count == files.len() - top.len()
    &&& other_bytes == total_bytes(files) - entries_total(top)
}

pub proof fn lemma_total_take(files: Seq<(String, u64)>, i: int)
    requires
        0 <= i < files.len(),
    ensures
        total_bytes(files.take(i + 1)) == total_bytes(files.take(i)) + files[i].1,
{
    assert(files.take(i + 1).drop_last() =~= files.take(i));
}

pub proof fn lemma_total_prefix_le(files: Seq<(String, u64)>, i: int)
    requires
        0 <= i <= files.len(),
    ensures
        0 <= total_bytes(files.take(i)) <= total_bytes(files),
    decreases files.len() - i,
{
    if i < files.len() {
        lemma_total_take(files, i);
        lemma_total_prefix_le(files, i + 1);
    } else {
        assert(files.take(i) =~= files);
        lemma_total_nonneg(files);
    }
    lemma_total_nonneg(files.take(i));
}

pub proof fn lemma_total_nonneg(files: Seq<(String, u64)>)
    ensures
        total_bytes(files) >= 0,
    decreases files.len(),
{
    if files.len() > 0 {
        lemma_total_nonneg(files.drop_last());
    }
}

proof fn lemma_sum_at_nonneg(files: Seq<(String, u64)>, idx: Seq<usize>)
    ensures
        sum_at(files, idx) >= 0,
    decreases idx.len(),
{
    if idx.len() > 0 {
        lemma_sum_at_nonneg(files, idx.drop_last());
    }
}

proof fn lemma_sum_at_update(files: Seq<(String, u64)>, idx: Seq<usize>, m: int, v: usize)
    requires
        0 <= m < idx.len(),
    ensures
        sum_at(files, idx.update(m, v)) == sum_at(files, idx) - files[idx[m] as int].1
            + files[v as int].1,
    decreases idx.len(),
{
    if m == idx.len() - 1 {
        assert(idx.update(m, v).drop_last() =~= idx.drop_last());
    } else {
        lemma_sum_at_update(files, idx.drop_last(), m, v);
        assert(idx.update(m, v).drop_last() =~= idx.drop_last().update(m, v));
    }
}

proof fn lemma_sum_at_push(files: Seq<(String, u64)>, idx: Seq<usize>, v: usize)
    ensures
        sum_at(files, idx.push(v)) == sum_at(files, idx) + files[v as int].1,
{
    assert(idx.push(v).drop_last() =~= idx);
}

proof fn lemma_key_transitive(files: Seq<(String, u64)>, x: usize, y: usize, z: usize)
    requires
        key_lt(files, x, y),
        key_lt(files, y, z),
    ensures
        key_lt(files, x, z),
{
    let (fx, fy, fz) = (files[x as int], files[y as int], files[z as int]);
    if fx.1 == fy.1 && fy.1 == fz.1 {
        lemma_lex_transitive(fx.0@, fy.0@, fz.0@);
    }
}

proof fn lemma_key_total(files: Seq<(String, u64)>, x: usize, y: usize)
    ensures
        key_lt(files, x, y) || key_lt(files, y, x) || (files[x as int].1 == files[y as int].1
            && files[x as int].0@ == files[y as int].0@),
{
    lemma_lex_total(files[x as int].0@, files[y as int].0@);
}

proof fn lemma_first_smallest_unique(files: Seq<(String, u64)>, kept: Seq<usize>, m1: int, m2: int)
    requires
        first_smallest(files, kept, m1),
        first_smallest(files, kept, m2),
    ensures
        m1 == m2,
{
    if m1 < m2 {
        assert(key_lt(files, kept[m2], kept[m1]));
    } else if m2 < m1 {
        assert(key_lt(files, kept[m1], kept[m2]));
    }
}

/// Position of the first smallest kept file (by size, then name).
fn index_of_smallest(files: &Vec<(String, u64)>, kept: &Vec<usize>) -> (m: usize)
    requires
        kept@.len() > 0,
        forall|j: int| 0 <= j < kept@.len() ==> #[trigger] kept@[j] < files@.len(),
    ensures
        first_smallest(files@, kept@, m as int),
        forall|j: int|
            0 <= j < kept@.len() ==> files@[kept@[m as int] as int].1 <= #[trigger] files@[kept@[j]
                as int].1,
{
    let mut m: usize = 0;
    let mut j: usize = 1;
    proof {
        lemma_lex_irreflexive(files@[kept@[0] as int].0@);
    }
    while j < kept.len()
        invariant
            1 <= j <= kept@.len(),
            m < j,
            forall|t: int| 0 <= t < kept@.len() ==> #[trigger] kept@[t] < files@.len(),
            forall|t: int| 0 <= t < j ==> !#[trigger] key_lt(files@, kept@[t], kept@[m as int]),
            forall|t: int| 0 <= t < m ==> #[trigger] key_lt(files@, kept@[m as int], kept@[t]),
        decreases kept.len() - j,
    {
        let cand = &files[kept[j]];
        let best = &files[kept[m]];
        let smaller = if cand.1 < best.1 {
            true
        } else if cand.1 == best.1 {
            let a = chars_of(cand.0.as_str());
            let b = chars_of(best.0.as_str());
            chars_lt(&a, &b)
        } else {
            false
        };
        assert(smaller == key_lt(files@, kept@[j as int], kept@[m as int]));
        if smaller {
            proof {
                let fj = kept@[j as int];
                let fm = kept@[m as int];
                lemma_lex_irreflexive(files@[fj as int].0@);
                assert forall|t: int| 0 <= t < j + 1 implies !#[trigger] key_lt(files@, kept@[t], fj) by {
                    if t < j && key_lt(files@, kept@[t], fj) {
                        lemma_key_transitive(files@, kept@[t], fj, fm);
                    }
                }
                assert forall|t: int| 0 <= t < j implies #[trigger] key_lt(files@, fj, kept@[t]) by {
                    assert(!key_lt(files@, kept@[t], fm));
                    lemma_key_total(files@, fm, kept@[t]);
                    if key_lt(files@, fm, kept@[t]) {
                        lemma_key_transitive(files@, fj, fm, kept@[t]);
                    }
                }
            }
            m = j;
        }
        j = j + 1;
    }
    proof {
        assert forall|t: int| 0 <= t < kept@.len() implies files@[kept@[m as int] as int].1 <= #[trigger] files@[kept@[t] as int].1 by {
            assert(!key_lt(files@, kept@[t], kept@[m as int]));
        }
    }
    m
}

/// Keep the `k` largest of `files` (a file replaces the smallest kept
/// one only when it is strictly larger), sorted largest first, and
/// return them with the byte total and count of the others.
pub fn select_top_files(files: &Vec<(String, u64)>, k: usize) -> (r: (Vec<FileEntry>, u64, u64))
    requires
        k > 0,
        total_bytes(files@) <= u64::MAX,
    ensures
        is_top_selection(files@, k as nat, r.0@, r.1 as int, r.2 as int),
{
    let n = files.len();
    let mut kept: Vec<usize> = Vec::new();
    let mut other_bytes: u64 = 0;
    let mut other_count: u64 = 0;
    let mut i: usize = 0;
    while i < n
        invariant
            n == files@.len(),
            i <= n,
            k > 0,
            total_bytes(files@) <= u64::MAX,
            kept@.len() == (if i < k {
                i
            } else {
                k
            }),
            kept@.no_duplicates(),
            forall|j: int| 0 <= j < kept@.len() ==> #[trigger] kept@[j] < i,
            i <= k ==> forall|j: int| 0 <= j < i ==> #[trigger] kept@[j] == j,
            forall|d: int, j: int|
                #![trigger files@[d], kept@[j]]
                0 <= d < i && 0 <= j < kept@.len() && !kept@.contains(d as usize) ==> files@[d].1
                    <= files@[kept@[j] as int].1,
            other_count == i - kept@.len(),
            other_bytes + sum_at(files@, kept@) == total_bytes(files@.take(i as int)),
            kept@ == kept_after(files@, k as nat, i as int),
        decreases n - i,
    {
        proof {
            lemma_total_take(files@, i as int);
            lemma_total_prefix_le(files@, i as int + 1);
            lemma_sum_at_nonneg(files@, kept@);
        }
        let ghost old_kept = kept@;
        if kept.len() < k {
            kept.push(i);
            proof {
                lemma_sum_at_push(files@, old_kept, i);
                assert forall|d: int, j: int|
                    #![trigger files@[d], kept@[j]]
                    0 <= d < i + 1 && 0 <= j < kept@.len() && !kept@.contains(
                        d as usize,
                    ) implies files@[d].1 <= files@[kept@[j] as int].1 by {
                    if d == i {
                        assert(kept@[kept@.len() - 1] == i);
                    }
                    assert(kept@[d] == d as usize);
                }
            }
        } else {
            let m = index_of_smallest(files, &kept);
            proof {
                let e = evicted_pos(files@, kept@);
                assert(first_smallest(files@, kept@, e));
                lemma_first_smallest_unique(files@, kept@, e, m as int);
            }
            let victim = kept[m];
            if files[i].1 > files[victim].1 {
                other_bytes = other_bytes + files[victim].1;
                other_count = other_count + 1;
                kept[m] = i;
                proof {
                    lemma_sum_at_update(files@, old_kept, m as int, i);
                    assert forall|d: int, j: int|
                        #![trigger files@[d], kept@[j]]
                        0 <= d < i + 1 && 0 <= j < kept@.len() && !kept@.contains(
                            d as usize,
                        ) implies files@[d].1 <= files@[kept@[j] as int].1 by {
                        assert(files@[victim as int].1 <= files@[old_kept[j] as int].1);
                        if d == victim as int {
                        } else {
                            assert(d != i);
                            assert(!old_kept.contains(d as usize)) by {
                                if old_kept.contains(d as usize) {
                                    let w = old_kept.index_of(d as usize);
                                    assert(w != m);
                                    assert(kept@[w] == d as usize);
                                }
                            }
                            assert(files@[d].1 <= files@[victim as int].1);
                        }
                    }
                    assert forall|a: int, b: int|
                        0 <= a < b < kept@.len() implies kept@[a] != kept@[b] by {
                        if a != m as int && b != m as int {
                            assert(old_kept[a] != old_kept[b]);
                        }
                    }
                }
            } else {
                other_bytes = other_bytes + files[i].1;
                other_count = other_count + 1;
                proof {
                    assert forall|d: int, j: int|
                        #![trigger files@[d], kept@[j]]
                        0 <= d < i + 1 && 0 <= j < kept@.len() && !kept@.contains(
                            d as usize,
                        ) implies files@[d].1 <= files@[kept@[j] as int].1 by {
                        assert(files@[victim as int].1 <= files@[old_kept[j] as int].1);
                    }
                }
            }
        }
        i = i + 1;
    }
    assert(files@.take(n as int) =~= files@);
    assert(kept@ == kept_after(files@, k as nat, n as int));
    // Order the kept files largest first (selection sort).
    let len = kept.len();
    let ghost unsorted = kept@;
    let mut t: usize = 0;
    while t < len
        invariant
            len == kept@.len(),
            t <= len,
            n == files@.len(),
            kept@.no_duplicates(),
            forall|j: int| 0 <= j < len ==> #[trigger] kept@[j] < n,
            forall|x: usize| #[trigger] kept@.contains(x) <==> unsorted.contains(x),
            sum_at(files@, kept@) == sum_at(files@, unsorted),
            forall|a: int, b: int|
                #![trigger kept@[a], kept@[b]]
                0 <= a < t && a < b < len ==> files@[kept@[a] as int].1 >= files@[kept@[b] as int].1,
        decreases len - t,
    {
        let mut best = t;
        let mut j = t + 1;
        while j < len
            invariant
                len == kept@.len(),
                t < len,
                t <= best < j <= len,
                forall|x: int| 0 <= x < len ==> #[trigger] kept@[x] < n,
                n == files@.len(),
                forall|x: int|
                    t <= x < j ==> files@[kept@[best as int] as int].1 >= #[trigger] files@[kept@[x]
                        as int].1,
            decreases len - j,
        {
            if files[kept[j]].1 > files[kept[best]].1 {
                best = j;
            }
            j = j + 1;
        }
        let ghost before = kept@;
        let x = kept[t];
        let y = kept[best];
        kept[t] = y;
        kept[best] = x;
        proof {
            if best != t {
                lemma_sum_at_update(files@, before, t as int, y);
                lemma_sum_at_update(files@, before.update(t as int, y), best as int, x);
            } else {
                assert(kept@ =~= before);
            }
            assert(kept@ == before.update(t as int, y).update(best as int, x));
            assert forall|z: usize| #[trigger] kept@.contains(z) <==> before.contains(z) by {
                if kept@.contains(z) {
                    let w = kept@.index_of(z);
                    if w == t as int {
                        assert(before[best as int] == z);
                    } else if w == best as int {
                        assert(before[t as int] == z);
                    } else {
                        assert(before[w] == z);
                    }
                }
                if before.contains(z) {
                    let w = before.index_of(z);
                    if w == t as int {
                        assert(kept@[best as int] == z);
                    } else if w == best as int {
                        assert(kept@[t as int] == z);
                    } else {
                        assert(kept@[w] == z);
                    }
                }
            }
            assert forall|a: int, b: int| 0 <= a < b < len implies kept@[a] != kept@[b] by {
                let pa = if a == t as int {
                    best as int
                } else if a == best as int {
                    t as int
                } else {
                    a
                };
                let pb = if b == t as int {
                    best as int
                } else if b == best as int {
                    t as int
                } else {
                    b
                };
                assert(kept@[a] == before[pa]);
                assert(kept@[b] == before[pb]);
                assert(pa != pb);
            }
        }
        t = t + 1;
    }
    // Build the entries.
    let mut top: Vec<FileEntry> = Vec::new();
    let mut j: usize = 0;
    while j < len
        invariant
            len == kept@.len(),
            j <= len,
            n == files@.len(),
            forall|x: int| 0 <= x < len ==> #[trigger] kept@[x] < n,
            top@.len() == j,
            forall|x: int|
                #![trigger top@[x]]
                0 <= x < j ==> top@[x].name@ == files@[kept@[x] as int].0@ && top@[x].bytes
                    == files@[kept@[x] as int].1,
            entries_total(top@) == sum_at(files@, kept@.take(j as int)),
        decreases len - j,
    {
        let f = &files[kept[j]];
        let ghost prev = top@;
        top.push(FileEntry { name: f.0.clone(), bytes: f.1 });
        proof {
            assert(top@.drop_last() =~= prev);
            assert(kept@.take(j + 1).drop_last() =~= kept@.take(j as int));
        }
        j = j + 1;
    }
    proof {
        assert(kept@.take(len as int) =~= kept@);
        assert forall|i: int, x: int|
            #![trigger files@[i], top@[x]]
            0 <= i < n && 0 <= x < len && !kept@.contains(i as usize) implies files@[i].1
                <= top@[x].bytes by {
            assert(!unsorted.contains(i as usize));
            let w = unsorted.index_of(kept@[x]);
            assert(kept@.contains(kept@[x]));
            assert(unsorted[w] == kept@[x]);
        }
        assert(selects(files@, k as nat, top@, kept@));
        assert forall|x: usize| #[trigger] kept@.contains(x) <==> kept_after(files@, k as nat, n as int).contains(x) by {
            assert(kept@.contains(x) <==> unsorted.contains(x));
        }
    }
    (top, other_bytes, other_count)
}

} // verus!
