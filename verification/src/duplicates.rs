//! Exact-duplicate detection.
//!
//! Files are narrowed down in three rounds: files of the same nonzero
//! size, then among those the files whose first bytes hash alike, then
//! among those the files whose whole contents hash alike. Reading the
//! files is the application's part; it hands each round's bytes or
//! hashes back to the functions here, which hash with XXH3 and decide
//! which files go on.

use std::collections::HashMap;
use vstd::prelude::*;

use xxhash_rust::xxh3::Xxh3;

verus! {

broadcast use vstd::std_specs::hash::group_hash_axioms;

/// The XXH3 64-bit hash of a byte string (`xxhash_rust::xxh3::xxh3_64`).
pub uninterp spec fn xxh3_64_of(data: Seq<u8>) -> u64;

/// `xxhash_rust::xxh3::xxh3_64`: the hash is a function of the bytes.
#[verifier::external_body]
fn xxh3_hash(data: &[u8]) -> (h: u64)
    ensures
        h == xxh3_64_of(data@),
{
    xxhash_rust::xxh3::xxh3_64(data)
}

/// The streaming XXH3 hasher.
#[verifier::external_type_specification]
#[verifier::external_body]
pub struct ExXxh3(Xxh3);

/// The bytes a streaming hasher has taken in so far.
pub uninterp spec fn xxh3_absorbed(h: Xxh3) -> Seq<u8>;

/// The hasher has the default seed (0) and the default secret, as
/// `Xxh3::new` makes it (`Xxh3::with_seed` and `with_secret` make others).
pub uninterp spec fn xxh3_default(h: Xxh3) -> bool;

/// The digest that a hasher with the default seed and secret gives for
/// everything it took in (`Xxh3::digest`).
pub uninterp spec fn xxh3_stream_digest(data: Seq<u8>) -> u64;

/// `Xxh3::new`: a hasher with the default seed and secret that has
/// taken nothing in.
#[verifier::external_body]
fn xxh3_new() -> (h: Xxh3)
    ensures
        xxh3_default(h),
        xxh3_absorbed(h) == Seq::<u8>::empty(),
{
    Xxh3::new()
}

/// `Xxh3::update`: the hasher takes in one more chunk; its seed and
/// secret stay as they were.
#[verifier::external_body]
fn xxh3_update(h: &mut Xxh3, chunk: &[u8])
    ensures
        xxh3_absorbed(*final(h)) == xxh3_absorbed(*old(h)) + chunk@,
        xxh3_default(*final(h)) == xxh3_default(*old(h)),
{
    h.update(chunk)
}

/// `Xxh3::digest`: for a hasher with the default seed and secret, the
/// digest is a function of the bytes taken in.
#[verifier::external_body]
fn xxh3_digest(h: &Xxh3) -> (d: u64)
    requires
        xxh3_default(*h),
    ensures
        d == xxh3_stream_digest(xxh3_absorbed(*h)),
{
    h.digest()
}

/// A hasher for a file's whole contents, fed chunk by chunk as the file
/// is read.
pub struct ContentHasher {
    state: Xxh3,
}

impl ContentHasher {
    /// The bytes taken in so far.
    pub closed spec fn absorbed(&self) -> Seq<u8> {
        xxh3_absorbed(self.state)
    }

    /// The hasher keeps the default seed and secret. `new` makes it so
    /// and `update` keeps it; the field is private.
    pub closed spec fn ready(&self) -> bool {
        xxh3_default(self.state)
    }

    /// A hasher that has taken nothing in.
    pub fn new() -> (h: Self)
        ensures
            h.ready(),
            h.absorbed() == Seq::<u8>::empty(),
    {
        ContentHasher { state: xxh3_new() }
    }

    /// Take in the next chunk.
    pub fn update(&mut self, chunk: &[u8])
        ensures
            final(self).ready() == old(self).ready(),
            final(self).absorbed() == old(self).absorbed() + chunk@,
    {
        xxh3_update(&mut self.state, chunk);
    }

    /// The content hash of everything taken in.
    pub fn finish(&self) -> (d: u64)
        requires
            self.ready(),
        ensures
            d == xxh3_stream_digest(self.absorbed()),
    {
        xxh3_digest(&self.state)
    }
}

/// How many leading bytes of a file the second round compares.
pub const PREFIX_BYTES: u64 = 4096;

/// The number of leading bytes read from a file of `size` bytes.
pub fn prefix_length(size: u64) -> (n: u64)
    ensures
        n == (if size < PREFIX_BYTES {
            size
        } else {
            PREFIX_BYTES
        }),
{
    if size < PREFIX_BYTES {
        size
    } else {
        PREFIX_BYTES
    }
}

/// A regular file found by the walk.
pub struct FileCandidate {
    pub path: String,
    pub name: String,
    pub size: u64,
}

/// One file of a duplicate group.
pub struct DuplicateFile {
    pub path: String,
    pub name: String,
    pub size: u64,
}

/// Files with identical contents.
pub struct DuplicateGroup {
    pub size: u64,
    pub files: Vec<DuplicateFile>,
}

/// Number of positions holding key `k`.
pub open spec fn key_count(keys: Seq<Option<u64>>, k: u64) -> nat
    decreases keys.len(),
{
    if keys.len() == 0 {
        0
    } else {
        key_count(keys.drop_last(), k) + (if keys.last() == Some(k) {
            1nat
        } else {
            0nat
        })
    }
}

/// Position `i` has a key that some other position has too.
pub open spec fn shares_key(keys: Seq<Option<u64>>, i: int) -> bool {
    keys[i] is Some && exists|j: int| 0 <= j < keys.len() && j != i && keys[j] == keys[i]
}

proof fn lemma_count_pos(keys: Seq<Option<u64>>, k: u64)
    ensures
        key_count(keys, k) >= 1 <==> exists|a: int| 0 <= a < keys.len() && keys[a] == Some(k),
    decreases keys.len(),
{
    if keys.len() > 0 {
        let d = keys.drop_last();
        lemma_count_pos(d, k);
        if exists|a: int| 0 <= a < keys.len() && keys[a] == Some(k) {
            let a = choose|a: int| 0 <= a < keys.len() && keys[a] == Some(k);
            if a < keys.len() - 1 {
                assert(d[a] == Some(k));
            }
        }
        if exists|a: int| 0 <= a < d.len() && d[a] == Some(k) {
            let a = choose|a: int| 0 <= a < d.len() && d[a] == Some(k);
            assert(keys[a] == Some(k));
        }
    }
}

proof fn lemma_count_two(keys: Seq<Option<u64>>, i: int, k: u64)
    requires
        0 <= i < keys.len(),
        keys[i] == Some(k),
    ensures
        shares_key(keys, i) <==> key_count(keys, k) >= 2,
    decreases keys.len(),
{
    let n = keys.len() - 1;
    let d = keys.drop_last();
    lemma_count_pos(d, k);
    if i == n {
        if shares_key(keys, i) {
            let j = choose|j: int| 0 <= j < keys.len() && j != i && keys[j] == keys[i];
            assert(d[j] == Some(k));
        }
        if key_count(keys, k) >= 2 {
            let a = choose|a: int| 0 <= a < d.len() && d[a] == Some(k);
            assert(keys[a] == Some(k) && a != i);
        }
    } else {
        assert(d[i] == Some(k));
        lemma_count_two(d, i, k);
        if keys[n] == Some(k) {
            assert(keys[n] == keys[i]);
            lemma_count_pos(d, k);
        } else {
            if shares_key(keys, i) {
                let j = choose|j: int| 0 <= j < keys.len() && j != i && keys[j] == keys[i];
                assert(j != n);
                assert(d[j] == keys[j]);
                assert(shares_key(d, i));
            }
            if shares_key(d, i) {
                let j = choose|j: int| 0 <= j < d.len() && j != i && d[j] == d[i];
                assert(keys[j] == keys[i]);
            }
        }
    }
}

/// For each position, whether its key is shared with another position.
pub fn shared_keys(keys: &Vec<Option<u64>>) -> (keep: Vec<bool>)
    ensures
        keep@.len() == keys@.len(),
        forall|i: int| 0 <= i < keys@.len() ==> #[trigger] keep@[i] == shares_key(keys@, i),
{
    let mut counts: HashMap<u64, u8> = HashMap::new();
    let mut i: usize = 0;
    while i < keys.len()
        invariant
            i <= keys@.len(),
            forall|k: u64|
                #![trigger counts@.contains_key(k)]
                counts@.contains_key(k) <==> key_count(keys@.take(i as int), k) >= 1,
            forall|k: u64|
                #![trigger counts@[k]]
                counts@.contains_key(k) ==> counts@[k] == (if key_count(keys@.take(i as int), k) >= 2 {
                    2u8
                } else {
                    1u8
                }),
        decreases keys.len() - i,
    {
        let ghost t = keys@.take(i as int);
        let ghost t1 = keys@.take(i + 1);
        assert(t1.drop_last() =~= t);
        let ghost before = counts@;
        if let Some(k) = keys[i] {
            let c: u8 = match counts.get(&k) {
                Some(v) => *v,
                None => 0,
            };
            let next: u8 = if c >= 1 {
                2
            } else {
                1
            };
            counts.insert(k, next);
            proof {
                lemma_count_pos(t, k);
                assert forall|q: u64| #![trigger counts@.contains_key(q)] counts@.contains_key(q) <==> key_count(t1, q) >= 1 by {
                    if q != k {
                        assert(key_count(t1, q) == key_count(t, q));
                    }
                }
                assert forall|q: u64| #![trigger counts@[q]] counts@.contains_key(q) implies counts@[q] == (if key_count(t1, q) >= 2 {
                    2u8
                } else {
                    1u8
                }) by {
                    if q != k {
                        assert(key_count(t1, q) == key_count(t, q));
                        assert(counts@[q] == before[q]);
                    }
                }
            }
        } else {
            proof {
                assert forall|q: u64| key_count(t1, q) == key_count(t, q) by {
                }
            }
        }
        i = i + 1;
    }
    assert(keys@.take(keys@.len() as int) =~= keys@);
    let mut keep: Vec<bool> = Vec::new();
    let mut j: usize = 0;
    while j < keys.len()
        invariant
            j <= keys@.len(),
            keep@.len() == j,
            forall|k: u64|
                #![trigger counts@.contains_key(k)]
                counts@.contains_key(k) <==> key_count(keys@, k) >= 1,
            forall|k: u64|
                #![trigger counts@[k]]
                counts@.contains_key(k) ==> counts@[k] == (if key_count(keys@, k) >= 2 {
                    2u8
                } else {
                    1u8
                }),
            forall|x: int| 0 <= x < j ==> #[trigger] keep@[x] == shares_key(keys@, x),
        decreases keys.len() - j,
    {
        let b = match keys[j] {
            Some(k) => {
                proof {
                    lemma_count_two(keys@, j as int, k);
                    lemma_count_pos(keys@, k);
                }
                match counts.get(&k) {
                    Some(v) => *v >= 2,
                    None => false,
                }
            },
            None => false,
        };
        keep.push(b);
        j = j + 1;
    }
    keep
}

/// The size key of a file: its size, unless it is empty.
pub open spec fn size_key(f: FileCandidate) -> Option<u64> {
    if f.size > 0 {
        Some(f.size)
    } else {
        None
    }
}

/// The size keys of all files.
pub open spec fn size_keys(files: Seq<FileCandidate>) -> Seq<Option<u64>> {
    files.map_values(|f: FileCandidate| size_key(f))
}

/// First round: the files of nonzero size that share their size with
/// another file.
pub fn size_candidates(files: &Vec<FileCandidate>) -> (keep: Vec<bool>)
    ensures
        keep@.len() == files@.len(),
        forall|i: int| 0 <= i < files@.len() ==> #[trigger] keep@[i] == shares_key(size_keys(files@), i),
{
    let mut keys: Vec<Option<u64>> = Vec::new();
    let mut i: usize = 0;
    while i < files.len()
        invariant
            i <= files@.len(),
            keys@ == size_keys(files@).take(i as int),
        decreases files.len() - i,
    {
        let f = &files[i];
        keys.push(
            if f.size > 0 {
                Some(f.size)
            } else {
                None
            },
        );
        i = i + 1;
        assert(keys@ =~= size_keys(files@).take(i as int));
    }
    assert(size_keys(files@).take(files@.len() as int) =~= size_keys(files@));
    shared_keys(&keys)
}

/// The prefix key of a file: the XXH3 hash of its leading bytes, when
/// they could be read in full.
pub open spec fn prefix_keys(prefixes: Seq<Option<Vec<u8>>>) -> Seq<Option<u64>> {
    prefixes.map_values(
        |p: Option<Vec<u8>>|
            match p {
                Some(b) => Some(xxh3_64_of(b@)),
                None => None,
            },
    )
}

/// Second round: given the leading bytes read from each file still in
/// the running (`None` for the others and for files that could not be
/// read in full), the files whose leading bytes hash like another's.
pub fn prefix_candidates(prefixes: &Vec<Option<Vec<u8>>>) -> (keep: Vec<bool>)
    ensures
        keep@.len() == prefixes@.len(),
        forall|i: int| 0 <= i < prefixes@.len() ==> #[trigger] keep@[i] == shares_key(prefix_keys(prefixes@), i),
{
    let mut keys: Vec<Option<u64>> = Vec::new();
    let mut i: usize = 0;
    while i < prefixes.len()
        invariant
            i <= prefixes@.len(),
            keys@ == prefix_keys(prefixes@).take(i as int),
        decreases prefixes.len() - i,
    {
        let k = match &prefixes[i] {
            Some(b) => Some(xxh3_hash(b.as_slice())),
            None => None,
        };
        keys.push(k);
        i = i + 1;
        assert(keys@ =~= prefix_keys(prefixes@).take(i as int));
    }
    assert(prefix_keys(prefixes@).take(prefixes@.len() as int) =~= prefix_keys(prefixes@));
    shared_keys(&keys)
}


/// The positions among the first `n` that hold key `k`, in order.
pub open spec fn positions_with(keys: Seq<Option<u64>>, k: u64, n: int) -> Seq<int>
    decreases n,
{
    if n <= 0 {
        Seq::empty()
    } else {
        let r = positions_with(keys, k, n - 1);
        if keys[n - 1] == Some(k) {
            r.push(n - 1)
        } else {
            r
        }
    }
}

/// `g` is the group of all files whose content key is `key`: at least
/// two of them, in file order, each listed with its path and name and
/// the size of the first of them.
pub open spec fn group_matches(files: Seq<FileCandidate>, keys: Seq<Option<u64>>, key: u64, g: DuplicateGroup) -> bool {
    let pos = positions_with(keys, key, keys.len() as int);
    &&& pos.len() >= 2
    &&& g.files@.len() == pos.len()
    &&& g.size == files[pos[0]].size
    &&& forall|m: int|
        #![trigger g.files@[m]]
        0 <= m < pos.len() ==> {
            &&& g.files@[m].path@ == files[pos[m]].path@
            &&& g.files@[m].name@ == files[pos[m]].name@
            &&& g.files@[m].size == g.size
        }
}

/// The duplicate groups of `files` by content key: one group per key
/// held by two or more files, each as `group_matches` says, every
/// file whose key is shared in the group of its key, larger sizes
/// first.
pub open spec fn groups_by_key(
    files: Seq<FileCandidate>,
    keys: Seq<Option<u64>>,
    out: Seq<DuplicateGroup>,
    gk: Seq<u64>,
) -> bool {
    &&& gk.len() == out.len()
    &&& gk.no_duplicates()
    &&& forall|g: int| #![trigger out[g]] 0 <= g < out.len() ==> group_matches(files, keys, gk[g], out[g])
    &&& forall|i: int| 0 <= i < keys.len() && #[trigger] shares_key(keys, i) ==> gk.contains(keys[i].unwrap())
    &&& forall|a: int, b: int| #![trigger out[a], out[b]] 0 <= a < b < out.len() ==> out[a].size >= out[b].size
}

proof fn lemma_positions(keys: Seq<Option<u64>>, k: u64, n: int)
    requires
        0 <= n <= keys.len(),
    ensures
        positions_with(keys, k, n).len() == key_count(keys.take(n), k),
        forall|m: int|
            #![trigger positions_with(keys, k, n)[m]]
            0 <= m < positions_with(keys, k, n).len() ==> 0 <= positions_with(keys, k, n)[m] < n
                && keys[positions_with(keys, k, n)[m]] == Some(k),
    decreases n,
{
    if n > 0 {
        lemma_positions(keys, k, n - 1);
        assert(keys.take(n).drop_last() =~= keys.take(n - 1));
    }
}

/// Third round: given the content hash of each file still in the
/// running (`None` for the others and for files that could not be
/// read), the groups of files with equal content hashes, larger sizes
/// first.
pub fn duplicate_groups(files: &Vec<FileCandidate>, keys: &Vec<Option<u64>>) -> (out: Vec<DuplicateGroup>)
    requires
        files@.len() == keys@.len(),
    ensures
        exists|gk: Seq<u64>| groups_by_key(files@, keys@, out@, gk),
{
    let n = keys.len();
    // Distinct keys in order of first occurrence, with their positions.
    let mut seen: Vec<u64> = Vec::new();
    let mut members: Vec<Vec<usize>> = Vec::new();
    let mut i: usize = 0;
    while i < n
        invariant
            n == keys@.len(),
            i <= n,
            seen@.len() == members@.len(),
            seen@.no_duplicates(),
            forall|h: int|
                #![trigger members@[h]]
                0 <= h < members@.len() ==> members@[h]@.map_values(|p: usize| p as int)
                    == positions_with(keys@, seen@[h], i as int) && members@[h]@.len() >= 1,
            forall|x: int| 0 <= x < i && #[trigger] keys@[x] is Some ==> seen@.contains(keys@[x].unwrap()),
            forall|h: int| 0 <= h < seen@.len() ==> exists|x: int| 0 <= x < i && #[trigger] keys@[x] == Some(#[trigger] seen@[h]),
        decreases n - i,
    {
        if let Some(k) = keys[i] {
            let mut g: usize = 0;
            while g < seen.len() && seen[g] != k
                invariant
                    g <= seen@.len(),
                    forall|h: int| 0 <= h < g ==> seen@[h] != k,
                decreases seen.len() - g,
            {
                g = g + 1;
            }
            let ghost mb = members@;
            if g < seen.len() {
                members[g].push(i);
                proof {
                    assert(seen@[g as int] == k);
                    assert forall|x: int| 0 <= x < i + 1 && #[trigger] keys@[x] is Some implies seen@.contains(keys@[x].unwrap()) by {
                        if x == i {
                            assert(seen@[g as int] == keys@[x].unwrap());
                        }
                    }
                    assert forall|h: int|
                        #![trigger members@[h]]
                        0 <= h < members@.len() implies members@[h]@.map_values(|p: usize| p as int)
                            == positions_with(keys@, seen@[h], i + 1) && members@[h]@.len() >= 1 by {
                        if h == g {
                            assert(members@[h]@.map_values(|p: usize| p as int) =~= mb[h]@.map_values(|p: usize| p as int).push(i as int));
                        } else {
                            assert(members@[h] == mb[h]);
                            assert(seen@[h] != k) by {
                                assert(seen@[g as int] == k);
                            }
                        }
                    }
                }
            } else {
                let ghost sb = seen@;
                seen.push(k);
                members.push(vec![i]);
                proof {
                    assert(!sb.contains(k));
                    assert forall|x: int| 0 <= x < i + 1 && #[trigger] keys@[x] is Some implies seen@.contains(keys@[x].unwrap()) by {
                        if x == i {
                            assert(seen@[sb.len() as int] == keys@[x].unwrap());
                        } else {
                            let w = sb.index_of(keys@[x].unwrap());
                            assert(sb.contains(keys@[x].unwrap()));
                            assert(seen@[w] == keys@[x].unwrap());
                        }
                    }
                    assert forall|h: int|
                        #![trigger members@[h]]
                        0 <= h < members@.len() implies members@[h]@.map_values(|p: usize| p as int)
                            == positions_with(keys@, seen@[h], i + 1) && members@[h]@.len() >= 1 by {
                        if h == sb.len() {
                            lemma_positions(keys@, k, i as int);
                            assert(positions_with(keys@, k, i as int).len() == 0) by {
                                lemma_count_pos(keys@.take(i as int), k);
                                if key_count(keys@.take(i as int), k) >= 1 {
                                    let a = choose|a: int| 0 <= a < keys@.take(i as int).len() && keys@.take(i as int)[a] == Some(k);
                                    assert(keys@[a] == Some(k));
                                }
                            }
                            assert(members@[h]@.map_values(|p: usize| p as int) =~= seq![i as int]);
                        } else {
                            assert(members@[h] == mb[h]);
                            assert(seen@[h] != k);
                        }
                    }
                    assert forall|h: int| 0 <= h < seen@.len() implies exists|x: int| 0 <= x < i + 1 && #[trigger] keys@[x] == Some(#[trigger] seen@[h]) by {
                        if h == sb.len() {
                            assert(keys@[i as int] == Some(seen@[h]));
                        } else {
                            assert(seen@[h] == sb[h]);
                        }
                    }
                }
            }
        } else {
            proof {
                assert forall|h: int|
                    #![trigger members@[h]]
                    0 <= h < members@.len() implies members@[h]@.map_values(|p: usize| p as int)
                        == positions_with(keys@, seen@[h], i + 1) && members@[h]@.len() >= 1 by {
                }
            }
        }
        i = i + 1;
    }
    // Build the groups of two or more, inserting each after every group
    // at least as large.
    let mut out: Vec<DuplicateGroup> = Vec::new();
    let ghost mut gk: Seq<u64> = Seq::empty();
    let mut h: usize = 0;
    while h < members.len()
        invariant
            n == keys@.len(),
            n == files@.len(),
            seen@.len() == members@.len(),
            seen@.no_duplicates(),
            h <= members@.len(),
            forall|x: int|
                #![trigger members@[x]]
                0 <= x < members@.len() ==> members@[x]@.map_values(|p: usize| p as int)
                    == positions_with(keys@, seen@[x], n as int) && members@[x]@.len() >= 1,
            forall|x: int| 0 <= x < n && #[trigger] keys@[x] is Some ==> seen@.contains(keys@[x].unwrap()),
            gk.len() == out@.len(),
            gk.no_duplicates(),
            forall|g: int| #![trigger out@[g]] 0 <= g < out@.len() ==> group_matches(files@, keys@, gk[g], out@[g]),
            forall|g: int| 0 <= g < gk.len() ==> exists|x: int| 0 <= x < h && seen@[x] == #[trigger] gk[g],
            forall|x: int| 0 <= x < h && #[trigger] members@[x]@.len() >= 2 ==> gk.contains(seen@[x]),
            forall|a: int, b: int| #![trigger out@[a], out@[b]] 0 <= a < b < out@.len() ==> out@[a].size >= out@[b].size,
        decreases members.len() - h,
    {
        if members[h].len() >= 2 {
            let ghost key = seen@[h as int];
            let ghost pos = positions_with(keys@, key, n as int);
            proof {
                lemma_positions(keys@, key, n as int);
                assert(members@[h as int]@.map_values(|p: usize| p as int) == pos);
                assert(pos[0] == members@[h as int]@[0] as int);
            }
            let first = members[h][0];
            let size = files[first].size;
            let mut list: Vec<DuplicateFile> = Vec::new();
            let mut m: usize = 0;
            while m < members[h].len()
                invariant
                    n == files@.len(),
                    h < members@.len(),
                    m <= members@[h as int]@.len(),
                    pos == members@[h as int]@.map_values(|p: usize| p as int),
                    forall|y: int| 0 <= y < pos.len() ==> 0 <= #[trigger] pos[y] < n,
                    list@.len() == m,
                    forall|y: int|
                        #![trigger list@[y]]
                        0 <= y < m ==> {
                            &&& list@[y].path@ == files@[pos[y]].path@
                            &&& list@[y].name@ == files@[pos[y]].name@
                            &&& list@[y].size == size
                        },
                decreases members@[h as int]@.len() - m,
            {
                assert(pos[m as int] == members@[h as int]@[m as int] as int);
                let f = &files[members[h][m]];
                list.push(DuplicateFile { path: f.path.clone(), name: f.name.clone(), size });
                m = m + 1;
            }
            let mut at = out.len();
            while at > 0 && out[at - 1].size < size
                invariant
                    at <= out@.len(),
                    forall|y: int| at <= y < out@.len() ==> #[trigger] out@[y].size < size,
                decreases at,
            {
                at = at - 1;
            }
            let ghost ob = out@;
            let ghost gb = gk;
            out.insert(at, DuplicateGroup { size, files: list });
            proof {
                gk = gk.insert(at as int, key);
                assert(out@ == ob.insert(at as int, out@[at as int]));
                assert(group_matches(files@, keys@, key, out@[at as int]));
                assert(!gb.contains(key)) by {
                    if gb.contains(key) {
                        let g = choose|g: int| 0 <= g < gb.len() && gb[g] == key;
                        let x = choose|x: int| 0 <= x < h && seen@[x] == #[trigger] gb[g];
                        assert(seen@[x] == seen@[h as int]);
                    }
                }
                assert forall|g: int| #![trigger out@[g]] 0 <= g < out@.len() implies group_matches(files@, keys@, gk[g], out@[g]) by {
                    if g < at {
                        assert(out@[g] == ob[g] && gk[g] == gb[g]);
                    } else if g > at {
                        assert(out@[g] == ob[g - 1] && gk[g] == gb[g - 1]);
                    }
                }
                assert forall|a: int, b: int| 0 <= a < b < gk.len() implies gk[a] != gk[b] by {
                    if a < at && b < at {
                        assert(gk[a] == gb[a] && gk[b] == gb[b]);
                    } else if a < at && b == at {
                        assert(gk[a] == gb[a]);
                    } else if a < at {
                        assert(gk[a] == gb[a] && gk[b] == gb[b - 1]);
                    } else if a == at {
                        assert(gk[b] == gb[b - 1]);
                    } else {
                        assert(gk[a] == gb[a - 1] && gk[b] == gb[b - 1]);
                    }
                }
                assert forall|g: int| 0 <= g < gk.len() implies exists|x: int| 0 <= x < h + 1 && seen@[x] == #[trigger] gk[g] by {
                    if g < at {
                        assert(gk[g] == gb[g]);
                    } else if g > at {
                        assert(gk[g] == gb[g - 1]);
                    } else {
                        assert(seen@[h as int] == gk[g]);
                    }
                }
                assert forall|x: int| 0 <= x < h + 1 && #[trigger] members@[x]@.len() >= 2 implies gk.contains(seen@[x]) by {
                    if x < h {
                        let w = choose|w: int| 0 <= w < gb.len() && gb[w] == seen@[x];
                        if w < at {
                            assert(gk[w] == gb[w]);
                        } else {
                            assert(gk[w + 1] == gb[w]);
                        }
                    } else {
                        assert(gk[at as int] == seen@[x]);
                    }
                }
                assert forall|a: int, b: int| #![trigger out@[a], out@[b]] 0 <= a < b < out@.len() implies out@[a].size >= out@[b].size by {
                    if b < at {
                        assert(out@[a] == ob[a] && out@[b] == ob[b]);
                    } else if b == at {
                        assert(out@[a] == ob[a]);
                        if at > 0 {
                            assert(ob[at - 1].size >= size);
                        }
                    } else if a == at {
                        assert(out@[b] == ob[b - 1]);
                    } else if a < at {
                        assert(out@[a] == ob[a] && out@[b] == ob[b - 1]);
                    } else {
                        assert(out@[a] == ob[a - 1] && out@[b] == ob[b - 1]);
                    }
                }
            }
        }
        h = h + 1;
    }
    proof {
        assert forall|i: int| 0 <= i < keys@.len() && #[trigger] shares_key(keys@, i) implies gk.contains(keys@[i].unwrap()) by {
            let k = keys@[i].unwrap();
            let x = seen@.index_of(k);
            assert(seen@.contains(k));
            lemma_count_two(keys@, i, k);
            lemma_positions(keys@, k, n as int);
            assert(keys@.take(n as int) =~= keys@);
            assert(members@[x]@.map_values(|p: usize| p as int) == positions_with(keys@, seen@[x], n as int));
        }
        assert(groups_by_key(files@, keys@, out@, gk));
    }
    out
}

} // verus!
