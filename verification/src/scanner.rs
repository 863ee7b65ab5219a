//! The bookkeeping of a parallel scan.
//!
//! A coordinator owns the directory tree: it assigns node ids, hands
//! out work items (one per directory to read), takes back what a
//! worker found in one directory, and decides what to read next. The
//! reading itself, the worker threads and the channels between them
//! belong to the application; they talk to the coordinator through
//! the plain values defined here.

use std::collections::VecDeque;
use std::path::PathBuf;
use std::time::Duration;
use vstd::prelude::*;

use crate::config::{path_text, ScanConfig};
use crate::event::{ScanError, ScanEvent, ScanResult, ScanStats};
use crate::topk::{is_top_selection, select_top_files, total_bytes, TOP_K};
use crate::tree::{
    aggregated, lemma_own_sizes_change, lemma_own_sizes_frame, lemma_root_total_is_sum_of_sizes, nodes_wf, own_sizes, parents_list_children, rooted_at_first,
    totals_fit, DirTree, NodeKind, TreeNode,
};

verus! {

/// Scanner entry point. The application starts a scan on it: it
/// spawns the workers and runs a [`Coordinator`].
pub struct Scanner;

/// A unit of work: one directory to read.
pub struct WorkItem {
    /// Node id of the directory in the tree (already allocated).
    pub node_id: usize,
    /// Full path to the directory to read.
    pub path: PathBuf,
    /// Depth relative to scan root.
    pub depth: u32,
}

/// What one worker found in one directory.
pub struct DirectoryResult {
    /// Node id of the directory in the tree.
    pub node_id: usize,
    /// Full path of the directory that was read.
    pub path: PathBuf,
    /// Depth of this directory.
    pub depth: u32,
    /// Files found: `(name, size)`.
    pub files: Vec<(String, u64)>,
    /// Subdirectories found: `(name, full path)`.
    pub subdirs: Vec<(String, PathBuf)>,
    /// Errors encountered reading this directory.
    pub errors: Vec<ScanError>,
}

impl DirectoryResult {
    /// An empty result for a work item: nothing found yet.
    pub fn new(item: WorkItem) -> (r: Self)
        ensures
            r.node_id == item.node_id,
            r.path == item.path,
            r.depth == item.depth,
            r.files@.len() == 0,
            r.subdirs@.len() == 0,
            r.errors@.len() == 0,
    {
        DirectoryResult {
            node_id: item.node_id,
            path: item.path,
            depth: item.depth,
            files: Vec::new(),
            subdirs: Vec::new(),
            errors: Vec::new(),
        }
    }

    /// Total bytes of the files found.
    pub open spec fn bytes_of(&self) -> int {
        total_bytes(self.files@)
    }

    /// Total bytes of the files found, or `None` when the total does
    /// not fit in a `u64`.
    pub fn bytes(&self) -> (b: Option<u64>)
        ensures
            b matches Some(v) ==> v == self.bytes_of(),
            b is None ==> self.bytes_of() > u64::MAX,
    {
        let mut sum: u64 = 0;
        let mut i: usize = 0;
        while i < self.files.len()
            invariant
                i <= self.files@.len(),
                sum == total_bytes(self.files@.take(i as int)),
            decreases self.files.len() - i,
        {
            proof {
                crate::topk::lemma_total_take(self.files@, i as int);
            }
            if self.files[i].1 > u64::MAX - sum {
                proof {
                    crate::topk::lemma_total_prefix_le(self.files@, i as int + 1);
                }
                return None;
            }
            sum = sum + self.files[i].1;
            i = i + 1;
        }
        assert(self.files@.take(i as int) =~= self.files@);
        Some(sum)
    }
}

/// How a directory entry is treated, from what its metadata says.
#[derive(Debug, Clone, Copy, PartialEq, Eq, Structural)]
pub enum EntryAction {
    /// A symbolic link or reparse point that is not followed.
    Skip,
    /// A directory to descend into.
    Descend,
    /// A regular file to count.
    Count,
    /// Anything else (device, pipe, socket): ignored.
    Ignore,
}

/// Decide what to do with one directory entry. Links (symlinks, or on
/// Windows any reparse point) are skipped unless links are followed;
/// then directories are descended into and regular files counted.
pub fn classify_entry(is_link: bool, is_dir: bool, is_file: bool, follow_links: bool) -> (a: EntryAction)
    ensures
        a == (if is_link && !follow_links {
            EntryAction::Skip
        } else if is_dir {
            EntryAction::Descend
        } else if is_file {
            EntryAction::Count
        } else {
            EntryAction::Ignore
        }),
{
    if is_link && !follow_links {
        EntryAction::Skip
    } else if is_dir {
        EntryAction::Descend
    } else if is_file {
        EntryAction::Count
    } else {
        EntryAction::Ignore
    }
}

/// The Windows long-path form of a path text: the `\\?\` prefix is
/// prepended unless the text already starts with `\\?\` or `\\.\`.
pub open spec fn long_path_text(s: Seq<char>) -> Seq<char> {
    let verbatim = seq!['\\', '\\', '?', '\\'];
    let device = seq!['\\', '\\', '.', '\\'];
    if s.len() >= 4 && (s.take(4) == verbatim || s.take(4) == device) {
        s
    } else {
        verbatim + s
    }
}

/// Prefix a path text with `\\?\` so that Windows accepts paths longer
/// than 260 characters; device and verbatim paths are left alone.
pub fn long_path(s: &str) -> (r: String)
    ensures
        r@ == long_path_text(s@),
{
    let cs = crate::text::chars_of(s);
    let verbatim = cs.len() >= 4 && cs[0] == '\\' && cs[1] == '\\' && cs[2] == '?' && cs[3]
        == '\\';
    let device = cs.len() >= 4 && cs[0] == '\\' && cs[1] == '\\' && cs[2] == '.' && cs[3]
        == '\\';
    proof {
        if cs@.len() >= 4 {
            assert(verbatim == (cs@.take(4) == seq!['\\', '\\', '?', '\\'])) by {
                if verbatim {
                    assert(cs@.take(4) =~= seq!['\\', '\\', '?', '\\']);
                }
                if cs@.take(4) == seq!['\\', '\\', '?', '\\'] {
                    assert(cs@.take(4)[2] == '?');
                }
            }
            assert(device == (cs@.take(4) == seq!['\\', '\\', '.', '\\'])) by {
                if device {
                    assert(cs@.take(4) =~= seq!['\\', '\\', '.', '\\']);
                }
                if cs@.take(4) == seq!['\\', '\\', '.', '\\'] {
                    assert(cs@.take(4)[2] == '.');
                }
            }
        }
    }
    if verbatim || device {
        crate::text::owned(s)
    } else {
        let mut out: Vec<char> = vec!['\\', '\\', '?', '\\'];
        let mut i: usize = 0;
        while i < cs.len()
            invariant
                i <= cs@.len(),
                out@ == seq!['\\', '\\', '?', '\\'] + cs@.take(i as int),
            decreases cs.len() - i,
        {
            out.push(cs[i]);
            i = i + 1;
            assert(out@ =~= seq!['\\', '\\', '?', '\\'] + cs@.take(i as int));
        }
        assert(cs@.take(cs@.len() as int) =~= cs@);
        crate::text::string_from_chars(out.as_slice())
    }
}

/// Whether a directory at `depth` may still be descended into.
pub open spec fn within_depth(max_depth: Option<usize>, depth: u32) -> bool {
    match max_depth {
        Some(max) => (depth as int) < (max as int),
        None => true,
    }
}

/// The tree node a scan adds for a subdirectory it will read.
pub open spec fn is_new_dir_node(n: TreeNode, name: String, parent: usize, depth: u32) -> bool {
    &&& n.name@ == name@
    &&& n.kind == NodeKind::Directory
    &&& n.parent == Some(parent)
    &&& n.size == 0
    &&& n.cumulative_size == 0
    &&& n.depth == depth
    &&& n.children@.len() == 0
    &&& n.top_files@.len() == 0
    &&& n.other_files_bytes == 0
    &&& n.other_files_count == 0
}

/// The coordinator's state: the tree under construction, statistics,
/// the errors gathered, the number of directories handed out and not
/// yet reported back, the directories waiting to be handed out, and,
/// per node, whether its directory's result is still due.
pub struct Coordinator {
    tree: DirTree,
    stats: ScanStats,
    errors: Vec<ScanError>,
    pending: usize,
    outbox: VecDeque<WorkItem>,
    max_depth: Option<usize>,
    awaiting: Vec<bool>,
}

/// Adding a node under an existing one keeps every node below the root.
proof fn lemma_rooted_after_add(before: Seq<TreeNode>, after: Seq<TreeNode>, p: int)
    requires
        rooted_at_first(before),
        parents_list_children(after),
        0 <= p < before.len(),
        after.len() == before.len() + 1,
        after[before.len() as int].parent == Some(p as usize),
        after[p].parent == before[p].parent,
        forall|i: int| 0 <= i < before.len() && i != p ==> #[trigger] after[i] == before[i],
    ensures
        rooted_at_first(after),
{
    assert forall|i: int| 0 < i < after.len() implies #[trigger] after[i].parent is Some by {
        if i < before.len() && i != p {
            assert(after[i] == before[i]);
        }
    }
    if p != 0 {
        assert(after[0] == before[0]);
    }
}

impl Coordinator {
    /// The tree under construction is well formed and every node hangs
    /// below the root; a node whose result is still due has no own size
    /// yet; and the byte total is the sum of the nodes' own sizes.
    /// `new` establishes this and every method keeps it; the fields are
    /// private, so every coordinator a caller holds satisfies it.
    pub closed spec fn wf(&self) -> bool {
        &&& self.tree.wf()
        &&& rooted_at_first(self.tree.nodes@)
        &&& self.awaiting@.len() == self.tree.nodes@.len()
        &&& forall|i: int|
            0 <= i < self.awaiting@.len() && #[trigger] self.awaiting@[i] ==> self.tree.nodes@[i].size == 0
        &&& self.stats.total_bytes == own_sizes(self.tree.nodes@, self.tree.nodes@.len() as int)
    }

    /// For each node, whether its directory's result is still due.
    pub closed spec fn awaiting_of(&self) -> Seq<bool> {
        self.awaiting@
    }

    /// The nodes of the tree under construction.
    pub closed spec fn nodes(&self) -> Seq<TreeNode> {
        self.tree.nodes@
    }

    /// The statistics so far.
    pub closed spec fn stats_of(&self) -> ScanStats {
        self.stats
    }

    /// The errors gathered so far.
    pub closed spec fn errors_of(&self) -> Seq<ScanError> {
        self.errors@
    }

    /// Directories handed out (or waiting) whose result is still due.
    pub closed spec fn pending_of(&self) -> usize {
        self.pending
    }

    /// Directories waiting to be handed out, first to go first.
    pub closed spec fn outbox_of(&self) -> Seq<WorkItem> {
        self.outbox@
    }

    /// The depth limit of the scan.
    pub closed spec fn max_depth_of(&self) -> Option<usize> {
        self.max_depth
    }

    /// Start a scan of `config.root`: the tree holds the root
    /// directory (named after the root path, depth 0), one directory
    /// is counted, and reading the root is the one pending work item.
    pub fn new(config: &ScanConfig) -> (c: Self)
        ensures
            c.wf(),
            c.nodes().len() == 1,
            c.nodes()[0].kind == NodeKind::Directory,
            c.nodes()[0].parent is None,
            c.nodes()[0].size == 0,
            c.nodes()[0].depth == 0,
            c.nodes()[0].children@.len() == 0,
            c.stats_of().total_dirs == 1,
            c.stats_of().total_files == 0,
            c.stats_of().total_bytes == 0,
            c.stats_of().error_count == 0,
            !c.stats_of().cancelled,
            c.errors_of().len() == 0,
            c.pending_of() == 1,
            c.outbox_of().len() == 1,
            c.outbox_of()[0].node_id == 0,
            c.outbox_of()[0].path == config.root,
            c.outbox_of()[0].depth == 0,
            c.max_depth_of() == config.max_depth,
            c.awaiting_of() == seq![true],
    {
        let mut tree = DirTree::new();
        let root_name = path_text(&config.root);
        let root_id = tree.add_node(root_name, NodeKind::Directory, None, 0, 0);
        assert(parents_list_children(tree.nodes@));
        let mut stats = ScanStats::default();
        stats.total_dirs = 1;
        let mut outbox: VecDeque<WorkItem> = VecDeque::new();
        outbox.push_back(WorkItem { node_id: root_id, path: config.root.clone(), depth: 0 });
        let awaiting = vec![true];
        assert(own_sizes(tree.nodes@, 0) == 0);
        assert(own_sizes(tree.nodes@, 1) == 0);
        Coordinator { tree, stats, errors: Vec::new(), pending: 1, outbox, max_depth: config.max_depth, awaiting }
    }

    /// Number of directory results still due.
    pub fn pending(&self) -> (p: usize)
        ensures
            p == self.pending_of(),
    {
        self.pending
    }

    /// Take the next directory to hand out, if any.
    pub fn next_work(&mut self) -> (w: Option<WorkItem>)
        requires
            old(self).wf(),
        ensures
            final(self).wf(),
            old(self).outbox_of().len() == 0 ==> w is None && final(self).outbox_of().len() == 0,
            old(self).outbox_of().len() > 0 ==> w == Some(old(self).outbox_of()[0])
                && final(self).outbox_of() == old(self).outbox_of().drop_first(),
            final(self).nodes() == old(self).nodes(),
            final(self).stats_of() == old(self).stats_of(),
            final(self).errors_of() == old(self).errors_of(),
            final(self).pending_of() == old(self).pending_of(),
            final(self).max_depth_of() == old(self).max_depth_of(),
            final(self).awaiting_of() == old(self).awaiting_of(),
    {
        self.outbox.pop_front()
    }

    /// Put back a directory that could not be handed out yet; it goes
    /// out first next time.
    pub fn return_work(&mut self, item: WorkItem)
        requires
            old(self).wf(),
        ensures
            final(self).wf(),
            final(self).outbox_of() == seq![item] + old(self).outbox_of(),
            final(self).nodes() == old(self).nodes(),
            final(self).stats_of() == old(self).stats_of(),
            final(self).errors_of() == old(self).errors_of(),
            final(self).pending_of() == old(self).pending_of(),
            final(self).max_depth_of() == old(self).max_depth_of(),
            final(self).awaiting_of() == old(self).awaiting_of(),
    {
        self.outbox.push_front(item);
        assert(self.outbox@ =~= seq![item] + old(self).outbox@);
    }

    /// A handed-out directory whose result will never come back (the
    /// workers are gone): it is no longer pending.
    pub fn work_lost(&mut self)
        requires
            old(self).wf(),
            old(self).pending_of() > 0,
        ensures
            final(self).wf(),
            final(self).pending_of() == old(self).pending_of() - 1,
            final(self).outbox_of() == old(self).outbox_of(),
            final(self).nodes() == old(self).nodes(),
            final(self).stats_of() == old(self).stats_of(),
            final(self).errors_of() == old(self).errors_of(),
            final(self).max_depth_of() == old(self).max_depth_of(),
            final(self).awaiting_of() == old(self).awaiting_of(),
    {
        self.pending = self.pending - 1;
    }

    /// Whether reporting `r` makes the scan descend into its
    /// subdirectories.
    pub open spec fn descends(&self, r: &DirectoryResult, cancelled: bool) -> bool {
        !cancelled && within_depth(self.max_depth_of(), r.depth)
    }

    /// Number of subdirectories that reporting `r` adds to the scan.
    pub open spec fn spawned(&self, r: &DirectoryResult, cancelled: bool) -> nat {
        if self.descends(r, cancelled) {
            r.subdirs@.len()
        } else {
            0
        }
    }

    /// Reporting `r` is possible: a result is due, its node exists and
    /// its result is still due, and no counter overflows.
    pub open spec fn can_absorb_spec(&self, r: &DirectoryResult, cancelled: bool) -> bool {
        &&& self.pending_of() > 0
        &&& r.node_id < self.nodes().len()
        &&& r.node_id < self.awaiting_of().len() && self.awaiting_of()[r.node_id as int]
        &&& r.depth < u32::MAX
        &&& self.stats_of().error_count + r.errors@.len() <= u64::MAX
        &&& self.stats_of().total_files + r.files@.len() <= u64::MAX
        &&& self.stats_of().total_bytes + r.bytes_of() <= u64::MAX
        &&& self.stats_of().total_dirs + self.spawned(r, cancelled) <= u64::MAX
        &&& self.pending_of() - 1 + self.spawned(r, cancelled) <= usize::MAX
        &&& self.nodes().len() + self.spawned(r, cancelled) < usize::MAX
    }

    /// Exact test of `can_absorb_spec`.
    pub fn can_absorb(&self, r: &DirectoryResult, cancelled: bool) -> (b: bool)
        ensures
            b == self.can_absorb_spec(r, cancelled),
    {
        let descend = !cancelled && match self.max_depth {
            Some(max) => (r.depth as usize) < max,
            None => true,
        };
        let spawned: usize = if descend {
            r.subdirs.len()
        } else {
            0
        };
        let bytes = match r.bytes() {
            Some(b) => b,
            None => {
                return false;
            },
        };
        self.pending > 0 && r.node_id < self.tree.nodes.len() && r.node_id < self.awaiting.len()
            && self.awaiting[r.node_id] && r.depth < u32::MAX
            && r.errors.len() as u64 <= u64::MAX - self.stats.error_count && r.files.len() as u64
            <= u64::MAX - self.stats.total_files && bytes <= u64::MAX - self.stats.total_bytes
            && spawned as u64 <= u64::MAX - self.stats.total_dirs && spawned <= usize::MAX - (
        self.pending - 1) && spawned < usize::MAX - self.tree.nodes.len()
    }

    /// Take in what a worker found in one directory.
    ///
    /// The directory is no longer pending; its errors are recorded and
    /// counted; its node gets the directory's direct-file bytes as own
    /// size, keeps the `TOP_K` largest files by name and aggregates
    /// the others; the file and byte totals grow. Unless the scan is
    /// cancelled or the directory is at the depth limit, every
    /// subdirectory becomes a new directory node under it and a new
    /// pending work item. Returns the events to emit: one `Error` per
    /// error, then `DirScanned` with the running byte total.
    #[verifier::spinoff_prover]
    #[verifier::rlimit(40)]
    pub fn process_result(&mut self, r: DirectoryResult, cancelled: bool) -> (events: Vec<ScanEvent>)
        requires
            old(self).wf(),
            old(self).can_absorb_spec(&r, cancelled),
        ensures
            final(self).wf(),
            ({
                let o = *old(self);
                let f = *final(self);
                let id = r.node_id as int;
                let base = o.nodes().len();
                let k = o.spawned(&r, cancelled);
                &&& f.pending_of() == o.pending_of() - 1 + k
                &&& f.errors_of() == o.errors_of() + r.errors@
                &&& f.max_depth_of() == o.max_depth_of()
                &&& f.stats_of().error_count == o.stats_of().error_count + r.errors@.len()
                &&& f.stats_of().total_files == o.stats_of().total_files + r.files@.len()
                &&& f.stats_of().total_bytes == o.stats_of().total_bytes + r.bytes_of()
                &&& f.stats_of().total_dirs == o.stats_of().total_dirs + k
                &&& f.stats_of().elapsed == o.stats_of().elapsed
                &&& f.stats_of().cancelled == o.stats_of().cancelled
                &&& f.nodes().len() == base + k
                &&& f.nodes()[id].size == r.bytes_of()
                &&& f.awaiting_of() == o.awaiting_of().update(id, false) + Seq::new(k, |m: int| true)
                &&& is_top_selection(
                    r.files@,
                    TOP_K as nat,
                    f.nodes()[id].top_files@,
                    f.nodes()[id].other_files_bytes as int,
                    f.nodes()[id].other_files_count as int,
                )
                &&& f.nodes()[id].children@ == o.nodes()[id].children@ + Seq::new(
                    k,
                    |m: int| (base + m) as usize,
                )
                &&& f.nodes()[id].name == o.nodes()[id].name
                &&& f.nodes()[id].kind == o.nodes()[id].kind
                &&& f.nodes()[id].parent == o.nodes()[id].parent
                &&& f.nodes()[id].cumulative_size == o.nodes()[id].cumulative_size
                &&& f.nodes()[id].depth == o.nodes()[id].depth
                &&& forall|j: int| 0 <= j < base && j != id ==> #[trigger] f.nodes()[j] == o.nodes()[j]
                &&& forall|m: int|
                    0 <= m < k ==> is_new_dir_node(
                        #[trigger] f.nodes()[base + m],
                        r.subdirs@[m].0,
                        r.node_id,
                        (r.depth + 1) as u32,
                    )
                &&& f.outbox_of().len() == o.outbox_of().len() + k
                &&& forall|m: int|
                    0 <= m < o.outbox_of().len() ==> #[trigger] f.outbox_of()[m] == o.outbox_of()[m]
                &&& forall|m: int|
                    0 <= m < k ==> #[trigger] f.outbox_of()[o.outbox_of().len() + m] == (WorkItem {
                        node_id: (base + m) as usize,
                        path: r.subdirs@[m].1,
                        depth: (r.depth + 1) as u32,
                    })
                &&& events@.len() == r.errors@.len() + 1
                &&& forall|m: int|
                    0 <= m < r.errors@.len() ==> #[trigger] events@[m] == (ScanEvent::Error {
                        path: r.errors@[m].path,
                        error: r.errors@[m].message,
                    })
            }),
            events@.last() == (ScanEvent::DirScanned {
                path: r.path,
                files: r.files@.len() as u64,
                dirs: r.subdirs@.len() as u64,
                bytes_so_far: final(self).stats_of().total_bytes,
            }),
    {
        let ghost r0 = r;
        proof {
            crate::topk::lemma_total_nonneg(r.files@);
        }
        let ghost o_nodes = self.tree.nodes@;
        let ghost o_outbox = self.outbox@;
        let ghost o_errors = self.errors@;
        let ghost k = old(self).spawned(&r, cancelled);
        // This directory is done.
        self.pending = self.pending - 1;

        let bytes = match r.bytes() {
            Some(b) => b,
            None => 0,
        };
        let file_count = r.files.len() as u64;
        let dir_count = r.subdirs.len() as u64;
        let DirectoryResult { node_id, path, depth, files, subdirs, errors } = r;

        // Record errors.
        let mut events: Vec<ScanEvent> = Vec::new();
        let mut e: usize = 0;
        while e < errors.len()
            invariant
                e <= errors@.len(),
                events@.len() == e,
                forall|m: int|
                    0 <= m < e ==> #[trigger] events@[m] == (ScanEvent::Error {
                        path: errors@[m].path,
                        error: errors@[m].message,
                    }),
            decreases errors.len() - e,
        {
            events.push(
                ScanEvent::Error { path: errors[e].path.clone(), error: errors[e].message.clone() },
            );
            e = e + 1;
        }
        self.stats.error_count = self.stats.error_count + errors.len() as u64;
        let mut errors = errors;
        self.errors.append(&mut errors);

        // Keep the largest files by name, aggregate the rest.
        let child_depth = depth + 1;
        let (top_files, other_bytes, other_count) = select_top_files(&files, TOP_K);
        self.tree.nodes[node_id].size = bytes;
        self.tree.nodes[node_id].top_files = top_files;
        self.tree.nodes[node_id].other_files_bytes = other_bytes;
        self.tree.nodes[node_id].other_files_count = other_count;
        assert(nodes_wf(self.tree.nodes@)) by {
            assert forall|j: int| #![trigger self.tree.nodes@[j]] 0 <= j < self.tree.nodes@.len()
                implies crate::tree::parent_ok(self.tree.nodes@, j) && crate::tree::children_ok(
                self.tree.nodes@,
                j,
            ) by {
                assert(crate::tree::parent_ok(o_nodes, j));
                assert(crate::tree::children_ok(o_nodes, j));
                assert forall|x: int| 0 <= x < o_nodes[j].children@.len() implies #[trigger] self.tree.nodes@[o_nodes[j].children@[x] as int].parent == o_nodes[o_nodes[j].children@[x] as int].parent by {
                }
            }
        }
        assert(rooted_at_first(self.tree.nodes@)) by {
            let nn = self.tree.nodes@;
            assert(rooted_at_first(o_nodes));
            assert forall|i: int| 0 < i < nn.len() implies #[trigger] nn[i].parent is Some by {
                assert(o_nodes[i].parent is Some);
            }
            assert forall|i: int|
                #![trigger nn[i].parent]
                0 <= i < nn.len() && nn[i].parent is Some implies nn[nn[i].parent.unwrap() as int].children@.contains(
                i as usize,
            ) by {
                assert(o_nodes[i].parent == nn[i].parent);
                assert(o_nodes[o_nodes[i].parent.unwrap() as int].children@.contains(i as usize));
            }
        }

        self.awaiting.set(node_id, false);
        proof {
            lemma_own_sizes_change(o_nodes, self.tree.nodes@, node_id as int, o_nodes.len() as int);
        }
        self.stats.total_files = self.stats.total_files + file_count;
        self.stats.total_bytes = self.stats.total_bytes + bytes;
        let ghost mid_awaiting = self.awaiting@;

        let ghost mid_nodes = self.tree.nodes@;
        // Descend into subdirectories unless cancelled or at the limit.
        if !cancelled {
            let within = match self.max_depth {
                Some(max) => (depth as usize) < max,
                None => true,
            };
            if within {
                let base = self.tree.nodes.len();
                let mut m: usize = 0;
                while m < subdirs.len()
                    invariant
                        self.tree.wf(),
                        rooted_at_first(self.tree.nodes@),
                        self.awaiting@ == mid_awaiting + Seq::new(m as nat, |x: int| true),
                        mid_awaiting.len() == base,
                        forall|i: int|
                            0 <= i < self.awaiting@.len() && #[trigger] self.awaiting@[i]
                                ==> self.tree.nodes@[i].size == 0,
                        self.stats.total_bytes == own_sizes(self.tree.nodes@, self.tree.nodes@.len() as int),
                        m <= subdirs@.len(),
                        k == subdirs@.len(),
                        base == mid_nodes.len(),
                        node_id < base,
                        child_depth == depth + 1,
                        self.tree.nodes@.len() == base + m,
                        base + subdirs@.len() < usize::MAX,
                        self.stats.total_dirs == old(self).stats_of().total_dirs + m,
                        self.errors@ == old(self).errors_of() + r0.errors@,
                        self.max_depth == old(self).max_depth_of(),
                        self.stats.error_count == old(self).stats_of().error_count + r0.errors@.len(),
                        self.stats.total_files == old(self).stats_of().total_files + r0.files@.len(),
                        self.stats.total_bytes == old(self).stats_of().total_bytes + r0.bytes_of(),
                        self.stats.elapsed == old(self).stats_of().elapsed,
                        self.stats.cancelled == old(self).stats_of().cancelled,
                        subdirs@ == r0.subdirs@,
                        old(self).stats_of().total_dirs + k <= u64::MAX,
                        self.pending == old(self).pending_of() - 1 + m,
                        old(self).pending_of() - 1 + k <= usize::MAX,
                        self.tree.nodes@[node_id as int].children@ == mid_nodes[node_id as int].children@
                            + Seq::new(m as nat, |x: int| (base + x) as usize),
                        self.tree.nodes@[node_id as int].name == mid_nodes[node_id as int].name,
                        self.tree.nodes@[node_id as int].kind == mid_nodes[node_id as int].kind,
                        self.tree.nodes@[node_id as int].parent == mid_nodes[node_id as int].parent,
                        self.tree.nodes@[node_id as int].size == mid_nodes[node_id as int].size,
                        self.tree.nodes@[node_id as int].cumulative_size
                            == mid_nodes[node_id as int].cumulative_size,
                        self.tree.nodes@[node_id as int].depth == mid_nodes[node_id as int].depth,
                        self.tree.nodes@[node_id as int].top_files == mid_nodes[node_id as int].top_files,
                        self.tree.nodes@[node_id as int].other_files_bytes
                            == mid_nodes[node_id as int].other_files_bytes,
                        self.tree.nodes@[node_id as int].other_files_count
                            == mid_nodes[node_id as int].other_files_count,
                        forall|j: int|
                            0 <= j < base && j != node_id ==> #[trigger] self.tree.nodes@[j]
                                == mid_nodes[j],
                        forall|x: int|
                            0 <= x < m ==> is_new_dir_node(
                                #[trigger] self.tree.nodes@[base + x],
                                subdirs@[x].0,
                                node_id,
                                child_depth,
                            ),
                        self.outbox@.len() == o_outbox.len() + m,
                        forall|x: int|
                            0 <= x < o_outbox.len() ==> #[trigger] self.outbox@[x] == o_outbox[x],
                        forall|x: int|
                            0 <= x < m ==> #[trigger] self.outbox@[o_outbox.len() + x] == (WorkItem {
                                node_id: (base + x) as usize,
                                path: subdirs@[x].1,
                                depth: child_depth,
                            }),
                    decreases subdirs.len() - m,
                {
                    let ghost before = self.tree.nodes@;
                    let child_id = self.tree.add_node(
                        subdirs[m].0.clone(),
                        NodeKind::Directory,
                        Some(node_id),
                        0,
                        child_depth,
                    );
                    self.stats.total_dirs = self.stats.total_dirs + 1;
                    self.pending = self.pending + 1;
                    self.outbox.push_back(
                        WorkItem { node_id: child_id, path: subdirs[m].1.clone(), depth: child_depth },
                    );
                    m = m + 1;
                    let ghost aw_before = self.awaiting@;
                    self.awaiting.push(true);
                    proof {
                        lemma_rooted_after_add(before, self.tree.nodes@, node_id as int);
                        lemma_own_sizes_frame(before, self.tree.nodes@, before.len() as int);
                        assert(self.awaiting@ =~= mid_awaiting + Seq::new(m as nat, |x: int| true));
                        assert forall|i: int|
                            0 <= i < self.awaiting@.len() && #[trigger] self.awaiting@[i]
                                implies self.tree.nodes@[i].size == 0 by {
                            if i < before.len() {
                                assert(aw_before[i]);
                            }
                        }
                    }
                    assert(self.tree.nodes@[node_id as int].children@ =~= mid_nodes[node_id as int].children@
                        + Seq::new(m as nat, |x: int| (base + x) as usize));
                    assert forall|x: int|
                        0 <= x < m implies is_new_dir_node(
                            #[trigger] self.tree.nodes@[base + x],
                            subdirs@[x].0,
                            node_id,
                            child_depth,
                        ) by {
                        if x < m - 1 {
                            assert(self.tree.nodes@[base + x] == before[base + x]);
                        }
                    }
                }
            }
        }
        events.push(
            ScanEvent::DirScanned {
                path,
                files: file_count,
                dirs: dir_count,
                bytes_so_far: self.stats.total_bytes,
            },
        );
        events
    }

    /// Whether the tree's subtree totals fit in a `u64`.
    pub fn totals_fit(&self) -> (b: bool)
        requires
            self.wf(),
        ensures
            b == totals_fit(self.nodes()),
    {
        self.tree.totals_fit_check()
    }

    /// Finish the scan: aggregate the tree bottom-up and complete the
    /// statistics with the elapsed time and the cancellation flag.
    pub fn finish(self, elapsed: Duration, cancelled: bool) -> (res: ScanResult)
        requires
            self.wf(),
            totals_fit(self.nodes()),
        ensures
            res.tree.nodes@ == aggregated(self.nodes()),
            res.stats.total_files == self.stats_of().total_files,
            res.stats.total_dirs == self.stats_of().total_dirs,
            res.stats.total_bytes == self.stats_of().total_bytes,
            res.stats.error_count == self.stats_of().error_count,
            res.stats.elapsed == elapsed,
            res.stats.cancelled == cancelled,
            res.errors@ == self.errors_of(),
            res.tree.nodes@.len() > 0,
            res.tree.nodes@[0].cumulative_size == own_sizes(self.nodes(), self.nodes().len() as int),
            res.tree.nodes@[0].cumulative_size == res.stats.total_bytes,
    {
        let Coordinator { mut tree, mut stats, errors, pending: _, outbox: _, max_depth: _, awaiting: _ } = self;
        let node_count = tree.nodes.len();
        proof {
            assert(node_count == tree.nodes@.len());
            lemma_root_total_is_sum_of_sizes(tree.nodes@);
        }
        tree.compute_cumulative_sizes();
        stats.elapsed = elapsed;
        stats.cancelled = cancelled;
        ScanResult { tree, stats, errors }
    }
}

} // verus!
