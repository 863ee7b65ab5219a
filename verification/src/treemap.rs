//! The tree-side inputs of the treemap layout.
//!
//! The layout itself (squarified rectangles in floating point) belongs
//! to the application; the library decides which directory chains are
//! collapsed into one block and which entries a directory block
//! contains.

use vstd::prelude::*;
use vstd::utf8::encode_utf8;

use crate::text::{chars_of, last_segment, lowercase_of, string_from_chars, to_lowercase, vec_last_segment};
use crate::tree::{children_after, join_component, DirTree, NodeKind, TreeNode};

verus! {

/// A directory is trivial when its only entry is one subdirectory: it
/// has exactly one child, that child is a directory, and it lists no
/// files and no other-files bytes.
pub open spec fn trivial(nodes: Seq<TreeNode>, id: int) -> bool {
    &&& nodes[id].children@.len() == 1
    &&& nodes[nodes[id].children@[0] as int].kind == NodeKind::Directory
    &&& nodes[id].top_files@.len() == 0
    &&& nodes[id].other_files_bytes == 0
}

/// The node a chain of trivial directories starting at `id` ends in.
pub open spec fn chain_end(nodes: Seq<TreeNode>, id: int) -> int
    decreases nodes.len() - id,
{
    if 0 <= id < nodes.len() && trivial(nodes, id) && id < nodes[id].children@[0] < nodes.len() {
        chain_end(nodes, nodes[id].children@[0] as int)
    } else {
        id
    }
}

/// The display name of the chain continued from `id`, given the text
/// `acc` made so far: each further name is joined as a path component
/// (a backslash goes between, unless the text already ends in a
/// separator).
pub open spec fn chain_name_from(nodes: Seq<TreeNode>, acc: Seq<char>, id: int) -> Seq<char>
    decreases nodes.len() - id,
{
    if 0 <= id < nodes.len() && trivial(nodes, id) && id < nodes[id].children@[0] < nodes.len() {
        let c = nodes[id].children@[0] as int;
        chain_name_from(nodes, join_component(acc, nodes[c].name@), c)
    } else {
        acc
    }
}

/// The display name of the chain starting at `id`: its names joined as
/// path components, so `C:\` then `Program Files` gives
/// `C:\Program Files`.
pub open spec fn chain_name(nodes: Seq<TreeNode>, id: int) -> Seq<char> {
    chain_name_from(nodes, nodes[id].name@, id)
}

/// Check if a directory node is trivial: exactly one child that is a
/// subdirectory, no top files, and no other files. Such a directory is
/// not drawn; the layout passes through to its single child.
pub fn is_trivial_dir(tree: &DirTree, id: usize) -> (b: bool)
    requires
        id < tree.nodes@.len(),
        tree.nodes@[id as int].children@.len() > 0 ==> tree.nodes@[id as int].children@[0] < tree.nodes@.len(),
    ensures
        b == trivial(tree.nodes@, id as int),
{
    let node = &tree.nodes[id];
    node.children.len() == 1 && tree.nodes[node.children[0]].kind == NodeKind::Directory
        && node.top_files.len() == 0 && node.other_files_bytes == 0
}

/// Walk down a chain of trivial single-child directories and return the
/// final node id and a combined display name for the chain.
pub fn collapse_chain(tree: &DirTree, start: usize) -> (r: (usize, String))
    requires
        children_after(tree.nodes@),
        start < tree.nodes@.len(),
    ensures
        r.0 == chain_end(tree.nodes@, start as int),
        r.0 < tree.nodes@.len(),
        r.1@ == chain_name(tree.nodes@, start as int),
{
    let ghost nodes = tree.nodes@;
    let mut id = start;
    let mut name = chars_of(tree.nodes[id].name.as_str());
    while is_trivial_dir(tree, id)
        invariant
            nodes == tree.nodes@,
            children_after(nodes),
            id < nodes.len(),
            chain_end(nodes, id as int) == chain_end(nodes, start as int),
            chain_name_from(nodes, name@, id as int) == chain_name(nodes, start as int),
        decreases nodes.len() - id,
    {
        proof {
            assert(nodes[id as int].children@[0] == tree.nodes@[id as int].children@[0]);
        }
        let child = tree.nodes[id].children[0];
        let cname = chars_of(tree.nodes[child].name.as_str());
        let ghost before = name@;
        let ends_sep = name.len() > 0 && (name[name.len() - 1] == '\\' || name[name.len() - 1] == '/');
        if name.len() > 0 && !ends_sep {
            name.push('\\');
        }
        let ghost mid = name@;
        assert(mid + cname@ == join_component(before, cname@));
        let mut i: usize = 0;
        while i < cname.len()
            invariant
                i <= cname@.len(),
                name@ == mid + cname@.take(i as int),
            decreases cname.len() - i,
        {
            name.push(cname[i]);
            i = i + 1;
            assert(name@ =~= mid + cname@.take(i as int));
        }
        proof {
            assert(cname@.take(cname@.len() as int) =~= cname@);
        }
        id = child;
    }
    (id, string_from_chars(name.as_slice()))
}

/// The extension a treemap block shows for a file name: the text after
/// the last dot, lowercase, when the name has a dot and that text is at
/// most 12 bytes long; otherwise nothing.
pub open spec fn block_extension(name: Seq<char>) -> Seq<char> {
    let seg = last_segment(name, '.');
    if encode_utf8(seg).len() <= 12 && seg != name {
        lowercase_of(seg)
    } else {
        Seq::empty()
    }
}

/// A text takes between one and four bytes per character in UTF-8.
proof fn lemma_encode_len(s: Seq<char>)
    ensures
        s.len() <= encode_utf8(s).len() <= 4 * s.len(),
    decreases s.len(),
{
    if s.len() > 0 {
        lemma_encode_len(s.drop_first());
        let e = vstd::utf8::encode_scalar(s[0] as u32);
        assert(1 <= e.len() <= 4);
    }
}

/// The extension a treemap block shows for `name` (see
/// `block_extension`).
pub fn file_extension(name: &str) -> (e: String)
    ensures
        e@ == block_extension(name@),
{
    let cs = chars_of(name);
    let seg = vec_last_segment(&cs, '.');
    let seg_text = string_from_chars(seg.as_slice());
    let same = seg.len() == cs.len() && crate::text::text_eq(seg_text.as_str(), name);
    proof {
        lemma_encode_len(seg@);
    }
    let short = seg.len() <= 12 && seg_text.as_str().len() <= 12;
    if short && !same {
        to_lowercase(seg_text.as_str())
    } else {
        String::new()
    }
}

/// A file block inside a directory block.
pub struct FileBlock {
    pub name: String,
    pub ext: String,
    pub bytes: u64,
}

/// What a directory block contains, before layout: the subdirectories
/// with a nonzero total (in child order), the top files with a nonzero
/// size (in list order), and the other files when they have bytes
/// (`(count, bytes)`).
pub struct BlockContents {
    pub dirs: Vec<usize>,
    pub files: Vec<FileBlock>,
    pub other: Option<(u64, u64)>,
}

/// The children of `id` with a nonzero total, among the first `k`.
pub open spec fn sized_children(nodes: Seq<TreeNode>, id: int, k: int) -> Seq<usize>
    decreases k,
{
    if k <= 0 {
        Seq::empty()
    } else {
        let c = nodes[id].children@[k - 1];
        let rest = sized_children(nodes, id, k - 1);
        if nodes[c as int].cumulative_size > 0 {
            rest.push(c)
        } else {
            rest
        }
    }
}

/// Positions of the top files of `id` with a nonzero size, among the
/// first `k`.
pub open spec fn sized_files(nodes: Seq<TreeNode>, id: int, k: int) -> Seq<int>
    decreases k,
{
    if k <= 0 {
        Seq::empty()
    } else {
        let rest = sized_files(nodes, id, k - 1);
        if nodes[id].top_files@[k - 1].bytes > 0 {
            rest.push(k - 1)
        } else {
            rest
        }
    }
}

/// The entries of the directory block of node `id`.
pub fn block_contents(tree: &DirTree, id: usize) -> (b: BlockContents)
    requires
        children_after(tree.nodes@),
        id < tree.nodes@.len(),
    ensures
        b.dirs@ == sized_children(tree.nodes@, id as int, tree.nodes@[id as int].children@.len() as int),
        ({
            let pos = sized_files(tree.nodes@, id as int, tree.nodes@[id as int].top_files@.len() as int);
            &&& b.files@.len() == pos.len()
            &&& forall|j: int|
                #![trigger b.files@[j]]
                0 <= j < pos.len() ==> {
                    let f = tree.nodes@[id as int].top_files@[pos[j]];
                    &&& b.files@[j].name@ == f.name@
                    &&& b.files@[j].ext@ == block_extension(f.name@)
                    &&& b.files@[j].bytes == f.bytes
                }
        }),
        b.other == (if tree.nodes@[id as int].other_files_bytes > 0 {
            Some((tree.nodes@[id as int].other_files_count, tree.nodes@[id as int].other_files_bytes))
        } else {
            None
        }),
{
    let ghost nodes = tree.nodes@;
    let node = &tree.nodes[id];
    let mut dirs: Vec<usize> = Vec::new();
    let mut i: usize = 0;
    while i < node.children.len()
        invariant
            nodes == tree.nodes@,
            *node == nodes[id as int],
            children_after(nodes),
            id < nodes.len(),
            i <= node.children@.len(),
            dirs@ == sized_children(nodes, id as int, i as int),
        decreases node.children.len() - i,
    {
        let c = node.children[i];
        if tree.nodes[c].cumulative_size > 0 {
            dirs.push(c);
        }
        i = i + 1;
    }
    let mut files: Vec<FileBlock> = Vec::new();
    let mut x: usize = 0;
    while x < node.top_files.len()
        invariant
            nodes == tree.nodes@,
            *node == nodes[id as int],
            x <= node.top_files@.len(),
            files@.len() == sized_files(nodes, id as int, x as int).len(),
            forall|j: int|
                #![trigger files@[j]]
                0 <= j < files@.len() ==> {
                    let f = nodes[id as int].top_files@[sized_files(nodes, id as int, x as int)[j]];
                    &&& files@[j].name@ == f.name@
                    &&& files@[j].ext@ == block_extension(f.name@)
                    &&& files@[j].bytes == f.bytes
                },
        decreases node.top_files.len() - x,
    {
        let f = &node.top_files[x];
        let ghost before = files@;
        let ghost pos_before = sized_files(nodes, id as int, x as int);
        if f.bytes > 0 {
            files.push(FileBlock { name: f.name.clone(), ext: file_extension(f.name.as_str()), bytes: f.bytes });
        }
        proof {
            let pos = sized_files(nodes, id as int, x + 1);
            if f.bytes > 0 {
                assert(pos == pos_before.push(x as int));
                assert forall|j: int| #![trigger files@[j]] 0 <= j < files@.len() implies ({
                    let g = nodes[id as int].top_files@[pos[j]];
                    &&& files@[j].name@ == g.name@
                    &&& files@[j].ext@ == block_extension(g.name@)
                    &&& files@[j].bytes == g.bytes
                }) by {
                    if j < before.len() {
                        assert(files@[j] == before[j]);
                        assert(pos[j] == pos_before[j]);
                    }
                }
            } else {
                assert(pos == pos_before);
            }
        }
        x = x + 1;
    }
    let other = if node.other_files_bytes > 0 {
        Some((node.other_files_count, node.other_files_bytes))
    } else {
        None
    };
    BlockContents { dirs, files, other }
}

/// A chain collapses only through directories whose single entry is one
/// subdirectory: a directory that lists any top file, has other-files
/// bytes, or does not have exactly one child, or whose child is not a
/// directory, ends its chain and keeps its own name, so no file it
/// lists disappears from the treemap. A directory with exactly one
/// subdirectory and nothing else continues into that subdirectory.
pub proof fn lemma_chain_keeps_directories_with_files(nodes: Seq<TreeNode>, id: int)
    requires
        0 <= id < nodes.len(),
    ensures
        nodes[id].top_files@.len() > 0 || nodes[id].other_files_bytes > 0 || nodes[id].children@.len() != 1
            ==> chain_end(nodes, id) == id && chain_name(nodes, id) == nodes[id].name@,
        nodes[id].children@.len() == 1 && id < nodes[id].children@[0] < nodes.len() && nodes[nodes[id].children@[
            0] as int].kind != NodeKind::Directory ==> chain_end(nodes, id) == id && chain_name(nodes, id)
            == nodes[id].name@,
        nodes[id].children@.len() == 1 && id < nodes[id].children@[0] < nodes.len() && nodes[nodes[id].children@[
            0] as int].kind == NodeKind::Directory && nodes[id].top_files@.len() == 0
            && nodes[id].other_files_bytes == 0 ==> chain_end(nodes, id) == chain_end(
            nodes,
            nodes[id].children@[0] as int,
        ),
{
}

proof fn lemma_segment_after_dot(base: Seq<char>, ext: Seq<char>)
    requires
        !ext.contains('.'),
    ensures
        last_segment(base + seq!['.'] + ext, '.') == ext,
    decreases ext.len(),
{
    let s = base + seq!['.'] + ext;
    if ext.len() == 0 {
        assert(s.last() == '.');
    } else {
        assert(ext.last() == ext[ext.len() - 1]);
        assert(!ext.drop_last().contains('.')) by {
            if ext.drop_last().contains('.') {
                let i = ext.drop_last().index_of('.');
                assert(ext[i] == '.');
            }
        }
        lemma_segment_after_dot(base, ext.drop_last());
        assert(s.drop_last() =~= base + seq!['.'] + ext.drop_last());
        assert(ext.drop_last().push(ext.last()) =~= ext);
    }
}

proof fn lemma_segment_without_dot(s: Seq<char>)
    requires
        !s.contains('.'),
    ensures
        last_segment(s, '.') == s,
    decreases s.len(),
{
    if s.len() > 0 {
        assert(s.last() == s[s.len() - 1]);
        assert(!s.drop_last().contains('.')) by {
            if s.drop_last().contains('.') {
                let i = s.drop_last().index_of('.');
                assert(s[i] == '.');
            }
        }
        lemma_segment_without_dot(s.drop_last());
        assert(s.drop_last().push(s.last()) =~= s);
    }
}

/// A file block shows the text after the last dot of the name,
/// lowercase, when it is at most 12 bytes long; a name without a dot,
/// or with a longer ending, shows no extension.
pub proof fn lemma_block_extension(base: Seq<char>, ext: Seq<char>)
    requires
        !ext.contains('.'),
    ensures
        encode_utf8(ext).len() <= 12 ==> block_extension(base + seq!['.'] + ext) == lowercase_of(ext),
        encode_utf8(ext).len() > 12 ==> block_extension(base + seq!['.'] + ext) == Seq::<char>::empty(),
        block_extension(ext) == Seq::<char>::empty(),
{
    lemma_segment_after_dot(base, ext);
    lemma_segment_without_dot(ext);
    assert((base + seq!['.'] + ext).len() > ext.len());
}

proof fn lemma_sized_children(nodes: Seq<TreeNode>, id: int, k: int)
    requires
        0 <= k <= nodes[id].children@.len(),
    ensures
        forall|c: usize|
            #[trigger] sized_children(nodes, id, k).contains(c) <==> (nodes[id].children@.take(k).contains(c)
                && nodes[c as int].cumulative_size > 0),
    decreases k,
{
    if k > 0 {
        lemma_sized_children(nodes, id, k - 1);
        let ch = nodes[id].children@;
        assert(ch.take(k) =~= ch.take(k - 1).push(ch[k - 1]));
        let rest = sized_children(nodes, id, k - 1);
        assert forall|c: usize|
            #[trigger] sized_children(nodes, id, k).contains(c) <==> (ch.take(k).contains(c)
                && nodes[c as int].cumulative_size > 0) by {
            if nodes[ch[k - 1] as int].cumulative_size > 0 {
                assert(sized_children(nodes, id, k) == rest.push(ch[k - 1]));
                if rest.push(ch[k - 1]).contains(c) {
                    let i = rest.push(ch[k - 1]).index_of(c);
                    if i < rest.len() {
                        assert(rest[i] == c);
                        assert(rest.contains(c));
                        let w = ch.take(k - 1).index_of(c);
                        assert(ch.take(k)[w] == c);
                    } else {
                        assert(ch.take(k)[k - 1] == c);
                    }
                }
                if rest.contains(c) {
                    let i = rest.index_of(c);
                    assert(rest.push(ch[k - 1])[i] == c);
                }
                assert(rest.push(ch[k - 1])[rest.len() as int] == ch[k - 1]);
            } else {
                assert(sized_children(nodes, id, k) == rest);
                if rest.contains(c) {
                    let w = ch.take(k - 1).index_of(c);
                    assert(ch.take(k)[w] == c);
                }
            }
            if ch.take(k).contains(c) {
                let i = ch.take(k).index_of(c);
                if i < k - 1 {
                    assert(ch.take(k - 1)[i] == c);
                } else {
                    assert(c == ch[k - 1]);
                }
            }
            if ch.take(k - 1).contains(c) {
                let i = ch.take(k - 1).index_of(c);
                assert(ch.take(k)[i] == c);
            }
        }
    }
}

proof fn lemma_sized_files(nodes: Seq<TreeNode>, id: int, k: int)
    requires
        0 <= k <= nodes[id].top_files@.len(),
    ensures
        forall|x: int|
            #[trigger] sized_files(nodes, id, k).contains(x) <==> (0 <= x < k && nodes[id].top_files@[x].bytes > 0),
    decreases k,
{
    if k > 0 {
        lemma_sized_files(nodes, id, k - 1);
        let rest = sized_files(nodes, id, k - 1);
        assert forall|x: int|
            #[trigger] sized_files(nodes, id, k).contains(x) <==> (0 <= x < k && nodes[id].top_files@[x].bytes > 0) by {
            if nodes[id].top_files@[k - 1].bytes > 0 {
                if rest.push(k - 1).contains(x) {
                    let i = rest.push(k - 1).index_of(x);
                    if i < rest.len() {
                        assert(rest[i] == x);
                    }
                }
                if rest.contains(x) {
                    let i = rest.index_of(x);
                    assert(rest.push(k - 1)[i] == x);
                }
                assert(rest.push(k - 1)[rest.len() as int] == k - 1);
            } else {
                assert(sized_files(nodes, id, k) == rest);
            }
        }
    }
}

/// A directory block shows exactly the entries that have bytes: a
/// child is among its subdirectory blocks when, and only when, its
/// total is nonzero; a top file is among its file blocks when, and
/// only when, its size is nonzero.
pub proof fn lemma_block_shows_entries_with_bytes(nodes: Seq<TreeNode>, id: int)
    requires
        0 <= id < nodes.len(),
    ensures
        forall|c: usize|
            #[trigger] sized_children(nodes, id, nodes[id].children@.len() as int).contains(c) <==> (
            nodes[id].children@.contains(c) && nodes[c as int].cumulative_size > 0),
        forall|x: int|
            #[trigger] sized_files(nodes, id, nodes[id].top_files@.len() as int).contains(x) <==> (0 <= x
                < nodes[id].top_files@.len() && nodes[id].top_files@[x].bytes > 0),
{
    lemma_sized_children(nodes, id, nodes[id].children@.len() as int);
    assert(nodes[id].children@.take(nodes[id].children@.len() as int) =~= nodes[id].children@);
    lemma_sized_files(nodes, id, nodes[id].top_files@.len() as int);
}

} // verus!
