//! What std's path parsing gives on each platform, for the path shapes
//! the library relies on. `sep` is the platform's main separator: `/`
//! selects the Unix rules, `\` the Windows rules (where `/` separates
//! too, and a drive such as `C:` or two leading separators make a
//! prefix).

use vstd::prelude::*;

use crate::safety::{is_ascii_letter, verbatim_prefix};
use crate::text::{count_char, ends_in_plain_name, starts_with};
use crate::tree::{is_sep_on, starts_with_drive};

verus! {

/// `c` separates components: in a verbatim path (`\\?\`, Windows) only
/// a backslash does.
pub open spec fn splits(c: char, sep: char, verbatim: bool) -> bool {
    if verbatim {
        c == '\\'
    } else {
        is_sep_on(c, sep)
    }
}

/// `p` is a verbatim path under the Windows rules.
pub open spec fn is_verbatim_on(p: Seq<char>, sep: char) -> bool {
    sep == '\\' && starts_with(p, verbatim_prefix())
}

/// The position just after the last separator of `p` (0 when it has
/// none).
pub open spec fn name_start(p: Seq<char>, sep: char, verbatim: bool) -> int
    decreases p.len(),
{
    if p.len() == 0 {
        0
    } else if splits(p.last(), sep, verbatim) {
        p.len() as int
    } else {
        name_start(p.drop_last(), sep, verbatim)
    }
}

/// The last component of `p`: the text after its last separator; under
/// the Windows rules a drive prefix with no separator after it
/// (`C:name`) is not part of it.
pub open spec fn last_name_on(p: Seq<char>, sep: char) -> Seq<char> {
    let s = name_start(p, sep, is_verbatim_on(p, sep));
    if sep == '\\' && s == 0 && starts_with_drive(p) {
        p.skip(2)
    } else {
        p.skip(s)
    }
}

/// A verbatim path on a drive (`\\?\X:\...`) whose last component is a
/// plain name.
pub open spec fn verbatim_drive_path(p: Seq<char>) -> bool {
    &&& starts_with(p, verbatim_prefix())
    &&& p.len() > 7
    &&& is_ascii_letter(p[4])
    &&& p[5] == ':'
    &&& p[6] == '\\'
    &&& p[7] != '/'
    &&& p.last() != '\\'
    &&& p.last() != '.'
}

/// `p` has a file name, and it is `last_name_on(p, sep)`: under the
/// Unix rules when its last component is not empty, `.` or `..`; under
/// the Windows rules when it ends in a plain name or is a verbatim path
/// on a drive ending in one.
pub open spec fn has_plain_name_on(p: Seq<char>, sep: char) -> bool {
    if sep == '\\' {
        ends_in_plain_name(p) || verbatim_drive_path(p)
    } else {
        let n = p.skip(name_start(p, sep, false));
        n.len() > 0 && n != seq!['.'] && n != seq!['.', '.']
    }
}

/// `name` is the file name of `p` where the rules of `sep` fix it.
pub open spec fn name_fixed_on(p: Seq<char>, name: Option<Seq<char>>, sep: char) -> bool {
    has_plain_name_on(p, sep) ==> name == Some(last_name_on(p, sep))
}

/// The length of the root of `p`: its drive prefix (Windows rules) and
/// the separator right after it, if there is one.
pub open spec fn root_len_on(p: Seq<char>, sep: char) -> int {
    let d = if sep == '\\' && starts_with_drive(p) {
        2int
    } else {
        0int
    };
    if p.len() > d && is_sep_on(p[d], sep) {
        d + 1
    } else {
        d
    }
}

/// `h` without its trailing separators, keeping its first `r`
/// characters (the root).
pub open spec fn trim_separators(h: Seq<char>, sep: char, r: int) -> Seq<char>
    decreases h.len(),
{
    if h.len() > r && h.len() > 0 && is_sep_on(h.last(), sep) {
        trim_separators(h.drop_last(), sep, r)
    } else {
        h
    }
}

/// The parent of `p`: the text before its last component, without
/// trailing separators unless they are the root.
pub open spec fn parent_on(p: Seq<char>, sep: char) -> Seq<char> {
    trim_separators(p.take(p.len() - last_name_on(p, sep).len()), sep, root_len_on(p, sep))
}

/// `t` ends in a component `.` after its root.
pub open spec fn ends_in_dot_component(t: Seq<char>, sep: char, r: int) -> bool {
    &&& t.len() > r
    &&& t.last() == '.'
    &&& (t.len() - 1 == r || is_sep_on(t[t.len() - 2], sep))
}

/// `p` has a parent, and it is `parent_on(p, sep)`: `p` ends in a plain
/// name and the text before it does not end in a `.` component.
pub open spec fn has_plain_parent_on(p: Seq<char>, sep: char) -> bool {
    ends_in_plain_name(p) && !ends_in_dot_component(parent_on(p, sep), sep, root_len_on(p, sep))
}

/// The components after `X:\` of a drive path: none, or names that are
/// neither empty nor `.`, split by single backslashes.
pub open spec fn plain_components(r: Seq<char>) -> bool {
    &&& !r.contains('/')
    &&& r.len() > 0 ==> r[0] != '\\' && r.last() != '\\'
    &&& forall|i: int| 0 <= i < r.len() - 1 ==> !(#[trigger] r[i] == '\\' && r[i + 1] == '\\')
    &&& forall|i: int|
        0 <= i < r.len() && #[trigger] r[i] == '.' ==> !((i == 0 || r[i - 1] == '\\') && (i == r.len() - 1 || r[i
            + 1] == '\\'))
}

/// A drive path `X:\a\b...` whose components after the root are plain.
pub open spec fn simple_drive_path(p: Seq<char>) -> bool {
    &&& p.len() >= 3
    &&& is_ascii_letter(p[0])
    &&& p[1] == ':'
    &&& p[2] == '\\'
    &&& plain_components(p.skip(3))
}

/// `n` is the number of components of `p`, where the rules of `sep`
/// fix it: under the Unix rules a non-empty text without `/` is one
/// component; under the Windows rules a simple drive path has the
/// drive, the root and one component per name.
pub open spec fn component_count_on(p: Seq<char>, n: nat, sep: char) -> bool {
    if sep == '\\' {
        simple_drive_path(p) ==> n == (if p.len() == 3 {
            2
        } else {
            3 + count_char(p.skip(3), '\\')
        })
    } else {
        p.len() > 0 && !p.contains('/') ==> n == 1
    }
}

} // verus!
