//! The rules that decide whether a path may be deleted.
//!
//! The rules look at the canonical form of the path (resolved by the
//! application), compared case-insensitively with backslashes as
//! separators, and refuse drive roots, top-level directories, system
//! locations, protected AppData folders, system file names, files the
//! system marks as such, and the application's own files.

use vstd::prelude::*;

use crate::text::{
    chars_of, concat, contains_text, count_char, find, find_from, lowercase_of, owned, slashes_to_backslashes,
    starts_with, to_lowercase, vec_count_char_from, vec_find, vec_slashes_to_backslashes,
    vec_starts_with, is_piece_of,
};
use crate::paths::{component_count_on, has_plain_name_on, last_name_on, name_fixed_on, simple_drive_path};

verus! {

/// Why a path may not be deleted.
#[derive(Debug, Clone, Copy, PartialEq, Eq, Structural)]
pub enum BlockReason {
    /// A drive root such as `C:\`.
    DriveRoot,
    /// A directory directly below a drive root.
    TopLevelDirectory,
    /// Inside a system location such as `C:\Windows`.
    ProtectedSystemPath,
    /// Inside a protected AppData subtree.
    ProtectedAppData,
    /// An AppData folder itself or one directly below it.
    AppDataDirectory,
    /// A system file name such as `pagefile.sys`.
    ProtectedSystemFile,
    /// A user-registry file (`ntuser.*`).
    NtUserFile,
    /// A file the system marks with its SYSTEM attribute.
    SystemAttribute,
    /// The application's own files.
    OwnFiles,
}

/// The text of an optional string.
pub open spec fn opt_text(o: Option<&str>) -> Option<Seq<char>> {
    match o {
        Some(t) => Some(t@),
        None => None,
    }
}

/// A refusal: the reason and the path text or file name it names
/// (empty for drive roots and the application's own files).
#[derive(Debug, Clone)]
pub struct PathSafetyError {
    pub reason: BlockReason,
    pub subject: String,
}

/// System locations that may not be touched (lowercase, backslashes).
pub open spec fn blocked_prefixes() -> Seq<Seq<char>> {
    seq![
        "c:\\windows"@,
        "c:\\program files"@,
        "c:\\program files (x86)"@,
        "c:\\programdata"@,
        "c:\\$recycle.bin"@,
        "c:\\system volume information"@,
        "c:\\recovery"@,
        "c:\\$sysreset"@,
        "c:\\config.msi"@,
        "c:\\boot"@,
        "c:\\efi"@,
        "c:\\$windows.~bt"@,
        "c:\\$windows.~ws"@,
        "c:\\inetpub"@,
        "c:\\perflogs"@,
        "c:\\proclogs"@,
        "c:\\msocache"@,
        "c:\\documents and settings"@,
    ]
}

fn blocked_prefix_list() -> (v: Vec<&'static str>)
    ensures
        v@.len() == blocked_prefixes().len(),
        forall|j: int| 0 <= j < v@.len() ==> #[trigger] v@[j]@ == blocked_prefixes()[j],
{
    let v = vec![
        "c:\\windows",
        "c:\\program files",
        "c:\\program files (x86)",
        "c:\\programdata",
        "c:\\$recycle.bin",
        "c:\\system volume information",
        "c:\\recovery",
        "c:\\$sysreset",
        "c:\\config.msi",
        "c:\\boot",
        "c:\\efi",
        "c:\\$windows.~bt",
        "c:\\$windows.~ws",
        "c:\\inetpub",
        "c:\\perflogs",
        "c:\\proclogs",
        "c:\\msocache",
        "c:\\documents and settings",
    ];
    v
}

/// AppData subtrees that may not be touched.
pub open spec fn appdata_roots() -> Seq<Seq<char>> {
    seq![
        "\\appdata\\local\\microsoft"@,
        "\\appdata\\local\\packages"@,
        "\\appdata\\roaming\\microsoft"@,
    ]
}

fn appdata_root_list() -> (v: Vec<&'static str>)
    ensures
        v@.len() == appdata_roots().len(),
        forall|j: int| 0 <= j < v@.len() ==> #[trigger] v@[j]@ == appdata_roots()[j],
{
    let v = vec![
        "\\appdata\\local\\microsoft",
        "\\appdata\\local\\packages",
        "\\appdata\\roaming\\microsoft",
    ];
    v
}

/// File names of the operating system that may not be deleted.
pub open spec fn blocked_file_names() -> Seq<Seq<char>> {
    seq![
        "pagefile.sys"@,
        "hiberfil.sys"@,
        "swapfile.sys"@,
        "bootmgr"@,
        "bootnxt"@,
        "ntldr"@,
        "ntdetect.com"@,
        "io.sys"@,
        "msdos.sys"@,
        "ntuser.dat"@,
        "ntuser.dat.log"@,
        "ntuser.dat.log1"@,
        "ntuser.dat.log2"@,
        "ntuser.ini"@,
        "usrclass.dat"@,
        "usrclass.dat.log"@,
        "usrclass.dat.log1"@,
        "usrclass.dat.log2"@,
        "desktop.ini"@,
    ]
}

fn blocked_file_name_list() -> (v: Vec<&'static str>)
    ensures
        v@.len() == blocked_file_names().len(),
        forall|j: int| 0 <= j < v@.len() ==> #[trigger] v@[j]@ == blocked_file_names()[j],
{
    let v = vec![
        "pagefile.sys",
        "hiberfil.sys",
        "swapfile.sys",
        "bootmgr",
        "bootnxt",
        "ntldr",
        "ntdetect.com",
        "io.sys",
        "msdos.sys",
        "ntuser.dat",
        "ntuser.dat.log",
        "ntuser.dat.log1",
        "ntuser.dat.log2",
        "ntuser.ini",
        "usrclass.dat",
        "usrclass.dat.log",
        "usrclass.dat.log1",
        "usrclass.dat.log2",
        "desktop.ini",
    ];
    v
}

/// The verbatim prefix `\\?\` that canonical Windows paths carry.
pub open spec fn verbatim_prefix() -> Seq<char> {
    seq!['\\', '\\', '?', '\\']
}

/// The marker of an AppData folder in a path.
pub open spec fn appdata_marker() -> Seq<char> {
    seq!['\\', 'a', 'p', 'p', 'd', 'a', 't', 'a']
}

/// The name prefix of user-registry files.
pub open spec fn ntuser_prefix() -> Seq<char> {
    seq!['n', 't', 'u', 's', 'e', 'r', '.']
}

/// An ASCII letter.
pub open spec fn is_ascii_letter(c: char) -> bool {
    ('a' <= c <= 'z') || ('A' <= c <= 'Z')
}

/// The canonical path without its verbatim prefix.
pub open spec fn clean_path(canonical: Seq<char>) -> Seq<char> {
    if starts_with(canonical, verbatim_prefix()) {
        canonical.skip(4)
    } else {
        canonical
    }
}

/// The form the rules compare: lowercase, with backslashes.
pub open spec fn compared_form(canonical: Seq<char>) -> Seq<char> {
    slashes_to_backslashes(lowercase_of(clean_path(canonical)))
}

/// `X:\` or `X:` for an ASCII letter `X`.
pub open spec fn is_drive_root(l: Seq<char>) -> bool {
    (l.len() == 3 && is_ascii_letter(l[0]) && l[1] == ':' && l[2] == '\\') || (l.len() == 2
        && is_ascii_letter(l[0]) && l[1] == ':')
}

/// Inside one of the blocked system locations.
pub open spec fn under_blocked_prefix(l: Seq<char>) -> bool {
    exists|j: int| 0 <= j < blocked_prefixes().len() && starts_with(l, #[trigger] blocked_prefixes()[j])
}

/// Inside one of the protected AppData subtrees.
pub open spec fn in_appdata_root(l: Seq<char>) -> bool {
    exists|j: int| 0 <= j < appdata_roots().len() && contains_text(l, #[trigger] appdata_roots()[j])
}

/// The AppData folder itself or a folder directly below it: at most
/// one more backslash after the first `\appdata`.
pub open spec fn is_appdata_dir(l: Seq<char>) -> bool {
    find(l, appdata_marker()) >= 0 && count_char(l.skip(find(l, appdata_marker()) + 8), '\\') <= 1
}

/// The file name (lowercase) is a system file name.
pub open spec fn is_blocked_name(name: Seq<char>) -> bool {
    exists|j: int| 0 <= j < blocked_file_names().len() && name == #[trigger] blocked_file_names()[j]
}

/// The path is the application's executable, or inside it, or contains
/// it (`el` is the executable's path, lowercase).
pub open spec fn is_own_path(l: Seq<char>, el: Option<Seq<char>>) -> bool {
    match el {
        Some(e) => starts_with(e, l) || starts_with(l, slashes_to_backslashes(e)),
        None => false,
    }
}

/// The lowercase text of an optional text.
pub open spec fn lowercase_opt(t: Option<Seq<char>>) -> Option<Seq<char>> {
    match t {
        Some(e) => Some(lowercase_of(e)),
        None => None,
    }
}

/// The verdict of the rules on the lowercase texts: `clean` is the path
/// without its verbatim prefix (as shown in messages), `l` its compared
/// form (lowercase, with backslashes), `name` its file name (lowercase,
/// empty when it has none), `components` the number of components of
/// `l`, and `el` the executable's path (lowercase). The rules apply in
/// order; the first that matches decides.
pub open spec fn verdict_on(
    clean: Seq<char>,
    l: Seq<char>,
    name: Seq<char>,
    components: nat,
    is_dir: bool,
    system_file: bool,
    el: Option<Seq<char>>,
) -> Option<(BlockReason, Seq<char>)> {
    if is_drive_root(l) {
        Some((BlockReason::DriveRoot, Seq::empty()))
    } else if components <= 3 && is_dir {
        Some((BlockReason::TopLevelDirectory, clean))
    } else if under_blocked_prefix(l) {
        Some((BlockReason::ProtectedSystemPath, clean))
    } else if in_appdata_root(l) {
        Some((BlockReason::ProtectedAppData, clean))
    } else if is_appdata_dir(l) {
        Some((BlockReason::AppDataDirectory, clean))
    } else if is_blocked_name(name) {
        Some((BlockReason::ProtectedSystemFile, name))
    } else if starts_with(name, ntuser_prefix()) {
        Some((BlockReason::NtUserFile, name))
    } else if system_file {
        Some((BlockReason::SystemAttribute, clean))
    } else if is_own_path(l, el) {
        Some((BlockReason::OwnFiles, Seq::empty()))
    } else {
        None
    }
}

/// The verdict on a canonical path, given the number of components of
/// its compared form, its file name, whether it is a directory,
/// whether the system marks it as a system file, and the canonical path
/// of the running executable (see `verdict_on`).
pub open spec fn safety_verdict(
    canonical: Seq<char>,
    components: nat,
    file_name: Option<Seq<char>>,
    is_dir: bool,
    system_file: bool,
    exe: Option<Seq<char>>,
) -> Option<(BlockReason, Seq<char>)> {
    verdict_on(
        clean_path(canonical),
        compared_form(canonical),
        lowercase_of(
            match file_name {
                Some(n) => n,
                None => Seq::empty(),
            },
        ),
        components,
        is_dir,
        system_file,
        lowercase_opt(exe),
    )
}

/// A result agrees with a verdict.
pub open spec fn agrees(r: Result<(), PathSafetyError>, v: Option<(BlockReason, Seq<char>)>) -> bool {
    match r {
        Ok(()) => v is None,
        Err(e) => v == Some((e.reason, e.subject@)),
    }
}

/// Decide whether `canonical` may be deleted (see `safety_verdict`).
pub fn path_safety_verdict(
    canonical: &str,
    components: usize,
    file_name: Option<&str>,
    is_dir: bool,
    system_file: bool,
    exe: Option<&str>,
) -> (r: Result<(), PathSafetyError>)
    ensures
        agrees(
            r,
            safety_verdict(
                canonical@,
                components as nat,
                opt_text(file_name),
                is_dir,
                system_file,
                opt_text(exe),
            ),
        ),
{
    let cs = chars_of(canonical);
    let vp = vec!['\\', '\\', '?', '\\'];
    let clean_chars: Vec<char> = if vec_starts_with(&cs, &vp) {
        let mut c: Vec<char> = Vec::new();
        let mut i: usize = 4;
        while i < cs.len()
            invariant
                4 <= i <= cs@.len(),
                c@ == cs@.subrange(4, i as int),
            decreases cs.len() - i,
        {
            c.push(cs[i]);
            i = i + 1;
            assert(c@ =~= cs@.subrange(4, i as int));
        }
        assert(cs@.subrange(4, cs@.len() as int) =~= cs@.skip(4));
        c
    } else {
        cs
    };
    assert(vp@ =~= verbatim_prefix());
    let clean = crate::text::string_from_chars(clean_chars.as_slice());
    let lowered = to_lowercase(clean.as_str());
    let l = crate::text::string_from_chars(vec_slashes_to_backslashes(&chars_of(lowered.as_str())).as_slice());
    assert(l@ == compared_form(canonical@));
    let fname_text: String = match file_name {
        Some(n) => to_lowercase(n),
        None => to_lowercase(""),
    };
    proof {
        reveal_strlit("");
        assert(""@ =~= Seq::<char>::empty());
    }
    match exe {
        Some(e) => {
            let el = to_lowercase(e);
            verdict_on_lowered(clean, l.as_str(), fname_text, components, is_dir, system_file, Some(el.as_str()))
        },
        None => verdict_on_lowered(clean, l.as_str(), fname_text, components, is_dir, system_file, None),
    }
}

/// The verdict of the rules on the lowercase texts (see `verdict_on`).
#[verifier::loop_isolation(false)]
pub fn verdict_on_lowered(
    clean: String,
    lowered: &str,
    fname_text: String,
    components: usize,
    is_dir: bool,
    system_file: bool,
    exe_lowered: Option<&str>,
) -> (r: Result<(), PathSafetyError>)
    ensures
        agrees(
            r,
            verdict_on(clean@, lowered@, fname_text@, components as nat, is_dir, system_file, opt_text(exe_lowered)),
        ),
{
    let l = chars_of(lowered);
    let name = chars_of(fname_text.as_str());
    // Drive roots.
    if (l.len() == 3 && ascii_letter(l[0]) && l[1] == ':' && l[2] == '\\') || (l.len() == 2
        && ascii_letter(l[0]) && l[1] == ':') {
        return Err(PathSafetyError { reason: BlockReason::DriveRoot, subject: String::new() });
    }
    // Top-level directories.
    if components <= 3 && is_dir {
        return Err(PathSafetyError { reason: BlockReason::TopLevelDirectory, subject: clean });
    }
    // System locations.
    let prefixes = blocked_prefix_list();
    let mut j: usize = 0;
    while j < prefixes.len()
        invariant
            prefixes@.len() == blocked_prefixes().len(),
            forall|x: int| 0 <= x < prefixes@.len() ==> #[trigger] prefixes@[x]@ == blocked_prefixes()[x],
            j <= prefixes@.len(),
            forall|x: int| 0 <= x < j ==> !starts_with(l@, #[trigger] blocked_prefixes()[x]),
        decreases prefixes.len() - j,
    {
        let p = chars_of(prefixes[j]);
        if vec_starts_with(&l, &p) {
            assert(starts_with(l@, blocked_prefixes()[j as int]));
            return Err(PathSafetyError { reason: BlockReason::ProtectedSystemPath, subject: clean });
        }
        j = j + 1;
    }
    // Protected AppData subtrees.
    let roots = appdata_root_list();
    let mut j: usize = 0;
    while j < roots.len()
        invariant
            roots@.len() == appdata_roots().len(),
            forall|x: int| 0 <= x < roots@.len() ==> #[trigger] roots@[x]@ == appdata_roots()[x],
            j <= roots@.len(),
            forall|x: int| 0 <= x < j ==> !contains_text(l@, #[trigger] appdata_roots()[x]),
        decreases roots.len() - j,
    {
        let p = chars_of(roots[j]);
        if vec_find(&l, &p).is_some() {
            assert(contains_text(l@, appdata_roots()[j as int]));
            return Err(PathSafetyError { reason: BlockReason::ProtectedAppData, subject: clean });
        }
        j = j + 1;
    }
    // AppData folders themselves.
    let marker = vec!['\\', 'a', 'p', 'p', 'd', 'a', 't', 'a'];
    assert(marker@ =~= appdata_marker());
    if let Some(pos) = vec_find(&l, &marker) {
        assert(pos + 8 <= l@.len()) by {
            lemma_find_in_range(l@, appdata_marker(), 0);
        }
        let depth_after = vec_count_char_from(&l, pos + 8, '\\');
        if depth_after <= 1 {
            return Err(PathSafetyError { reason: BlockReason::AppDataDirectory, subject: clean });
        }
    }
    // System file names.
    let names = blocked_file_name_list();
    let mut j: usize = 0;
    while j < names.len()
        invariant
            names@.len() == blocked_file_names().len(),
            forall|x: int| 0 <= x < names@.len() ==> #[trigger] names@[x]@ == blocked_file_names()[x],
            j <= names@.len(),
            forall|x: int| 0 <= x < j ==> name@ != #[trigger] blocked_file_names()[x],
        decreases names.len() - j,
    {
        let p = chars_of(names[j]);
        if vec_starts_with(&name, &p) && name.len() == p.len() {
            assert(name@ =~= p@);
            assert(name@ == blocked_file_names()[j as int]);
            return Err(PathSafetyError { reason: BlockReason::ProtectedSystemFile, subject: fname_text });
        }
        proof {
            if name@ == p@ {
                assert(name@.take(p@.len() as int) =~= p@);
            }
        }
        j = j + 1;
    }
    let ntu = vec!['n', 't', 'u', 's', 'e', 'r', '.'];
    assert(ntu@ =~= ntuser_prefix());
    if vec_starts_with(&name, &ntu) {
        return Err(PathSafetyError { reason: BlockReason::NtUserFile, subject: fname_text });
    }
    // Files the system marks as system files.
    if system_file {
        return Err(PathSafetyError { reason: BlockReason::SystemAttribute, subject: clean });
    }
    // The application's own files.
    if let Some(e) = exe_lowered {
        let el = chars_of(e);
        if vec_starts_with(&el, &l) || vec_starts_with(&l, &vec_slashes_to_backslashes(&el)) {
            return Err(PathSafetyError { reason: BlockReason::OwnFiles, subject: String::new() });
        }
    }
    Ok(())
}

proof fn lemma_find_in_range(s: Seq<char>, p: Seq<char>, from: int)
    ensures
        find_from(s, p, from) >= 0 ==> from <= find_from(s, p, from) && find_from(s, p, from)
            + p.len() <= s.len(),
    decreases s.len() + 1 - from,
{
    if from < 0 || from + p.len() > s.len() {
    } else if s.subrange(from, from + p.len()) == p {
    } else {
        lemma_find_in_range(s, p, from + 1);
    }
}

/// Number of components of a path text (std's `Path::components`,
/// which parses the text with the separators and prefixes of the
/// platform the application runs on). On every platform the empty text
/// has none, any other text has at least one, and every component takes
/// at least one character. Under the rules of the platform's separator
/// the count is fixed for the shapes `component_count_on` names (a text
/// without `/` on Unix, a simple drive path on Windows); which separator
/// that is, and the count for other shapes, stays unstated.
#[verifier::external_body]
fn path_component_count(p: &str) -> (n: usize)
    ensures
        (n == 0) == (p@.len() == 0),
        n <= p@.len(),
        component_count_on(p@, n as nat, '/') || component_count_on(p@, n as nat, '\\'),
{
    std::path::Path::new(p).components().count()
}

/// The last component of a path text, if it has one (std's
/// `Path::file_name`, parsed as on the platform the application runs
/// on; the text is valid Unicode, so its components are too). It is a
/// non-empty piece of the text. Under the rules of the platform's
/// separator, where `has_plain_name_on` holds, it is `last_name_on`;
/// which separator that is, and the result for other shapes, stays
/// unstated.
#[verifier::external_body]
pub(crate) fn path_file_name(p: &str) -> (r: Option<String>)
    ensures
        r is Some ==> r.unwrap()@.len() > 0 && is_piece_of(r.unwrap()@, p@),
        named_on(p@, r, '/') || named_on(p@, r, '\\'),
{
    std::path::Path::new(p).file_name().map(|n| n.to_string_lossy().into_owned())
}

/// `r` is the file name of `p` where the rules of `sep` fix it.
pub open spec fn named_on(p: Seq<char>, r: Option<String>, sep: char) -> bool {
    has_plain_name_on(p, sep) ==> r is Some && r.unwrap()@ == last_name_on(p, sep)
}

/// The form of a canonical path that the rules compare (see
/// `compared_form`): without the `\\?\` prefix, lowercase, with
/// backslashes.
pub fn compared_text(canonical: &str) -> (l: String)
    ensures
        l@ == compared_form(canonical@),
{
    let cs = chars_of(canonical);
    let vp = vec!['\\', '\\', '?', '\\'];
    assert(vp@ == verbatim_prefix());
    let clean = if vec_starts_with(&cs, &vp) {
        let mut c: Vec<char> = Vec::new();
        let mut i: usize = 4;
        while i < cs.len()
            invariant
                4 <= i <= cs@.len(),
                c@ == cs@.subrange(4, i as int),
            decreases cs.len() - i,
        {
            c.push(cs[i]);
            i = i + 1;
            assert(c@ =~= cs@.subrange(4, i as int));
        }
        assert(c@ =~= cs@.skip(4));
        c
    } else {
        cs
    };
    assert(clean@ == clean_path(canonical@));
    let lowered = to_lowercase(crate::text::string_from_chars(clean.as_slice()).as_str());
    crate::text::string_from_chars(vec_slashes_to_backslashes(&chars_of(lowered.as_str())).as_slice())
}

/// Check whether a canonical path is safe to delete. `is_dir` and
/// `system_file` describe the file-system entry; `exe` is the
/// canonical path of the running executable, when it could be
/// resolved. The component count is that of the compared form
/// (`compared_text`) and the file name that of the canonical path, both
/// as the platform's path parsing gives them (see `component_count_on`
/// and `last_name_on`): the result is the verdict of the rules on them.
pub fn check_path_safety(canonical: &str, is_dir: bool, system_file: bool, exe: Option<&str>) -> (r: Result<(), PathSafetyError>)
    ensures
        exists|components: nat, file_name: Option<Seq<char>>|
            {
                &&& components <= compared_form(canonical@).len()
                &&& (components == 0) == (compared_form(canonical@).len() == 0)
                &&& (component_count_on(compared_form(canonical@), components, '/') || component_count_on(
                    compared_form(canonical@),
                    components,
                    '\\',
                ))
                &&& (file_name matches Some(n) ==> n.len() > 0 && is_piece_of(n, canonical@))
                &&& (name_fixed_on(canonical@, file_name, '/') || name_fixed_on(canonical@, file_name, '\\'))
                &&& agrees(
                    r,
                    #[trigger] safety_verdict(
                        canonical@,
                        components,
                        file_name,
                        is_dir,
                        system_file,
                        opt_text(exe),
                    ),
                )
            },
{
    let l = compared_text(canonical);
    let components = path_component_count(l.as_str());
    let name = path_file_name(canonical);
    let r = match &name {
        Some(n) => path_safety_verdict(canonical, components, Some(n.as_str()), is_dir, system_file, exe),
        None => path_safety_verdict(canonical, components, None, is_dir, system_file, exe),
    };
    proof {
        let fname = match name {
            Some(n) => Some(n@),
            None => None,
        };
        assert(name_fixed_on(canonical@, fname, '/') || name_fixed_on(canonical@, fname, '\\'));
        assert(agrees(r, safety_verdict(canonical@, components as nat, fname, is_dir, system_file, opt_text(exe))));
    }
    r
}

/// Whether `c` is an ASCII letter.
fn ascii_letter(c: char) -> (b: bool)
    ensures
        b == is_ascii_letter(c),
{
    ('a' <= c && c <= 'z') || ('A' <= c && c <= 'Z')
}

/// Text of `s` as an owned string.
fn text(s: &str) -> (r: String)
    ensures
        r@ == s@,
{
    owned(s)
}

impl PathSafetyError {
    /// The message shown to the user.
    pub open spec fn message_text(&self) -> Seq<char> {
        let s = self.subject@;
        match self.reason {
            BlockReason::DriveRoot => "Cannot delete a drive root."@,
            BlockReason::TopLevelDirectory => "Cannot delete top-level directory '"@ + s
                + "'. This could be a critical system folder."@,
            BlockReason::ProtectedSystemPath => "Cannot delete '"@ + s
                + "' \u{2014} this is a protected system path."@,
            BlockReason::ProtectedAppData => "Cannot delete '"@ + s
                + "' \u{2014} this is inside a protected AppData directory."@,
            BlockReason::AppDataDirectory => "Cannot delete '"@ + s
                + "' \u{2014} AppData directories are protected."@,
            BlockReason::ProtectedSystemFile => "Cannot delete '"@ + s
                + "' \u{2014} this is a protected system file."@,
            BlockReason::NtUserFile => "Cannot delete '"@ + s + "' \u{2014} NTUSER files are protected."@,
            BlockReason::SystemAttribute => "Cannot delete '"@ + s
                + "' \u{2014} Windows marks this as a SYSTEM file."@,
            BlockReason::OwnFiles => "Cannot delete WinDirScope's own files."@,
        }
    }

    /// The message shown to the user.
    pub fn message(&self) -> (m: String)
        ensures
            m@ == self.message_text(),
    {
        let s = self.subject.as_str();
        match self.reason {
            BlockReason::DriveRoot => text("Cannot delete a drive root."),
            BlockReason::TopLevelDirectory => concat(
                concat("Cannot delete top-level directory '", s).as_str(),
                "'. This could be a critical system folder.",
            ),
            BlockReason::ProtectedSystemPath => concat(
                concat("Cannot delete '", s).as_str(),
                "' \u{2014} this is a protected system path.",
            ),
            BlockReason::ProtectedAppData => concat(
                concat("Cannot delete '", s).as_str(),
                "' \u{2014} this is inside a protected AppData directory.",
            ),
            BlockReason::AppDataDirectory => concat(
                concat("Cannot delete '", s).as_str(),
                "' \u{2014} AppData directories are protected.",
            ),
            BlockReason::ProtectedSystemFile => concat(
                concat("Cannot delete '", s).as_str(),
                "' \u{2014} this is a protected system file.",
            ),
            BlockReason::NtUserFile => concat(
                concat("Cannot delete '", s).as_str(),
                "' \u{2014} NTUSER files are protected.",
            ),
            BlockReason::SystemAttribute => concat(
                concat("Cannot delete '", s).as_str(),
                "' \u{2014} Windows marks this as a SYSTEM file.",
            ),
            BlockReason::OwnFiles => text("Cannot delete WinDirScope's own files."),
        }
    }
}

/// A drive root is never deletable, whatever else is known of it.
pub proof fn lemma_drive_root_refused(
    canonical: Seq<char>,
    components: nat,
    file_name: Option<Seq<char>>,
    is_dir: bool,
    system_file: bool,
    exe: Option<Seq<char>>,
)
    requires
        is_drive_root(compared_form(canonical)),
    ensures
        safety_verdict(canonical, components, file_name, is_dir, system_file, exe) == Some(
            (BlockReason::DriveRoot, Seq::<char>::empty()),
        ),
{
}

/// The compared form has no `/`.
proof fn lemma_compared_form_has_no_slash(canonical: Seq<char>)
    ensures
        !compared_form(canonical).contains('/'),
{
    let l = compared_form(canonical);
    assert forall|i: int| 0 <= i < l.len() implies l[i] != '/' by {
        let t = lowercase_of(clean_path(canonical));
        assert(l[i] == (if t[i] == '/' {
            '\\'
        } else {
            t[i]
        }));
    }
}

proof fn lemma_count_char_absent(s: Seq<char>, c: char)
    requires
        !s.contains(c),
    ensures
        count_char(s, c) == 0,
    decreases s.len(),
{
    if s.len() > 0 {
        assert(s.drop_last().contains(c) ==> s.contains(c)) by {
            if s.drop_last().contains(c) {
                let i = s.drop_last().index_of(c);
                assert(s[i] == c);
            }
        }
        assert(s[s.len() - 1] == s.last());
        lemma_count_char_absent(s.drop_last(), c);
    }
}

/// A directory directly below a drive root (`X:\name` in compared
/// form), or the drive root itself, is never deletable: its component
/// count, as either platform's path parsing gives it, is at most 3.
pub proof fn lemma_top_level_directory_refused(
    canonical: Seq<char>,
    components: nat,
    file_name: Option<Seq<char>>,
    system_file: bool,
    exe: Option<Seq<char>>,
)
    requires
        simple_drive_path(compared_form(canonical)),
        !compared_form(canonical).skip(3).contains('\\'),
        component_count_on(compared_form(canonical), components, '/') || component_count_on(
            compared_form(canonical),
            components,
            '\\',
        ),
    ensures
        safety_verdict(canonical, components, file_name, true, system_file, exe) is Some,
{
    lemma_compared_form_has_no_slash(canonical);
    lemma_count_char_absent(compared_form(canonical).skip(3), '\\');
    assert(components <= 3);
}

/// A file whose name, as either platform's path parsing gives it, is a
/// system file name is never deletable.
pub proof fn lemma_system_file_name_refused(
    canonical: Seq<char>,
    components: nat,
    file_name: Option<Seq<char>>,
    sep: char,
    is_dir: bool,
    system_file: bool,
    exe: Option<Seq<char>>,
)
    requires
        name_fixed_on(canonical, file_name, sep),
        has_plain_name_on(canonical, sep),
        is_blocked_name(lowercase_of(last_name_on(canonical, sep))),
    ensures
        safety_verdict(canonical, components, file_name, is_dir, system_file, exe) is Some,
{
}

/// An entry the system marks as a system file is never deletable.
pub proof fn lemma_system_file_refused(
    canonical: Seq<char>,
    components: nat,
    file_name: Option<Seq<char>>,
    is_dir: bool,
    exe: Option<Seq<char>>,
)
    ensures
        safety_verdict(canonical, components, file_name, is_dir, true, exe) is Some,
{
}

/// Every listed system location is protected: a path whose compared
/// form begins with one of them is refused, as a protected system path
/// unless it is a drive root or a top-level directory.
pub proof fn lemma_system_locations_refused(
    clean: Seq<char>,
    l: Seq<char>,
    name: Seq<char>,
    components: nat,
    is_dir: bool,
    system_file: bool,
    el: Option<Seq<char>>,
    loc: Seq<char>,
)
    requires
        loc == "c:\\windows"@ ||
        loc == "c:\\program files"@ ||
        loc == "c:\\program files (x86)"@ ||
        loc == "c:\\programdata"@ ||
        loc == "c:\\$recycle.bin"@ ||
        loc == "c:\\system volume information"@ ||
        loc == "c:\\recovery"@ ||
        loc == "c:\\$sysreset"@ ||
        loc == "c:\\config.msi"@ ||
        loc == "c:\\boot"@ ||
        loc == "c:\\efi"@ ||
        loc == "c:\\$windows.~bt"@ ||
        loc == "c:\\$windows.~ws"@ ||
        loc == "c:\\inetpub"@ ||
        loc == "c:\\perflogs"@ ||
        loc == "c:\\proclogs"@ ||
        loc == "c:\\msocache"@ ||
        loc == "c:\\documents and settings"@,
        starts_with(l, loc),
    ensures
        verdict_on(clean, l, name, components, is_dir, system_file, el) is Some,
        !is_drive_root(l) && !(components <= 3 && is_dir) ==> verdict_on(
            clean,
            l,
            name,
            components,
            is_dir,
            system_file,
            el,
        ) == Some((BlockReason::ProtectedSystemPath, clean)),
{
    if loc == "c:\\windows"@ {
        assert(blocked_prefixes()[0] == loc);
    }
    if loc == "c:\\program files"@ {
        assert(blocked_prefixes()[1] == loc);
    }
    if loc == "c:\\program files (x86)"@ {
        assert(blocked_prefixes()[2] == loc);
    }
    if loc == "c:\\programdata"@ {
        assert(blocked_prefixes()[3] == loc);
    }
    if loc == "c:\\$recycle.bin"@ {
        assert(blocked_prefixes()[4] == loc);
    }
    if loc == "c:\\system volume information"@ {
        assert(blocked_prefixes()[5] == loc);
    }
    if loc == "c:\\recovery"@ {
        assert(blocked_prefixes()[6] == loc);
    }
    if loc == "c:\\$sysreset"@ {
        assert(blocked_prefixes()[7] == loc);
    }
    if loc == "c:\\config.msi"@ {
        assert(blocked_prefixes()[8] == loc);
    }
    if loc == "c:\\boot"@ {
        assert(blocked_prefixes()[9] == loc);
    }
    if loc == "c:\\efi"@ {
        assert(blocked_prefixes()[10] == loc);
    }
    if loc == "c:\\$windows.~bt"@ {
        assert(blocked_prefixes()[11] == loc);
    }
    if loc == "c:\\$windows.~ws"@ {
        assert(blocked_prefixes()[12] == loc);
    }
    if loc == "c:\\inetpub"@ {
        assert(blocked_prefixes()[13] == loc);
    }
    if loc == "c:\\perflogs"@ {
        assert(blocked_prefixes()[14] == loc);
    }
    if loc == "c:\\proclogs"@ {
        assert(blocked_prefixes()[15] == loc);
    }
    if loc == "c:\\msocache"@ {
        assert(blocked_prefixes()[16] == loc);
    }
    if loc == "c:\\documents and settings"@ {
        assert(blocked_prefixes()[17] == loc);
    }
    assert(under_blocked_prefix(l));
}

/// The first occurrence of `p` in `s` from `from` on is at `k` when it
/// occurs at `k` and nowhere between.
proof fn lemma_find_from_first(s: Seq<char>, p: Seq<char>, from: int, k: int)
    requires
        0 <= from <= k,
        k + p.len() <= s.len(),
        s.subrange(k, k + p.len()) == p,
        forall|q: int| from <= q < k ==> #[trigger] s.subrange(q, q + p.len()) != p,
    ensures
        find_from(s, p, from) == k,
    decreases k - from,
{
    if from < k {
        lemma_find_from_first(s, p, from + 1, k);
    }
}

/// The AppData folder itself and each folder directly in it are
/// refused: where `\appdata` first occurs in the compared form and at
/// most one more backslash follows it.
pub proof fn lemma_appdata_folders_refused(
    clean: Seq<char>,
    l: Seq<char>,
    name: Seq<char>,
    components: nat,
    is_dir: bool,
    system_file: bool,
    el: Option<Seq<char>>,
    before: Seq<char>,
    after: Seq<char>,
)
    requires
        l == before + seq!['\\', 'a', 'p', 'p', 'd', 'a', 't', 'a'] + after,
        forall|q: int|
            0 <= q < before.len() ==> #[trigger] l.subrange(q, q + 8) != seq!['\\', 'a', 'p', 'p', 'd', 'a', 't', 'a'],
        count_char(after, '\\') <= 1,
    ensures
        verdict_on(clean, l, name, components, is_dir, system_file, el) is Some,
{
    let m = seq!['\\', 'a', 'p', 'p', 'd', 'a', 't', 'a'];
    assert(m == appdata_marker());
    assert(l.subrange(before.len() as int, before.len() + 8int) =~= m);
    lemma_find_from_first(l, m, 0, before.len() as int);
    assert(l.skip(before.len() + 8int) =~= after);
    assert(is_appdata_dir(l));
}

/// The protected AppData subtrees are refused: a path whose compared
/// form contains one of them anywhere.
pub proof fn lemma_appdata_subtrees_refused(
    clean: Seq<char>,
    l: Seq<char>,
    name: Seq<char>,
    components: nat,
    is_dir: bool,
    system_file: bool,
    el: Option<Seq<char>>,
    root: Seq<char>,
)
    requires
        root == "\\appdata\\local\\microsoft"@ ||
        root == "\\appdata\\local\\packages"@ ||
        root == "\\appdata\\roaming\\microsoft"@,
        contains_text(l, root),
    ensures
        verdict_on(clean, l, name, components, is_dir, system_file, el) is Some,
{
    if root == "\\appdata\\local\\microsoft"@ {
        assert(appdata_roots()[0] == root);
    }
    if root == "\\appdata\\local\\packages"@ {
        assert(appdata_roots()[1] == root);
    }
    if root == "\\appdata\\roaming\\microsoft"@ {
        assert(appdata_roots()[2] == root);
    }
    assert(in_appdata_root(l));
}

/// The system file names are refused, whatever the directory: a path
/// whose file name (lowercase) is one of them.
pub proof fn lemma_system_file_names_refused(
    clean: Seq<char>,
    l: Seq<char>,
    name: Seq<char>,
    components: nat,
    is_dir: bool,
    system_file: bool,
    el: Option<Seq<char>>,
)
    requires
        name == "pagefile.sys"@ ||
        name == "hiberfil.sys"@ ||
        name == "swapfile.sys"@ ||
        name == "bootmgr"@ ||
        name == "bootnxt"@ ||
        name == "ntldr"@ ||
        name == "ntdetect.com"@ ||
        name == "io.sys"@ ||
        name == "msdos.sys"@ ||
        name == "ntuser.dat"@ ||
        name == "ntuser.dat.log"@ ||
        name == "ntuser.dat.log1"@ ||
        name == "ntuser.dat.log2"@ ||
        name == "ntuser.ini"@ ||
        name == "usrclass.dat"@ ||
        name == "usrclass.dat.log"@ ||
        name == "usrclass.dat.log1"@ ||
        name == "usrclass.dat.log2"@ ||
        name == "desktop.ini"@,
    ensures
        verdict_on(clean, l, name, components, is_dir, system_file, el) is Some,
{
    if name == "pagefile.sys"@ {
        assert(blocked_file_names()[0] == name);
    }
    if name == "hiberfil.sys"@ {
        assert(blocked_file_names()[1] == name);
    }
    if name == "swapfile.sys"@ {
        assert(blocked_file_names()[2] == name);
    }
    if name == "bootmgr"@ {
        assert(blocked_file_names()[3] == name);
    }
    if name == "bootnxt"@ {
        assert(blocked_file_names()[4] == name);
    }
    if name == "ntldr"@ {
        assert(blocked_file_names()[5] == name);
    }
    if name == "ntdetect.com"@ {
        assert(blocked_file_names()[6] == name);
    }
    if name == "io.sys"@ {
        assert(blocked_file_names()[7] == name);
    }
    if name == "msdos.sys"@ {
        assert(blocked_file_names()[8] == name);
    }
    if name == "ntuser.dat"@ {
        assert(blocked_file_names()[9] == name);
    }
    if name == "ntuser.dat.log"@ {
        assert(blocked_file_names()[10] == name);
    }
    if name == "ntuser.dat.log1"@ {
        assert(blocked_file_names()[11] == name);
    }
    if name == "ntuser.dat.log2"@ {
        assert(blocked_file_names()[12] == name);
    }
    if name == "ntuser.ini"@ {
        assert(blocked_file_names()[13] == name);
    }
    if name == "usrclass.dat"@ {
        assert(blocked_file_names()[14] == name);
    }
    if name == "usrclass.dat.log"@ {
        assert(blocked_file_names()[15] == name);
    }
    if name == "usrclass.dat.log1"@ {
        assert(blocked_file_names()[16] == name);
    }
    if name == "usrclass.dat.log2"@ {
        assert(blocked_file_names()[17] == name);
    }
    if name == "desktop.ini"@ {
        assert(blocked_file_names()[18] == name);
    }
    assert(is_blocked_name(name));
}

/// Files of the user registry are refused: a path whose file name
/// (lowercase) begins with `ntuser.`.
pub proof fn lemma_user_registry_files_refused(
    clean: Seq<char>,
    l: Seq<char>,
    name: Seq<char>,
    components: nat,
    is_dir: bool,
    system_file: bool,
    el: Option<Seq<char>>,
)
    requires
        starts_with(name, seq!['n', 't', 'u', 's', 'e', 'r', '.']),
    ensures
        verdict_on(clean, l, name, components, is_dir, system_file, el) is Some,
{
    assert(ntuser_prefix() == seq!['n', 't', 'u', 's', 'e', 'r', '.']);
}

/// The application's own files are refused: its executable, and any
/// folder that contains it.
pub proof fn lemma_own_files_refused(
    clean: Seq<char>,
    l: Seq<char>,
    name: Seq<char>,
    components: nat,
    is_dir: bool,
    system_file: bool,
    e: Seq<char>,
)
    requires
        starts_with(e, l),
    ensures
        verdict_on(clean, l, name, components, is_dir, system_file, Some(e)) is Some,
{
}

/// A drive root (`x:\` or `x:` in compared form) is refused as such.
pub proof fn lemma_drive_letters_refused(
    clean: Seq<char>,
    l: Seq<char>,
    name: Seq<char>,
    components: nat,
    is_dir: bool,
    system_file: bool,
    el: Option<Seq<char>>,
)
    requires
        l.len() == 2 || l.len() == 3,
        'a' <= l[0] <= 'z',
        l[1] == ':',
        l.len() == 3 ==> l[2] == '\\',
    ensures
        verdict_on(clean, l, name, components, is_dir, system_file, el) == Some(
            (BlockReason::DriveRoot, Seq::<char>::empty()),
        ),
{
}

} // verus!
