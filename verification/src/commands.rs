//! The decisions behind the desktop front end's commands: accepting a
//! scan root, configuring a scan, throttling progress reports,
//! recognising access-denied errors, listing drives and choosing the
//! unit a byte count is shown in.

use std::path::PathBuf;
use vstd::prelude::*;

use crate::config::ScanConfig;
use crate::event::ScanError;
use crate::safety::is_ascii_letter;
use crate::text::{chars_of, concat, contains_text, lowercase_of, owned, string_from_chars, to_lowercase, vec_find};

verus! {

// ── whitespace trimming ─────────────────────────────────────────────

/// Unicode's White_Space property (what `char::is_whitespace` tests).
pub open spec fn is_white_space(c: char) -> bool {
    let u = c as u32;
    ||| 0x9 <= u <= 0xD
    ||| u == 0x20
    ||| u == 0x85
    ||| u == 0xA0
    ||| u == 0x1680
    ||| 0x2000 <= u <= 0x200A
    ||| u == 0x2028
    ||| u == 0x2029
    ||| u == 0x202F
    ||| u == 0x205F
    ||| u == 0x3000
}

fn white_space(c: char) -> (b: bool)
    ensures
        b == is_white_space(c),
{
    let u = c as u32;
    (0x9 <= u && u <= 0xD) || u == 0x20 || u == 0x85 || u == 0xA0 || u == 0x1680 || (0x2000 <= u
        && u <= 0x200A) || u == 0x2028 || u == 0x2029 || u == 0x202F || u == 0x205F || u == 0x3000
}

/// `s` without its leading white space.
pub open spec fn trim_start(s: Seq<char>) -> Seq<char>
    decreases s.len(),
{
    if s.len() > 0 && is_white_space(s[0]) {
        trim_start(s.drop_first())
    } else {
        s
    }
}

/// `s` without its trailing white space.
pub open spec fn trim_end(s: Seq<char>) -> Seq<char>
    decreases s.len(),
{
    if s.len() > 0 && is_white_space(s.last()) {
        trim_end(s.drop_last())
    } else {
        s
    }
}

/// `s` without leading and trailing white space (what `str::trim`
/// gives).
pub open spec fn trim_text(s: Seq<char>) -> Seq<char> {
    trim_end(trim_start(s))
}

/// Remove leading and trailing white space.
pub fn trim(s: &str) -> (r: String)
    ensures
        r@ == trim_text(s@),
{
    let v = chars_of(s);
    let mut i: usize = 0;
    assert(v@.skip(0) =~= v@);
    while i < v.len() && white_space(v[i])
        invariant
            i <= v@.len(),
            trim_start(v@) == trim_start(v@.skip(i as int)),
        decreases v.len() - i,
    {
        assert(v@.skip(i as int).drop_first() =~= v@.skip(i + 1));
        i = i + 1;
    }
    assert(trim_start(v@) == v@.skip(i as int));
    let mut j: usize = v.len();
    assert(v@.skip(i as int) =~= v@.subrange(i as int, j as int));
    while j > i && white_space(v[j - 1])
        invariant
            i <= j <= v@.len(),
            trim_text(v@) == trim_end(v@.subrange(i as int, j as int)),
        decreases j,
    {
        assert(v@.subrange(i as int, j as int).drop_last() =~= v@.subrange(i as int, j - 1));
        j = j - 1;
    }
    let mut out: Vec<char> = Vec::new();
    let mut k = i;
    while k < j
        invariant
            i <= k <= j <= v@.len(),
            out@ == v@.subrange(i as int, k as int),
        decreases j - k,
    {
        out.push(v[k]);
        k = k + 1;
        assert(out@ =~= v@.subrange(i as int, k as int));
    }
    string_from_chars(out.as_slice())
}

// ── scan root ───────────────────────────────────────────────────────

/// Why a scan root was refused.
#[derive(Debug)]
pub enum RootError {
    /// Nothing but white space was given.
    Empty,
    /// The path does not exist.
    Missing(String),
    /// The path exists but is not a directory.
    NotDirectory(String),
}

impl RootError {
    /// The text shown to the user.
    pub fn message(&self) -> (m: String)
        ensures
            self is Empty ==> m@ == "Path cannot be empty"@,
            self matches RootError::Missing(p) ==> m@ == "Path does not exist: "@ + p@,
            self matches RootError::NotDirectory(p) ==> m@ == "Path is not a directory: "@ + p@,
    {
        match self {
            RootError::Empty => owned("Path cannot be empty"),
            RootError::Missing(p) => concat("Path does not exist: ", p.as_str()),
            RootError::NotDirectory(p) => concat("Path is not a directory: ", p.as_str()),
        }
    }
}

/// A bare drive designator such as `C:` names the drive's current
/// directory; the root of the drive (`C:\`) is meant.
pub open spec fn drive_rooted(t: Seq<char>) -> Seq<char> {
    if t.len() == 2 && is_ascii_letter(t[0]) && t[1] == ':' {
        t.push('\\')
    } else {
        t
    }
}

/// Turn what the user typed into the scan root's path text: trimmed,
/// and a bare drive designator turned into the drive root. Refused
/// when nothing but white space was given. (Whether the path exists
/// and is a directory is asked of the file system afterwards; see
/// `check_root`.)
pub fn normalize_root(raw: &str) -> (r: Result<String, RootError>)
    ensures
        trim_text(raw@).len() == 0 <==> r is Err,
        r is Err ==> r matches Err(RootError::Empty),
        r matches Ok(p) ==> p@ == drive_rooted(trim_text(raw@)),
{
    let t = trim(raw);
    let v = chars_of(t.as_str());
    if v.len() == 0 {
        return Err(RootError::Empty);
    }
    if v.len() == 2 && (('a' <= v[0] && v[0] <= 'z') || ('A' <= v[0] && v[0] <= 'Z')) && v[1] == ':' {
        let mut w = v.clone();
        w.push('\\');
        return Ok(string_from_chars(w.as_slice()));
    }
    Ok(t)
}

/// The file system's answer about a normalised root: it must exist and
/// be a directory.
pub fn check_root(path: String, exists: bool, is_dir: bool) -> (r: Result<String, RootError>)
    ensures
        !exists ==> (r matches Err(RootError::Missing(p)) && p@ == path@),
        exists && !is_dir ==> (r matches Err(RootError::NotDirectory(p)) && p@ == path@),
        exists && is_dir ==> (r matches Ok(p) && p@ == path@),
{
    if !exists {
        Err(RootError::Missing(path))
    } else if !is_dir {
        Err(RootError::NotDirectory(path))
    } else {
        Ok(path)
    }
}

/// The configuration of a scan started from the front end: the default
/// configuration, with at least one worker when a worker count is
/// given and the depth limit when one is given.
pub fn scan_config_for(root: PathBuf, workers: Option<u32>, depth: Option<u32>) -> (c: ScanConfig)
    ensures
        c.root == root,
        c.workers == (match workers {
            Some(w) => if w < 1 { 1 } else { w as usize },
            None => 4,
        }),
        c.max_depth == (match depth {
            Some(d) => Some(d as usize),
            None => None::<usize>,
        }),
        !c.follow_symlinks,
{
    let mut c = ScanConfig::new(root);
    if let Some(w) = workers {
        c.workers = if w < 1 { 1 } else { w as usize };
    }
    if let Some(d) = depth {
        c.max_depth = Some(d as usize);
    }
    c
}

// ── progress ────────────────────────────────────────────────────────

/// The front end reports every this many directories ...
pub const GUI_PROGRESS_EVERY: u64 = 50;

/// ... and each of the first few.
pub const GUI_PROGRESS_EARLY: u64 = 5;

/// The command line prints progress every this many directories.
pub const CLI_PROGRESS_EVERY: u64 = 100;

/// Running totals of a scan's progress events, and when to report.
pub struct ProgressTracker {
    pub dirs_scanned: u64,
    pub total_files: u64,
    pub total_bytes: u64,
    pub errors: u64,
    pub every: u64,
    pub early: u64,
}

impl ProgressTracker {
    /// Nothing counted yet; report every `every` directories and each
    /// of the first `early`.
    pub fn new(every: u64, early: u64) -> (t: Self)
        requires
            every > 0,
        ensures
            t.dirs_scanned == 0 && t.total_files == 0 && t.total_bytes == 0 && t.errors == 0,
            t.every == every && t.early == early,
    {
        ProgressTracker { dirs_scanned: 0, total_files: 0, total_bytes: 0, errors: 0, every, early }
    }

    /// Whether one more directory with `files` files can be counted.
    pub fn can_count(&self, files: u64) -> (b: bool)
        ensures
            b == (self.dirs_scanned < u64::MAX && self.total_files + files <= u64::MAX),
    {
        self.dirs_scanned < u64::MAX && files <= u64::MAX - self.total_files
    }

    /// Count one scanned directory; say whether to report now.
    pub fn record_dir(&mut self, files: u64, bytes_so_far: u64) -> (report: bool)
        requires
            old(self).every > 0,
            old(self).dirs_scanned < u64::MAX,
            old(self).total_files + files <= u64::MAX,
        ensures
            final(self).dirs_scanned == old(self).dirs_scanned + 1,
            final(self).total_files == old(self).total_files + files,
            final(self).total_bytes == bytes_so_far,
            final(self).errors == old(self).errors,
            final(self).every == old(self).every,
            final(self).early == old(self).early,
            report == (final(self).dirs_scanned % final(self).every == 0
                || final(self).dirs_scanned <= final(self).early),
    {
        self.dirs_scanned = self.dirs_scanned + 1;
        self.total_files = self.total_files + files;
        self.total_bytes = bytes_so_far;
        self.dirs_scanned % self.every == 0 || self.dirs_scanned <= self.early
    }

    /// Count one error.
    pub fn record_error(&mut self)
        requires
            old(self).errors < u64::MAX,
        ensures
            final(self).errors == old(self).errors + 1,
            final(self).dirs_scanned == old(self).dirs_scanned,
            final(self).total_files == old(self).total_files,
            final(self).total_bytes == old(self).total_bytes,
            final(self).every == old(self).every,
            final(self).early == old(self).early,
    {
        self.errors = self.errors + 1;
    }
}

// ── access-denied errors ────────────────────────────────────────────

/// A lowercase text that speaks of access, denial or permission.
pub open spec fn mentions_denial(l: Seq<char>) -> bool {
    contains_text(l, "access"@) || contains_text(l, "denied"@) || contains_text(l, "permission"@)
}

/// An error message that speaks of access, denial or permission (in
/// any letter case).
pub open spec fn denied_message(m: Seq<char>) -> bool {
    mentions_denial(lowercase_of(m))
}

/// Whether an already lowercased message speaks of access, denial or
/// permission.
pub fn mentions_denial_in(lowered: &str) -> (b: bool)
    ensures
        b == mentions_denial(lowered@),
{
    let l = chars_of(lowered);
    let a = chars_of("access");
    let d = chars_of("denied");
    let p = chars_of("permission");
    vec_find(&l, &a).is_some() || vec_find(&l, &d).is_some() || vec_find(&l, &p).is_some()
}

/// Whether an error message reports a directory that could not be
/// read for lack of rights.
pub fn is_access_denied(message: &str) -> (b: bool)
    ensures
        b == denied_message(message@),
{
    mentions_denial_in(to_lowercase(message).as_str())
}

/// How many skipped paths a finished scan lists.
pub const SKIPPED_SAMPLE: usize = 50;

/// Indices of the errors among the first `n` whose message reports a
/// denied access, ascending.
pub open spec fn denied_indices(errors: Seq<ScanError>, n: int) -> Seq<usize>
    decreases n,
{
    if n <= 0 {
        Seq::empty()
    } else if denied_message(errors[n - 1].message@) {
        denied_indices(errors, n - 1).push((n - 1) as usize)
    } else {
        denied_indices(errors, n - 1)
    }
}

/// The directories skipped for lack of rights: how many there are, and
/// the indices of the first `SKIPPED_SAMPLE` of them.
pub fn skipped_summary(errors: &Vec<ScanError>) -> (r: (u64, Vec<usize>))
    ensures
        r.0 == denied_indices(errors@, errors@.len() as int).len(),
        r.1@ == denied_indices(errors@, errors@.len() as int).take(
            if denied_indices(errors@, errors@.len() as int).len() < SKIPPED_SAMPLE {
                denied_indices(errors@, errors@.len() as int).len() as int
            } else {
                SKIPPED_SAMPLE as int
            },
        ),
{
    let mut all: Vec<usize> = Vec::new();
    let mut i: usize = 0;
    while i < errors.len()
        invariant
            i <= errors@.len(),
            all@ == denied_indices(errors@, i as int),
            all@.len() <= i,
        decreases errors.len() - i,
    {
        if is_access_denied(errors[i].message.as_str()) {
            all.push(i);
        }
        i = i + 1;
    }
    let count = all.len() as u64;
    let ghost full = all@;
    all.truncate(SKIPPED_SAMPLE);
    assert(all@ =~= full.take(if full.len() < SKIPPED_SAMPLE { full.len() as int } else { SKIPPED_SAMPLE as int }));
    (count, all)
}

// ── drives ──────────────────────────────────────────────────────────

/// The root of drive number `i` (0 for `A:\`, 1 for `B:\`, ...).
pub open spec fn drive_root_text(i: int) -> Seq<char> {
    seq![(65 + i) as char, ':', '\\']
}

/// The roots of the drives whose bits are set in `mask`, from bit `i`
/// up to bit 25.
pub open spec fn drive_roots_from(mask: u32, i: int) -> Seq<Seq<char>>
    decreases 26 - i,
{
    if i < 0 || i >= 26 {
        Seq::empty()
    } else {
        let rest = drive_roots_from(mask, i + 1);
        if mask & (1u32 << (i as u32)) != 0 {
            seq![drive_root_text(i)] + rest
        } else {
            rest
        }
    }
}

/// The drive roots (`A:\` to `Z:\`) present in a logical-drive bit
/// mask, in letter order.
pub fn drive_roots(mask: u32) -> (r: Vec<String>)
    ensures
        r@.map_values(|s: String| s@) == drive_roots_from(mask, 0),
{
    let mut r: Vec<String> = Vec::new();
    let mut i: u32 = 0;
    while i < 26
        invariant
            i <= 26,
            r@.map_values(|s: String| s@) + drive_roots_from(mask, i as int) == drive_roots_from(mask, 0),
        decreases 26 - i,
    {
        let ghost before = r@;
        if mask & (1u32 << i) != 0 {
            let letter = ((65u8 + i as u8) as char);
            let text = string_from_chars(vec![letter, ':', '\\'].as_slice());
            assert(text@ == drive_root_text(i as int));
            r.push(text);
            assert(r@.map_values(|s: String| s@) =~= before.map_values(|s: String| s@).push(text@));
        }
        i = i + 1;
    }
    assert(r@.map_values(|s: String| s@) + drive_roots_from(mask, 26) =~= r@.map_values(|s: String| s@));
    r
}

// ── byte units ──────────────────────────────────────────────────────

/// The unit a byte count is shown in.
#[derive(Debug, Clone, Copy, PartialEq, Eq, Structural)]
pub enum ByteUnit {
    Bytes,
    Kilobytes,
    Megabytes,
    Gigabytes,
    Terabytes,
}

/// 1024 to the power of the unit's rank.
pub open spec fn unit_divisor(u: ByteUnit) -> u64 {
    match u {
        ByteUnit::Bytes => 1,
        ByteUnit::Kilobytes => 1024,
        ByteUnit::Megabytes => 1048576,
        ByteUnit::Gigabytes => 1073741824,
        ByteUnit::Terabytes => 1099511627776,
    }
}

impl ByteUnit {
    /// How many bytes one of this unit is.
    pub fn divisor(&self) -> (d: u64)
        ensures
            d == unit_divisor(*self),
    {
        match self {
            ByteUnit::Bytes => 1,
            ByteUnit::Kilobytes => 1024,
            ByteUnit::Megabytes => 1048576,
            ByteUnit::Gigabytes => 1073741824,
            ByteUnit::Terabytes => 1099511627776,
        }
    }

    /// The unit's symbol.
    pub fn suffix(&self) -> (s: &'static str)
        ensures
            *self == ByteUnit::Bytes ==> s@ == "B"@,
            *self == ByteUnit::Kilobytes ==> s@ == "KB"@,
            *self == ByteUnit::Megabytes ==> s@ == "MB"@,
            *self == ByteUnit::Gigabytes ==> s@ == "GB"@,
            *self == ByteUnit::Terabytes ==> s@ == "TB"@,
    {
        match self {
            ByteUnit::Bytes => "B",
            ByteUnit::Kilobytes => "KB",
            ByteUnit::Megabytes => "MB",
            ByteUnit::Gigabytes => "GB",
            ByteUnit::Terabytes => "TB",
        }
    }
}

/// The largest unit not larger than the count (bytes below 1 KiB).
pub fn byte_unit(b: u64) -> (u: ByteUnit)
    ensures
        b >= unit_divisor(ByteUnit::Terabytes) ==> u == ByteUnit::Terabytes,
        unit_divisor(ByteUnit::Gigabytes) <= b < unit_divisor(ByteUnit::Terabytes) ==> u == ByteUnit::Gigabytes,
        unit_divisor(ByteUnit::Megabytes) <= b < unit_divisor(ByteUnit::Gigabytes) ==> u == ByteUnit::Megabytes,
        unit_divisor(ByteUnit::Kilobytes) <= b < unit_divisor(ByteUnit::Megabytes) ==> u == ByteUnit::Kilobytes,
        b < unit_divisor(ByteUnit::Kilobytes) ==> u == ByteUnit::Bytes,
{
    if b >= 1099511627776 {
        ByteUnit::Terabytes
    } else if b >= 1073741824 {
        ByteUnit::Gigabytes
    } else if b >= 1048576 {
        ByteUnit::Megabytes
    } else if b >= 1024 {
        ByteUnit::Kilobytes
    } else {
        ByteUnit::Bytes
    }
}

} // verus!
