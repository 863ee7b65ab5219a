//! The command line: its arguments and their decimal numbers.

use vstd::prelude::*;

use crate::text::{chars_of, concat, owned, text_eq};

verus! {

// ── decimal numbers ─────────────────────────────────────────────────

/// An ASCII decimal digit.
pub open spec fn is_digit(c: char) -> bool {
    '0' <= c <= '9'
}

/// The value of a run of decimal digits.
pub open spec fn digits_value(d: Seq<char>) -> int
    decreases d.len(),
{
    if d.len() == 0 {
        0
    } else {
        10 * digits_value(d.drop_last()) + (d.last() as int - '0' as int)
    }
}

/// The text after an optional leading `+`.
pub open spec fn unsigned_digits(s: Seq<char>) -> Seq<char> {
    if s.len() > 0 && s[0] == '+' {
        s.drop_first()
    } else {
        s
    }
}

/// Every character is a decimal digit.
pub open spec fn all_digits(d: Seq<char>) -> bool {
    forall|i: int| 0 <= i < d.len() ==> #[trigger] is_digit(d[i])
}

/// What `usize::from_str` accepts and gives: an optional `+`, then one
/// or more decimal digits whose value fits in a `usize`.
pub open spec fn parsed_usize(s: Seq<char>) -> Option<usize> {
    let d = unsigned_digits(s);
    if d.len() > 0 && all_digits(d) && digits_value(d) <= usize::MAX {
        Some(digits_value(d) as usize)
    } else {
        None
    }
}

/// Parse a decimal `usize` the way `str::parse` does.
pub fn parse_usize(s: &str) -> (r: Option<usize>)
    ensures
        r == parsed_usize(s@),
{
    let v = chars_of(s);
    let start: usize = if v.len() > 0 && v[0] == '+' {
        1
    } else {
        0
    };
    let ghost d = unsigned_digits(s@);
    assert(d =~= v@.skip(start as int));
    if start >= v.len() {
        return None;
    }
    let mut value: Option<usize> = Some(0);
    let mut i = start;
    while i < v.len()
        invariant
            v@ == s@,
            start <= i <= v@.len(),
            d == v@.skip(start as int),
            d == unsigned_digits(s@),
            forall|j: int| 0 <= j < i - start ==> #[trigger] is_digit(d[j]),
            value matches Some(x) ==> x == digits_value(d.take(i - start)),
            value is None ==> digits_value(d.take(i - start)) > usize::MAX,
        decreases v.len() - i,
    {
        let c = v[i];
        if !('0' <= c && c <= '9') {
            assert(!is_digit(d[i - start]));
            assert(!all_digits(d));
            return None;
        }
        let dig = (c as u32 - '0' as u32) as usize;
        assert(d.take(i + 1 - start).drop_last() =~= d.take(i - start));
        assert(d.take(i + 1 - start).last() == c);
        proof {
            if value is None {
                assert(digits_value(d.take(i + 1 - start)) == 10 * digits_value(d.take(i - start)) + dig);
            }
        }
        value = match value {
            Some(x) => match x.checked_mul(10) {
                Some(y) => y.checked_add(dig),
                None => None,
            },
            None => None,
        };
        i = i + 1;
    }
    assert(d.take(i - start) =~= d);
    value
}

// ── arguments ───────────────────────────────────────────────────────

/// A flag that takes a number.
#[derive(Debug, Clone, Copy, PartialEq, Eq, Structural)]
pub enum ArgFlag {
    Workers,
    Depth,
    Top,
}

/// Why the command line was refused.
#[derive(Debug)]
pub enum ArgError {
    /// No path was given.
    Usage,
    /// A flag was not followed by a number.
    MissingNumber(ArgFlag),
    /// An argument starting with `-` that is no known flag.
    UnknownFlag(String),
}

/// The usage line.
pub open spec fn usage_text() -> Seq<char> {
    "Usage: windirscope <PATH> [--workers N] [--depth N] [--top N]"@
}

impl ArgError {
    /// The text printed before exiting.
    pub fn message(&self) -> (m: String)
        ensures
            self is Usage ==> m@ == usage_text(),
            self == ArgError::MissingNumber(ArgFlag::Workers) ==> m@ == "--workers requires a number"@,
            self == ArgError::MissingNumber(ArgFlag::Depth) ==> m@ == "--depth requires a number"@,
            self == ArgError::MissingNumber(ArgFlag::Top) ==> m@ == "--top requires a number"@,
            self matches ArgError::UnknownFlag(f) ==> m@ == "Unknown flag: "@ + f@,
    {
        match self {
            ArgError::Usage => owned("Usage: windirscope <PATH> [--workers N] [--depth N] [--top N]"),
            ArgError::MissingNumber(ArgFlag::Workers) => owned("--workers requires a number"),
            ArgError::MissingNumber(ArgFlag::Depth) => owned("--depth requires a number"),
            ArgError::MissingNumber(ArgFlag::Top) => owned("--top requires a number"),
            ArgError::UnknownFlag(f) => concat("Unknown flag: ", f.as_str()),
        }
    }
}

/// The parsed command line.
#[derive(Debug)]
pub struct CliArgs {
    pub root: String,
    pub workers: usize,
    pub depth: Option<usize>,
    pub top: usize,
}

/// Workers used when none are asked for.
pub const DEFAULT_CLI_WORKERS: usize = 4;

/// Directories listed when no count is asked for.
pub const DEFAULT_TOP: usize = 10;

/// Parse state: the index of the path argument seen last, the worker
/// count, the depth limit and the listing length.
pub type ArgState = (Option<int>, usize, Option<usize>, usize);

/// The number given at position `j`, if there is one.
pub open spec fn number_at(args: Seq<Seq<char>>, j: int) -> Option<usize> {
    if 0 <= j < args.len() {
        parsed_usize(args[j])
    } else {
        None
    }
}

/// Reading the arguments from position `i` on, in state `st`: the
/// final state, or the failing flag (`None` for an unknown flag) and
/// its position.
pub open spec fn parse_from(args: Seq<Seq<char>>, i: int, st: ArgState) -> Result<ArgState, (Option<ArgFlag>, int)>
    decreases args.len() - i,
{
    if i < 0 || i >= args.len() {
        Ok(st)
    } else if args[i] == "--workers"@ {
        match number_at(args, i + 1) {
            Some(n) => parse_from(args, i + 2, (st.0, n, st.2, st.3)),
            None => Err((Some(ArgFlag::Workers), i)),
        }
    } else if args[i] == "--depth"@ {
        match number_at(args, i + 1) {
            Some(n) => parse_from(args, i + 2, (st.0, st.1, Some(n), st.3)),
            None => Err((Some(ArgFlag::Depth), i)),
        }
    } else if args[i] == "--top"@ {
        match number_at(args, i + 1) {
            Some(n) => parse_from(args, i + 2, (st.0, st.1, st.2, n)),
            None => Err((Some(ArgFlag::Top), i)),
        }
    } else if args[i].len() > 0 && args[i][0] == '-' {
        Err((None, i))
    } else {
        parse_from(args, i + 1, (Some(i), st.1, st.2, st.3))
    }
}

/// The arguments as texts.
pub open spec fn arg_texts(args: Seq<String>) -> Seq<Seq<char>> {
    args.map_values(|s: String| s@)
}

/// Parse the command line (`args[0]` is the program): a path, and
/// optionally `--workers N`, `--depth N` and `--top N`; the last path
/// given wins.
pub fn parse_args(args: &Vec<String>) -> (r: Result<CliArgs, ArgError>)
    ensures
        args@.len() < 2 ==> r matches Err(ArgError::Usage),
        args@.len() >= 2 ==> match parse_from(arg_texts(args@), 1, (None, DEFAULT_CLI_WORKERS, None, DEFAULT_TOP)) {
            Ok((None, _, _, _)) => r matches Err(ArgError::Usage),
            Ok((Some(k), w, d, t)) => r matches Ok(c) && c.root@ == args@[k]@ && c.workers == w && c.depth == d
                && c.top == t,
            Err((Some(f), _)) => r matches Err(ArgError::MissingNumber(g)) && g == f,
            Err((None, k)) => r matches Err(ArgError::UnknownFlag(s)) && s@ == args@[k]@,
        },
{
    if args.len() < 2 {
        return Err(ArgError::Usage);
    }
    let ghost a = arg_texts(args@);
    let mut root: Option<usize> = None;
    let mut workers: usize = DEFAULT_CLI_WORKERS;
    let mut depth: Option<usize> = None;
    let mut top: usize = DEFAULT_TOP;
    let mut i: usize = 1;
    while i < args.len()
        invariant
            a == arg_texts(args@),
            1 <= i <= args@.len(),
            root matches Some(k) ==> k < args@.len(),
            parse_from(a, 1, (None, DEFAULT_CLI_WORKERS, None, DEFAULT_TOP)) == parse_from(
                a,
                i as int,
                (
                    match root {
                        Some(k) => Some(k as int),
                        None => None,
                    },
                    workers,
                    depth,
                    top,
                ),
            ),
        decreases args.len() + 1 - i,
    {
        let ghost st: ArgState = (
            match root {
                Some(k) => Some(k as int),
                None => None,
            },
            workers,
            depth,
            top,
        );
        assert(a[i as int] == args@[i as int]@);
        let arg = args[i].as_str();
        if text_eq(arg, "--workers") {
            let n = if i + 1 < args.len() {
                assert(a[i + 1] == args@[i + 1]@);
                parse_usize(args[i + 1].as_str())
            } else {
                None
            };
            match n {
                Some(n) => {
                    workers = n;
                },
                None => {
                    return Err(ArgError::MissingNumber(ArgFlag::Workers));
                },
            }
            i = i + 2;
        } else if text_eq(arg, "--depth") {
            let n = if i + 1 < args.len() {
                assert(a[i + 1] == args@[i + 1]@);
                parse_usize(args[i + 1].as_str())
            } else {
                None
            };
            match n {
                Some(n) => {
                    depth = Some(n);
                },
                None => {
                    return Err(ArgError::MissingNumber(ArgFlag::Depth));
                },
            }
            i = i + 2;
        } else if text_eq(arg, "--top") {
            let n = if i + 1 < args.len() {
                assert(a[i + 1] == args@[i + 1]@);
                parse_usize(args[i + 1].as_str())
            } else {
                None
            };
            match n {
                Some(n) => {
                    top = n;
                },
                None => {
                    return Err(ArgError::MissingNumber(ArgFlag::Top));
                },
            }
            i = i + 2;
        } else {
            let cs = chars_of(arg);
            if cs.len() > 0 && cs[0] == '-' {
                return Err(ArgError::UnknownFlag(owned(arg)));
            }
            root = Some(i);
            i = i + 1;
        }
    }
    match root {
        Some(k) => Ok(CliArgs { root: owned(args[k].as_str()), workers, depth, top }),
        None => Err(ArgError::Usage),
    }
}

} // verus!
