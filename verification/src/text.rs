//! Character-level string helpers shared by the other modules.
//!
//! Strings are reasoned about through their view, a `Seq<char>`.

use vstd::prelude::*;
use vstd::string::*;

verus! {

/// Appends one character to a string (std's `String::push`).
#[verifier::external_body]
pub(crate) fn push_char(s: &mut String, c: char)
    ensures
        final(s)@ == old(s)@.push(c),
{
    s.push(c);
}

/// The characters of `s`, in order.
pub fn chars_of(s: &str) -> (v: Vec<char>)
    ensures
        v@ == s@,
{
    let mut v: Vec<char> = Vec::new();
    for c in it: s.chars()
        invariant
            v@ == it.seq().take(it.index() as int),
            it.seq() == s@,
    {
        v.push(c);
    }
    v
}

/// A string made of the characters of `v`, in order.
pub fn string_from_chars(v: &[char]) -> (s: String)
    ensures
        s@ == v@,
{
    let mut s = String::new();
    let mut i: usize = 0;
    while i < v.len()
        invariant
            i <= v.len(),
            s@ == v@.subrange(0, i as int),
        decreases v.len() - i,
    {
        push_char(&mut s, v[i]);
        i = i + 1;
        assert(s@ =~= v@.subrange(0, i as int));
    }
    assert(v@.subrange(0, v.len() as int) =~= v@);
    s
}

/// `a` comes strictly before `b` in lexicographic order of their
/// characters (for strings this is the order of `String`'s `Ord`,
/// since UTF-8 preserves code-point order).
pub open spec fn lex_lt(a: Seq<char>, b: Seq<char>) -> bool {
    exists|i: int|
        #![trigger a.take(i), b.take(i)]
        0 <= i <= a.len() && i <= b.len() && a.take(i) == b.take(i) && ((i == a.len() && i
            < b.len()) || (i < a.len() && i < b.len() && (a[i] as u32) < (b[i] as u32)))
}

proof fn lemma_char_code_injective(a: char, b: char)
    requires
        a as u32 == b as u32,
    ensures
        a == b,
{
}

/// No text comes before itself.
pub proof fn lemma_lex_irreflexive(a: Seq<char>)
    ensures
        !lex_lt(a, a),
{
}

/// The lexicographic order is transitive.
pub proof fn lemma_lex_transitive(a: Seq<char>, b: Seq<char>, c: Seq<char>)
    requires
        lex_lt(a, b),
        lex_lt(b, c),
    ensures
        lex_lt(a, c),
{
    let i = choose|i: int|
        #![trigger a.take(i), b.take(i)]
        0 <= i <= a.len() && i <= b.len() && a.take(i) == b.take(i) && ((i == a.len() && i
            < b.len()) || (i < a.len() && i < b.len() && (a[i] as u32) < (b[i] as u32)));
    let j = choose|j: int|
        #![trigger b.take(j), c.take(j)]
        0 <= j <= b.len() && j <= c.len() && b.take(j) == c.take(j) && ((j == b.len() && j
            < c.len()) || (j < b.len() && j < c.len() && (b[j] as u32) < (c[j] as u32)));
    if i < j {
        assert(b.take(j)[i] == c.take(j)[i]);
        assert(b[i] == c[i]);
        assert(a.take(i) =~= c.take(i)) by {
            assert forall|t: int| 0 <= t < i implies a.take(i)[t] == c.take(i)[t] by {
                assert(a.take(i)[t] == b.take(i)[t]);
                assert(b.take(j)[t] == c.take(j)[t]);
            }
        }
        assert(lex_lt(a, c));
    } else if j < i {
        assert(a.take(i)[j] == b.take(i)[j]);
        assert(a[j] == b[j]);
        assert(a.take(j) =~= c.take(j)) by {
            assert forall|t: int| 0 <= t < j implies a.take(j)[t] == c.take(j)[t] by {
                assert(a.take(i)[t] == b.take(i)[t]);
                assert(b.take(j)[t] == c.take(j)[t]);
            }
        }
        assert(lex_lt(a, c));
    } else {
        assert(a.take(i) =~= c.take(i));
        assert(lex_lt(a, c));
    }
}

proof fn lemma_lex_total_from(a: Seq<char>, b: Seq<char>, i: int)
    requires
        0 <= i <= a.len(),
        i <= b.len(),
        a.take(i) == b.take(i),
    ensures
        a == b || lex_lt(a, b) || lex_lt(b, a),
    decreases a.len() - i,
{
    if i == a.len() && i == b.len() {
        assert(a =~= a.take(i));
        assert(b =~= b.take(i));
    } else if i == a.len() {
        assert(lex_lt(a, b));
    } else if i == b.len() {
        assert(b.take(i) == a.take(i));
        assert(lex_lt(b, a));
    } else if a[i] != b[i] {
        if (a[i] as u32) < (b[i] as u32) {
            assert(lex_lt(a, b));
        } else {
            if (a[i] as u32) == (b[i] as u32) {
                lemma_char_code_injective(a[i], b[i]);
            }
            assert((b[i] as u32) < (a[i] as u32));
            assert(b.take(i) == a.take(i));
            assert(lex_lt(b, a));
        }
    } else {
        assert(a.take(i + 1) =~= a.take(i).push(a[i]));
        assert(b.take(i + 1) =~= b.take(i).push(b[i]));
        lemma_lex_total_from(a, b, i + 1);
    }
}

/// Two different texts are ordered one way or the other.
pub proof fn lemma_lex_total(a: Seq<char>, b: Seq<char>)
    ensures
        a == b || lex_lt(a, b) || lex_lt(b, a),
{
    assert(a.take(0) =~= b.take(0));
    lemma_lex_total_from(a, b, 0);
}

/// Exact lexicographic comparison of two character sequences.
pub fn chars_lt(a: &Vec<char>, b: &Vec<char>) -> (r: bool)
    ensures
        r == lex_lt(a@, b@),
{
    let mut i: usize = 0;
    while i < a.len() && i < b.len() && a[i] == b[i]
        invariant
            i <= a@.len(),
            i <= b@.len(),
            a@.take(i as int) == b@.take(i as int),
        decreases a.len() - i,
    {
        assert(a@.take(i + 1) =~= a@.take(i as int).push(a@[i as int]));
        assert(b@.take(i + 1) =~= b@.take(i as int).push(b@[i as int]));
        i = i + 1;
    }
    let r = if i < a.len() && i < b.len() {
        (a[i] as u32) < (b[i] as u32)
    } else {
        i == a.len() && i < b.len()
    };
    proof {
        if r {
            assert(a@.take(i as int) == b@.take(i as int));
        } else {
            assert forall|j: int|
                0 <= j <= a@.len() && j <= b@.len() && a@.take(j) == b@.take(j) implies !((j
                == a@.len() && j < b@.len()) || (j < a@.len() && j < b@.len() && (a@[j] as u32)
                < (b@[j] as u32))) by {
                if j < i {
                    assert(a@.take(i as int)[j] == b@.take(i as int)[j]);
                } else if j > i {
                    assert(a@.take(j)[i as int] == b@.take(j)[i as int]);
                } else {
                }
            }
        }
    }
    r
}


/// The lowercase form of a text under Unicode's mapping (std's
/// `str::to_lowercase`; a capital sigma maps by its place in the word,
/// so the mapping is over the whole text).
pub uninterp spec fn lowercase_of(s: Seq<char>) -> Seq<char>;

/// std's `str::to_lowercase`: a function of the text alone.
#[verifier::external_body]
pub(crate) fn to_lowercase(s: &str) -> (r: String)
    ensures
        r@ == lowercase_of(s@),
{
    s.to_lowercase()
}

/// A path separator on every platform (`/`), or on Windows (`\\`).
pub open spec fn is_path_sep(c: char) -> bool {
    c == '/' || c == '\\'
}

/// The path text ends in a plain name on every platform: it is not
/// empty, does not begin with two separators (no UNC, device or
/// verbatim prefix), and its last character is no separator, dot or
/// colon (so it ends neither in a root, nor in `.` or `..`, nor in a
/// drive prefix).
pub open spec fn ends_in_plain_name(p: Seq<char>) -> bool {
    &&& p.len() > 0
    &&& !is_path_sep(p.last())
    &&& p.last() != '.'
    &&& p.last() != ':'
    &&& !(p.len() >= 2 && is_path_sep(p[0]) && is_path_sep(p[1]))
}

/// `n` occurs in `p` as a contiguous piece.
pub open spec fn is_piece_of(n: Seq<char>, p: Seq<char>) -> bool {
    exists|i: int| 0 <= i && i + n.len() <= p.len() && #[trigger] p.subrange(i, i + n.len()) == n
}

/// `q` is a beginning of `p`, shorter than `p`.
pub open spec fn is_proper_prefix(q: Seq<char>, p: Seq<char>) -> bool {
    q.len() < p.len() && p.take(q.len() as int) == q
}

/// `s` begins with `p`.
pub open spec fn starts_with(s: Seq<char>, p: Seq<char>) -> bool {
    p.len() <= s.len() && s.take(p.len() as int) == p
}

/// Position of the first occurrence of `p` in `s` at or after `from`,
/// or -1.
pub open spec fn find_from(s: Seq<char>, p: Seq<char>, from: int) -> int
    decreases s.len() + 1 - from,
{
    if from < 0 || from + p.len() > s.len() {
        -1
    } else if s.subrange(from, from + p.len()) == p {
        from
    } else {
        find_from(s, p, from + 1)
    }
}

/// Position of the first occurrence of `p` in `s`, or -1.
pub open spec fn find(s: Seq<char>, p: Seq<char>) -> int {
    find_from(s, p, 0)
}

/// `p` occurs in `s`.
pub open spec fn contains_text(s: Seq<char>, p: Seq<char>) -> bool {
    find(s, p) >= 0
}

/// Number of occurrences of character `c` in `s`.
pub open spec fn count_char(s: Seq<char>, c: char) -> nat
    decreases s.len(),
{
    if s.len() == 0 {
        0
    } else {
        count_char(s.drop_last(), c) + (if s.last() == c {
            1nat
        } else {
            0nat
        })
    }
}

/// `s` with every forward slash turned into a backslash.
pub open spec fn slashes_to_backslashes(s: Seq<char>) -> Seq<char> {
    s.map_values(|c: char| if c == '/' {
        '\\'
    } else {
        c
    })
}

/// Whether `s` begins with `p`.
pub fn vec_starts_with(s: &Vec<char>, p: &Vec<char>) -> (b: bool)
    ensures
        b == starts_with(s@, p@),
{
    if p.len() > s.len() {
        return false;
    }
    let mut i: usize = 0;
    while i < p.len()
        invariant
            p@.len() <= s@.len(),
            i <= p@.len(),
            forall|j: int| 0 <= j < i ==> s@[j] == p@[j],
        decreases p.len() - i,
    {
        if s[i] != p[i] {
            assert(s@.take(p@.len() as int)[i as int] != p@[i as int]);
            return false;
        }
        i = i + 1;
    }
    assert(s@.take(p@.len() as int) =~= p@);
    true
}

/// Whether `p` occurs in `s` starting exactly at `at`.
fn occurs_at(s: &Vec<char>, p: &Vec<char>, at: usize) -> (b: bool)
    requires
        at + p@.len() <= s@.len(),
    ensures
        b == (s@.subrange(at as int, at + p@.len()) == p@),
{
    let n = s.len();
    let mut i: usize = 0;
    while i < p.len()
        invariant
            n == s@.len(),
            at + p@.len() <= s@.len(),
            i <= p@.len(),
            forall|j: int| 0 <= j < i ==> s@[at + j] == p@[j],
        decreases p.len() - i,
    {
        if s[at + i] != p[i] {
            assert(s@.subrange(at as int, at + p@.len())[i as int] != p@[i as int]);
            return false;
        }
        i = i + 1;
    }
    assert(s@.subrange(at as int, at + p@.len()) =~= p@);
    true
}

/// Position of the first occurrence of `p` in `s`.
pub fn vec_find(s: &Vec<char>, p: &Vec<char>) -> (r: Option<usize>)
    ensures
        r matches Some(i) ==> i == find(s@, p@),
        r is None ==> find(s@, p@) == -1,
{
    if p.len() > s.len() {
        return None;
    }
    if p.len() == 0 {
        assert(s@.subrange(0, 0) =~= p@);
        return Some(0);
    }
    let mut at: usize = 0;
    let last = s.len() - p.len();
    while at <= last
        invariant
            p@.len() <= s@.len(),
            last == s@.len() - p@.len(),
            p@.len() > 0,
            last < usize::MAX,
            at <= last + 1,
            find(s@, p@) == find_from(s@, p@, at as int),
        decreases last + 1 - at,
    {
        if occurs_at(s, p, at) {
            return Some(at);
        }
        at = at + 1;
    }
    None
}

/// Number of occurrences of `c` in `s[from..]`.
pub fn vec_count_char_from(s: &Vec<char>, from: usize, c: char) -> (n: usize)
    requires
        from <= s@.len(),
    ensures
        n == count_char(s@.skip(from as int), c),
{
    let mut n: usize = 0;
    let mut i: usize = from;
    while i < s.len()
        invariant
            from <= i <= s@.len(),
            n == count_char(s@.subrange(from as int, i as int), c),
            n <= i - from,
        decreases s.len() - i,
    {
        assert(s@.subrange(from as int, i + 1).drop_last() =~= s@.subrange(from as int, i as int));
        if s[i] == c {
            n = n + 1;
        }
        i = i + 1;
    }
    assert(s@.subrange(from as int, s@.len() as int) =~= s@.skip(from as int));
    n
}

/// Replace every forward slash by a backslash.
pub fn vec_slashes_to_backslashes(s: &Vec<char>) -> (r: Vec<char>)
    ensures
        r@ == slashes_to_backslashes(s@),
{
    let mut r: Vec<char> = Vec::new();
    let mut i: usize = 0;
    while i < s.len()
        invariant
            i <= s@.len(),
            r@ == slashes_to_backslashes(s@.take(i as int)),
        decreases s.len() - i,
    {
        let c = if s[i] == '/' {
            '\\'
        } else {
            s[i]
        };
        r.push(c);
        i = i + 1;
        assert(r@ =~= slashes_to_backslashes(s@.take(i as int)));
    }
    assert(s@.take(s@.len() as int) =~= s@);
    r
}

/// `a` followed by `b`.
pub fn concat(a: &str, b: &str) -> (r: String)
    ensures
        r@ == a@ + b@,
{
    let mut v = chars_of(a);
    let w = chars_of(b);
    let mut i: usize = 0;
    let ghost start = v@;
    while i < w.len()
        invariant
            i <= w@.len(),
            v@ == start + w@.take(i as int),
        decreases w.len() - i,
    {
        v.push(w[i]);
        i = i + 1;
        assert(v@ =~= start + w@.take(i as int));
    }
    assert(w@.take(w@.len() as int) =~= w@);
    string_from_chars(v.as_slice())
}

/// Whether two texts are equal.
pub fn text_eq(a: &str, b: &str) -> (r: bool)
    ensures
        r == (a@ == b@),
{
    let x = chars_of(a);
    let y = chars_of(b);
    if x.len() != y.len() {
        return false;
    }
    let mut i: usize = 0;
    while i < x.len()
        invariant
            x@ == a@,
            y@ == b@,
            x@.len() == y@.len(),
            i <= x@.len(),
            forall|j: int| 0 <= j < i ==> x@[j] == y@[j],
        decreases x.len() - i,
    {
        if x[i] != y[i] {
            assert(x@[i as int] != y@[i as int]);
            return false;
        }
        i = i + 1;
    }
    assert(x@ =~= y@);
    true
}

/// The decimal digit for `d` (0..=9).
pub open spec fn digit_char(d: nat) -> char {
    if d == 0 {
        '0'
    } else if d == 1 {
        '1'
    } else if d == 2 {
        '2'
    } else if d == 3 {
        '3'
    } else if d == 4 {
        '4'
    } else if d == 5 {
        '5'
    } else if d == 6 {
        '6'
    } else if d == 7 {
        '7'
    } else if d == 8 {
        '8'
    } else {
        '9'
    }
}

/// The decimal text of `n`, without leading zeros.
pub open spec fn decimal_text(n: nat) -> Seq<char>
    decreases n,
{
    if n < 10 {
        seq![digit_char(n)]
    } else {
        decimal_text(n / 10).push(digit_char(n % 10))
    }
}

/// A decimal text is made of digits, and has at least two of them from
/// ten on.
pub proof fn lemma_decimal_digits(a: nat)
    ensures
        decimal_text(a).len() >= 1,
        a >= 10 ==> decimal_text(a).len() >= 2,
        forall|i: int| 0 <= i < decimal_text(a).len() ==> '0' <= #[trigger] decimal_text(a)[i] <= '9',
    decreases a,
{
    let d = digit_char((a % 10) as nat);
    assert('0' <= d <= '9');
    if a >= 10 {
        lemma_decimal_digits((a / 10) as nat);
        let t = decimal_text((a / 10) as nat);
        assert forall|i: int| 0 <= i < decimal_text(a).len() implies '0' <= #[trigger] decimal_text(a)[i] <= '9' by {
            if i < t.len() {
                assert(decimal_text(a)[i] == t[i]);
            } else {
                assert(decimal_text(a)[i] == d);
            }
        }
    } else {
        assert(a % 10 == a);
    }
}

/// Two numbers with the same decimal text are equal.
pub proof fn lemma_decimal_injective(a: nat, b: nat)
    requires
        decimal_text(a) == decimal_text(b),
    ensures
        a == b,
    decreases a,
{
    lemma_decimal_digits(a);
    lemma_decimal_digits(b);
    if a >= 10 && b >= 10 {
        let ta = decimal_text((a / 10) as nat);
        let tb = decimal_text((b / 10) as nat);
        assert(ta =~= decimal_text(a).drop_last());
        assert(tb =~= decimal_text(b).drop_last());
        lemma_decimal_injective((a / 10) as nat, (b / 10) as nat);
        assert(digit_char((a % 10) as nat) == decimal_text(a).last());
        assert(digit_char((b % 10) as nat) == decimal_text(b).last());
        assert(a % 10 == b % 10);
        assert(a == (a / 10) * 10 + a % 10);
        assert(b == (b / 10) * 10 + b % 10);
    } else if a < 10 && b < 10 {
        assert(decimal_text(a)[0] == digit_char(a));
        assert(decimal_text(b)[0] == digit_char(b));
    }
}

fn digit(d: usize) -> (c: char)
    requires
        d < 10,
    ensures
        c == digit_char(d as nat),
{
    if d == 0 {
        '0'
    } else if d == 1 {
        '1'
    } else if d == 2 {
        '2'
    } else if d == 3 {
        '3'
    } else if d == 4 {
        '4'
    } else if d == 5 {
        '5'
    } else if d == 6 {
        '6'
    } else if d == 7 {
        '7'
    } else if d == 8 {
        '8'
    } else {
        '9'
    }
}

fn decimal_chars(n: usize) -> (v: Vec<char>)
    ensures
        v@ == decimal_text(n as nat),
    decreases n,
{
    if n < 10 {
        vec![digit(n)]
    } else {
        let mut v = decimal_chars(n / 10);
        v.push(digit(n % 10));
        v
    }
}

/// The decimal text of `n` (what `n.to_string()` gives).
pub fn decimal(n: usize) -> (s: String)
    ensures
        s@ == decimal_text(n as nat),
{
    string_from_chars(decimal_chars(n).as_slice())
}

/// The part of `s` after the last occurrence of `c` (all of `s` when
/// `c` does not occur).
pub open spec fn last_segment(s: Seq<char>, c: char) -> Seq<char>
    decreases s.len(),
{
    if s.len() == 0 {
        Seq::empty()
    } else if s.last() == c {
        Seq::empty()
    } else {
        last_segment(s.drop_last(), c).push(s.last())
    }
}

/// The part of `s` after the last `c` (what `s.rsplit(c).next()` gives).
pub fn vec_last_segment(s: &Vec<char>, c: char) -> (r: Vec<char>)
    ensures
        r@ == last_segment(s@, c),
{
    // Find where the last segment starts.
    let mut start: usize = s.len();
    assert(s@.take(start as int) =~= s@);
    assert(s@.subrange(start as int, s@.len() as int) =~= Seq::<char>::empty());
    assert(last_segment(s@, c) =~= last_segment(s@.take(start as int), c) + s@.subrange(start as int, s@.len() as int));
    while start > 0 && s[start - 1] != c
        invariant
            start <= s@.len(),
            last_segment(s@, c) == last_segment(s@.take(start as int), c) + s@.subrange(start as int, s@.len() as int),
        decreases start,
    {
        let ghost t = s@.take(start as int);
        assert(t.drop_last() =~= s@.take(start - 1));
        assert(s@.subrange(start - 1, s@.len() as int) =~= seq![t.last()] + s@.subrange(start as int, s@.len() as int));
        assert(last_segment(t, c) == last_segment(t.drop_last(), c).push(t.last()));
        start = start - 1;
    }
    proof {
        let t = s@.take(start as int);
        if start > 0 {
            assert(t.last() == c);
        } else {
            assert(t.len() == 0);
        }
        assert(last_segment(t, c) =~= Seq::<char>::empty());
    }
    let mut r: Vec<char> = Vec::new();
    let mut i = start;
    while i < s.len()
        invariant
            start <= i <= s@.len(),
            r@ == s@.subrange(start as int, i as int),
        decreases s.len() - i,
    {
        r.push(s[i]);
        i = i + 1;
        assert(r@ =~= s@.subrange(start as int, i as int));
    }
    assert(last_segment(s@, c) =~= r@);
    r
}

/// A fresh string with the same characters as `s`.
pub fn owned(s: &str) -> (r: String)
    ensures
        r@ == s@,
{
    s.to_owned()
}

} // verus!
