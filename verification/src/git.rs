//! Reading git: the parsing of `git diff --numstat`, `--name-status` and
//! `git log` output, and the facade that asks a runner for them.
use vstd::prelude::*;
use crate::model::{ChangedFile, CommitEntry, ComparisonMode, FileSides, SidePair, SideRef, Status};
use crate::text::{chars_of, string_of_range, push_char, push_str};
use crate::align::{lines_of, split_lines, strings_view};

verus! {

// ------------------------------------------------------------ characters

/// Unicode White_Space, the set `char::is_whitespace` tests.
pub open spec fn is_ws(c: char) -> bool {
    let u = c as u32;
    ||| 0x9 <= u <= 0xD
    ||| u == 0x20
    ||| u == 0x85
    ||| u == 0xA0
    ||| u == 0x1680
    ||| 0x2000 <= u <= 0x200A
    ||| u == 0x2028
    ||| u == 0x2029
    ||| u == 0x202F
    ||| u == 0x205F
    ||| u == 0x3000
}

pub fn is_ws_exec(c: char) -> (r: bool)
    ensures
        r == is_ws(c),
{
    let u = c as u32;
    (0x9 <= u && u <= 0xD) || u == 0x20 || u == 0x85 || u == 0xA0 || u == 0x1680 || (0x2000 <= u && u <= 0x200A)
        || u == 0x2028 || u == 0x2029 || u == 0x202F || u == 0x205F || u == 0x3000
}

/// `s` without leading whitespace.
pub open spec fn trim_start_spec(s: Seq<char>) -> Seq<char>
    decreases s.len(),
{
    if s.len() > 0 && is_ws(s[0]) {
        trim_start_spec(s.drop_first())
    } else {
        s
    }
}

/// `s` without trailing whitespace.
pub open spec fn trim_end_spec(s: Seq<char>) -> Seq<char>
    decreases s.len(),
{
    if s.len() > 0 && is_ws(s.last()) {
        trim_end_spec(s.drop_last())
    } else {
        s
    }
}

/// `s` without leading and trailing whitespace, as `str::trim` gives it.
pub open spec fn trim_spec(s: Seq<char>) -> Seq<char> {
    trim_end_spec(trim_start_spec(s))
}

/// The bounds `[a, b)` of the trimmed part of `v`.
fn trim_bounds(v: &Vec<char>) -> (r: (usize, usize))
    ensures
        r.0 <= r.1 <= v.len(),
        v@.subrange(r.0 as int, r.1 as int) == trim_spec(v@),
{
    let mut a: usize = 0;
    assert(v@.skip(0) =~= v@);
    while a < v.len() && is_ws_exec(v[a])
        invariant
            a <= v.len(),
            trim_start_spec(v@.skip(a as int)) == trim_start_spec(v@),
        decreases v.len() - a,
    {
        assert(v@.skip(a as int).drop_first() =~= v@.skip(a + 1));
        a += 1;
    }
    let ghost t = v@.skip(a as int);
    assert(trim_start_spec(t) == t);
    let mut b: usize = v.len();
    assert(v@.subrange(a as int, b as int) =~= t);
    while b > a && is_ws_exec(v[b - 1])
        invariant
            a <= b <= v.len(),
            trim_end_spec(v@.subrange(a as int, b as int)) == trim_end_spec(t),
        decreases b,
    {
        assert(v@.subrange(a as int, b as int).drop_last() =~= v@.subrange(a as int, b - 1));
        b -= 1;
    }
    (a, b)
}

/// `str::trim` as a new string.
pub fn trim_string(s: &str) -> (r: String)
    ensures
        r@ == trim_spec(s@),
{
    let v = chars_of(s);
    let (a, b) = trim_bounds(&v);
    string_of_range(&v, a, b)
}

/// Whether a line holds only whitespace.
pub fn is_blank(s: &str) -> (r: bool)
    ensures
        r == (trim_spec(s@).len() == 0),
{
    let v = chars_of(s);
    let (a, b) = trim_bounds(&v);
    a == b
}

/// The first index at or after `i` where `s` holds `c`, or the length.
pub open spec fn find_char_from(s: Seq<char>, c: char, i: int) -> int
    decreases s.len() - i,
{
    if i >= s.len() {
        s.len() as int
    } else if s[i] == c {
        i
    } else {
        find_char_from(s, c, i + 1)
    }
}

proof fn lemma_find_char(s: Seq<char>, c: char, i: int)
    requires
        0 <= i <= s.len(),
    ensures
        i <= find_char_from(s, c, i) <= s.len(),
        find_char_from(s, c, i) < s.len() ==> s[find_char_from(s, c, i)] == c,
        forall|j: int| i <= j < find_char_from(s, c, i) ==> s[j] != c,
    decreases s.len() - i,
{
    if i < s.len() && s[i] != c {
        lemma_find_char(s, c, i + 1);
    }
}

proof fn lemma_find_char_first(s: Seq<char>, c: char, i: int, j: int)
    requires
        0 <= i <= j < s.len(),
        s[j] == c,
    ensures
        find_char_from(s, c, i) <= j,
    decreases s.len() - i,
{
    if s[i] != c {
        lemma_find_char_first(s, c, i + 1, j);
    }
}

fn find_char_exec(v: &Vec<char>, c: char, i: usize) -> (r: usize)
    requires
        i <= v.len(),
    ensures
        r == find_char_from(v@, c, i as int),
        i <= r <= v.len(),
{
    let mut j = i;
    while j < v.len() && v[j] != c
        invariant
            i <= j <= v.len(),
            find_char_from(v@, c, i as int) == find_char_from(v@, c, j as int),
        decreases v.len() - j,
    {
        j += 1;
    }
    proof {
        lemma_find_char(v@, c, i as int);
    }
    j
}

/// Whether `s` holds ` => ` at `i`.
pub open spec fn arrow_at(s: Seq<char>, i: int) -> bool {
    &&& 0 <= i
    &&& i + 4 <= s.len()
    &&& s[i] == ' '
    &&& s[i + 1] == '='
    &&& s[i + 2] == '>'
    &&& s[i + 3] == ' '
}

/// The first index at or after `i` of ` => ` in `s`, or the length.
pub open spec fn find_arrow_from(s: Seq<char>, i: int) -> int
    decreases s.len() - i,
{
    if i >= s.len() {
        s.len() as int
    } else if arrow_at(s, i) {
        i
    } else {
        find_arrow_from(s, i + 1)
    }
}

proof fn lemma_find_arrow(s: Seq<char>, i: int)
    requires
        0 <= i <= s.len(),
    ensures
        i <= find_arrow_from(s, i) <= s.len(),
        find_arrow_from(s, i) < s.len() ==> arrow_at(s, find_arrow_from(s, i)),
    decreases s.len() - i,
{
    if i < s.len() && !arrow_at(s, i) {
        lemma_find_arrow(s, i + 1);
    }
}

fn find_arrow_exec(v: &Vec<char>, i: usize) -> (r: usize)
    requires
        i <= v.len(),
    ensures
        r == find_arrow_from(v@, i as int),
        i <= r <= v.len(),
{
    let mut j = i;
    while j < v.len() && !(v.len() - j >= 4 && v[j] == ' ' && v[j + 1] == '=' && v[j + 2] == '>' && v[j + 3] == ' ')
        invariant
            i <= j <= v.len(),
            find_arrow_from(v@, i as int) == find_arrow_from(v@, j as int),
        decreases v.len() - j,
    {
        j += 1;
    }
    proof {
        lemma_find_arrow(v@, i as int);
    }
    j
}

// ------------------------------------------------------------ fields

/// `str::splitn(n, sep)`: at most `n` parts, the last one keeping any
/// further separators.
pub open spec fn splitn_spec(s: Seq<char>, n: nat, sep: char) -> Seq<Seq<char>>
    decreases n,
{
    if n <= 1 {
        seq![s]
    } else {
        let i = find_char_from(s, sep, 0);
        if i >= s.len() {
            seq![s]
        } else {
            seq![s.take(i)] + splitn_spec(s.skip(i + 1), (n - 1) as nat, sep)
        }
    }
}

/// Part `k` of a split, or the empty text when there are fewer parts.
pub open spec fn field(parts: Seq<Seq<char>>, k: int) -> Seq<char> {
    if 0 <= k < parts.len() {
        parts[k]
    } else {
        seq![]
    }
}

/// The parts of `v[from..]` split at `sep` into at most `n` parts.
fn splitn_exec(v: &Vec<char>, from: usize, n: usize, sep: char) -> (r: Vec<String>)
    requires
        from <= v.len(),
    ensures
        strings_view(r@) == splitn_spec(v@.skip(from as int), n as nat, sep),
    decreases n,
{
    let ghost s = v@.skip(from as int);
    if n <= 1 {
        let part = string_of_range(v, from, v.len());
        let mut r: Vec<String> = Vec::new();
        r.push(part);
        assert(strings_view(r@) =~= seq![s]);
        return r;
    }
    let i = find_char_exec(v, sep, from);
    proof {
        lemma_find_char(v@, sep, from as int);
        lemma_find_char_shift(v@, sep, from as int, 0);
    }
    if i >= v.len() {
        let part = string_of_range(v, from, v.len());
        let mut r: Vec<String> = Vec::new();
        r.push(part);
        assert(strings_view(r@) =~= seq![s]);
        return r;
    }
    let first = string_of_range(v, from, i);
    let rest = splitn_exec(v, i + 1, n - 1, sep);
    assert(v@.skip(i + 1) =~= s.skip(i - from + 1));
    assert(first@ =~= s.take(i - from));
    let mut r: Vec<String> = Vec::new();
    r.push(first);
    let mut k: usize = 0;
    while k < rest.len()
        invariant
            k <= rest.len(),
            strings_view(r@) == seq![first@] + strings_view(rest@).take(k as int),
        decreases rest.len() - k,
    {
        let x = rest[k].clone();
        proof {
            assert(strings_view(r@.push(x)) =~= strings_view(r@).push(x@));
            assert(strings_view(rest@).take(k + 1) =~= strings_view(rest@).take(k as int).push(rest@[k as int]@));
        }
        r.push(x);
        k += 1;
    }
    assert(strings_view(rest@).take(rest.len() as int) =~= strings_view(rest@));
    r
}

proof fn lemma_find_char_shift(v: Seq<char>, c: char, from: int, i: int)
    requires
        0 <= from <= v.len(),
        0 <= i <= v.len() - from,
    ensures
        find_char_from(v.skip(from), c, i) == find_char_from(v, c, from + i) - from,
    decreases v.len() - from - i,
{
    if i < v.len() - from {
        assert(v.skip(from)[i] == v[from + i]);
        if v[from + i] != c {
            lemma_find_char_shift(v, c, from, i + 1);
        }
    }
}

fn field_exec(parts: &Vec<String>, k: usize) -> (r: String)
    ensures
        r@ == field(strings_view(parts@), k as int),
{
    if k < parts.len() {
        parts[k].clone()
    } else {
        String::new()
    }
}

// ------------------------------------------------------------ numbers

/// The value of a run of decimal digits.
pub open spec fn digits_value(s: Seq<char>) -> nat
    decreases s.len(),
{
    if s.len() == 0 {
        0
    } else {
        digits_value(s.drop_last()) * 10 + ((s.last() as u32) - 0x30) as nat
    }
}

pub open spec fn is_digit(c: char) -> bool {
    0x30 <= c as u32 <= 0x39
}

/// What `u64::from_str` accepts: an optional `+`, then at least one decimal
/// digit, the value fitting in `u64`.
pub open spec fn unsigned_digits(s: Seq<char>) -> Seq<char> {
    if s.len() > 0 && s[0] == '+' {
        s.drop_first()
    } else {
        s
    }
}

pub open spec fn parse_u64_spec(s: Seq<char>) -> Option<u64> {
    let d = unsigned_digits(s);
    if d.len() > 0 && (forall|i: int| 0 <= i < d.len() ==> is_digit(#[trigger] d[i])) && digits_value(d) <= u64::MAX {
        Some(digits_value(d) as u64)
    } else {
        None
    }
}

proof fn lemma_digits_mono(s: Seq<char>, i: int)
    requires
        0 <= i <= s.len(),
        forall|j: int| 0 <= j < s.len() ==> is_digit(#[trigger] s[j]),
    ensures
        digits_value(s.take(i)) <= digits_value(s),
    decreases s.len() - i,
{
    if i < s.len() {
        lemma_digits_mono(s, i + 1);
        assert(s.take(i + 1).drop_last() =~= s.take(i));
    } else {
        assert(s.take(i) =~= s);
    }
}

/// Parses a `u64` as `u64::from_str` does.
pub fn parse_u64(s: &str) -> (r: Option<u64>)
    ensures
        r == parse_u64_spec(s@),
{
    let v = chars_of(s);
    let start: usize = if v.len() > 0 && v[0] == '+' { 1 } else { 0 };
    let ghost d = unsigned_digits(s@);
    assert(d =~= v@.skip(start as int));
    if start >= v.len() {
        return None;
    }
    let mut value: u64 = 0;
    let mut i = start;
    while i < v.len()
        invariant
            start <= i <= v.len(),
            start < v.len(),
            d == v@.skip(start as int),
            d == unsigned_digits(s@),
            v@ == s@,
            forall|j: int| 0 <= j < i - start ==> is_digit(#[trigger] d[j]),
            value == digits_value(d.take(i - start)),
        decreases v.len() - i,
    {
        let c = v[i];
        let u = c as u32;
        assert(d[i - start] == v@[i as int]);
        if !(0x30 <= u && u <= 0x39) {
            proof {
                assert(!is_digit(d[i - start]));
                assert(!(forall|j: int| 0 <= j < d.len() ==> is_digit(#[trigger] d[j])));
                assert(parse_u64_spec(s@) is None);
            }
            return None;
        }
        let dig = (u - 0x30) as u64;
        assert(d.take(i - start + 1).drop_last() =~= d.take(i - start));
        assert(d.take(i - start + 1).last() == c);
        let mut overflow = false;
        match value.checked_mul(10) {
            Some(m) => match m.checked_add(dig) {
                Some(nv) => {
                    value = nv;
                },
                None => {
                    overflow = true;
                },
            },
            None => {
                overflow = true;
            },
        }
        if overflow {
            proof {
                if forall|j: int| 0 <= j < d.len() ==> is_digit(#[trigger] d[j]) {
                    lemma_digits_mono(d, i - start + 1);
                    assert(digits_value(d) > u64::MAX);
                }
                assert(parse_u64_spec(s@) is None);
            }
            return None;
        }
        i += 1;
    }
    assert(d.take(d.len() as int) =~= d);
    Some(value)
}

// ------------------------------------------------------------ errors

/// An error of the git facade.
#[derive(Debug, Clone, PartialEq, Eq)]
pub enum GitError {
    /// Output of git that could not be parsed.
    Parse(String),
    /// A git command that failed, with its message.
    Run(String),
    /// A request that the comparison mode does not allow.
    Mode(String),
}

impl GitError {
    /// The message of the error.
    pub fn message(&self) -> (r: String)
        ensures
            r@ == match *self {
                GitError::Parse(m) => m@,
                GitError::Run(m) => m@,
                GitError::Mode(m) => m@,
            },
    {
        match self {
            GitError::Parse(m) => m.clone(),
            GitError::Run(m) => m.clone(),
            GitError::Mode(m) => m.clone(),
        }
    }
}

// ------------------------------------------------------------ renames

/// One side of git's brace-abbreviated rename path: each `{a => b}` becomes
/// `b` for the new side and `a` for the old side; a `{` not followed by a
/// ` => ` before its `}` is kept as it is.
pub open spec fn rename_side_spec(s: Seq<char>, new: bool) -> Seq<char>
    decreases s.len(),
{
    let o = find_char_from(s, '{', 0);
    if o < 0 || o >= s.len() {
        s
    } else {
        let after = s.skip(o + 1);
        let a = find_arrow_from(after, 0);
        let c = find_char_from(after, '}', 0);
        if 0 <= a < after.len() && c < after.len() && a < c {
            let close = find_char_from(after, '}', a + 4);
            if a + 4 <= close < after.len() {
                s.take(o) + (if new { after.subrange(a + 4, close) } else { after.take(a) })
                    + rename_side_spec(after.skip(close + 1), new)
            } else {
                s
            }
        } else {
            s.take(o) + seq!['{'] + rename_side_spec(after, new)
        }
    }
}

proof fn lemma_find_none(s: Seq<char>, c: char, i: int)
    requires
        0 <= i <= s.len(),
        !s.contains(c),
    ensures
        find_char_from(s, c, i) == s.len(),
    decreases s.len() - i,
{
    if i < s.len() {
        assert(s[i] != c) by {
            if s[i] == c {
                assert(s.contains(c));
            }
        }
        lemma_find_none(s, c, i + 1);
    }
}

proof fn lemma_find_arrow_first(s: Seq<char>, i: int, j: int)
    requires
        0 <= i <= j,
        arrow_at(s, j),
        forall|k: int| i <= k < j ==> !arrow_at(s, k),
    ensures
        find_arrow_from(s, i) == j,
    decreases j - i,
{
    if i < j {
        lemma_find_arrow_first(s, i + 1, j);
    }
}

/// A brace-abbreviated rename of `git diff --numstat` expands on each side:
/// `p{a => b}s` gives `p` + `b` + `s` for the new path and `p` + `a` + `s`
/// for the old one, for texts without braces (and no `>` in `a`), `p` empty
/// or not.
pub proof fn lemma_rename_brace_sides(p: Seq<char>, a: Seq<char>, b: Seq<char>, s: Seq<char>)
    requires
        !p.contains('{') && !p.contains('}'),
        !a.contains('{') && !a.contains('}') && !a.contains('>'),
        !b.contains('{') && !b.contains('}'),
        !s.contains('{') && !s.contains('}'),
    ensures
        rename_side_spec(p + seq!['{'] + a + seq![' ', '=', '>', ' '] + b + seq!['}'] + s, true) == p + b + s,
        rename_side_spec(p + seq!['{'] + a + seq![' ', '=', '>', ' '] + b + seq!['}'] + s, false) == p + a + s,
        numstat_paths(p + seq!['{'] + a + seq![' ', '=', '>', ' '] + b + seq!['}'] + s, true) == (p + b + s, Some(p + a + s)),
{
    let arrow = seq![' ', '=', '>', ' '];
    let full = p + seq!['{'] + a + arrow + b + seq!['}'] + s;
    let after = a + arrow + b + seq!['}'] + s;
    assert(full =~= p + seq!['{'] + after);
    lemma_find_after(p, after, '{', 0);
    let o = p.len() as int;
    assert(full.skip(o + 1) =~= after);
    assert(full.take(o) =~= p);
    // the arrow after `a` is the first one
    assert(arrow_at(after, a.len() as int));
    assert forall|k: int| 0 <= k < a.len() implies !arrow_at(after, k) by {
        if arrow_at(after, k) {
            if k + 2 < a.len() {
                assert(after[k + 2] == a[k + 2]);
                assert(a.contains('>'));
            } else {
                assert(after[k + 2] != '>');
            }
        }
    }
    lemma_find_arrow_first(after, 0, a.len() as int);
    // the first `}` closes the brace
    let x = a + arrow + b;
    assert(!x.contains('}')) by {
        if x.contains('}') {
            let j = choose|j: int| 0 <= j < x.len() && x[j] == '}';
            if j < a.len() {
                assert(a[j] == '}');
                assert(a.contains('}'));
            } else if j < a.len() + 4 {
                assert(x[j] == arrow[j - a.len()]);
            } else {
                assert(b[j - a.len() - 4] == '}');
                assert(b.contains('}'));
            }
        }
    }
    assert(after =~= x + seq!['}'] + s);
    lemma_find_after(x, s, '}', 0);
    lemma_find_after(x, s, '}', a.len() + 4int);
    let close = x.len() as int;
    assert(after.subrange(a.len() + 4int, close) =~= b);
    assert(after.take(a.len() as int) =~= a);
    assert(after.skip(close + 1) =~= s);
    lemma_find_none(s, '{', 0);
    assert(rename_side_spec(s, true) == s);
    assert(rename_side_spec(s, false) == s);
    assert(full.len() > 0);
    assert(find_char_from(full, '{', 0) == o);
    assert(rename_side_spec(full, true) == full.take(o) + b + rename_side_spec(s, true));
    assert(rename_side_spec(full, false) == full.take(o) + a + rename_side_spec(s, false));
    // the path holds an arrow and a brace, so it reads as a brace rename
    assert(arrow_at(full, o + 1 + a.len()));
    lemma_find_arrow(full, 0);
    if find_arrow_from(full, 0) >= full.len() {
        lemma_find_arrow_none(full, 0, o + 1 + a.len());
    }
    assert(full[o] == '{');
}

/// A plain rename of `git diff --numstat`, `old => new`, reads as the new
/// path and the old one, for paths without braces (and no `>` in the old).
pub proof fn lemma_rename_plain_sides(old: Seq<char>, new: Seq<char>)
    requires
        !old.contains('{') && !old.contains('>'),
        !new.contains('{'),
    ensures
        numstat_paths(old + seq![' ', '=', '>', ' '] + new, true) == (new, Some(old)),
{
    let full = old + seq![' ', '=', '>', ' '] + new;
    assert(arrow_at(full, old.len() as int));
    assert forall|k: int| 0 <= k < old.len() implies !arrow_at(full, k) by {
        if arrow_at(full, k) {
            if k + 2 < old.len() {
                assert(full[k + 2] == old[k + 2]);
                assert(old.contains('>'));
            } else {
                assert(full[k + 2] != '>');
            }
        }
    }
    lemma_find_arrow_first(full, 0, old.len() as int);
    assert(!full.contains('{')) by {
        if full.contains('{') {
            let j = choose|j: int| 0 <= j < full.len() && full[j] == '{';
            if j < old.len() {
                assert(old[j] == '{');
                assert(old.contains('{'));
            } else if j >= old.len() + 4 {
                assert(new[j - old.len() - 4] == '{');
                assert(new.contains('{'));
            }
        }
    }
    lemma_find_none(full, '{', 0);
    assert(full.skip(old.len() + 4int) =~= new);
    assert(full.take(old.len() as int) =~= old);
}

proof fn lemma_find_arrow_none(s: Seq<char>, i: int, j: int)
    requires
        0 <= i <= j,
        arrow_at(s, j),
    ensures
        find_arrow_from(s, i) <= j,
    decreases j - i,
{
    if i < j && !arrow_at(s, i) {
        lemma_find_arrow_none(s, i + 1, j);
    }
}

proof fn lemma_close_found(after: Seq<char>, a: int, c: int)
    requires
        0 <= a < c < after.len(),
        arrow_at(after, a),
        after[c] == '}',
    ensures
        a + 4 <= find_char_from(after, '}', a + 4) < after.len(),
{
    assert(c >= a + 4) by {
        if c < a + 4 {
            assert(after[c] != '}');
        }
    }
    lemma_find_char_first(after, '}', a + 4, c);
    lemma_find_char(after, '}', a + 4);
}

/// Expands one side of a brace-abbreviated rename path (`{a => b}/c` or
/// `a/{b => c}`), `new` selecting the side after the `=>`.
#[verifier::rlimit(100)]
#[verifier::spinoff_prover]
pub fn rename_side(path: &str, new: bool) -> (r: String)
    ensures
        r@ == rename_side_spec(path@, new),
{
    let v = chars_of(path);
    let mut out = String::new();
    let mut pos: usize = 0;
    assert(v@.skip(0) =~= v@);
    while pos <= v.len()
        invariant
            v@ == path@,
            pos <= v.len(),
            out@ + rename_side_spec(v@.skip(pos as int), new) == rename_side_spec(path@, new),
        decreases v.len() - pos,
    {
        let ghost rest = v@.skip(pos as int);
        let open = find_char_exec(&v, '{', pos);
        proof {
            lemma_find_char(v@, '{', pos as int);
            lemma_find_char_shift(v@, '{', pos as int, 0);
        }
        if open >= v.len() {
            crate::text::push_chars(&mut out, &v, pos, v.len());
            assert(v@.subrange(pos as int, v.len() as int) =~= rest);
            return out;
        }
        let ghost o = open - pos;
        let ghost after = rest.skip(o + 1);
        assert(after =~= v@.skip(open + 1));
        let arrow = find_arrow_exec(&v, open + 1);
        let close0 = find_char_exec(&v, '}', open + 1);
        proof {
            lemma_find_arrow(v@, open + 1);
            lemma_find_char(v@, '}', open + 1);
            lemma_find_arrow_shift(v@, open + 1, 0);
            lemma_find_char_shift(v@, '}', open + 1, 0);
        }
        crate::text::push_chars(&mut out, &v, pos, open);
        assert(v@.subrange(pos as int, open as int) =~= rest.take(o));
        if arrow < v.len() && close0 < v.len() && arrow < close0 {
            proof {
                lemma_close_found(after, arrow - open - 1, close0 - open - 1);
                lemma_find_char_shift(v@, '}', open + 1, arrow - open - 1 + 4);
            }
            let close = find_char_exec(&v, '}', arrow + 4);
            if new {
                crate::text::push_chars(&mut out, &v, arrow + 4, close);
                assert(v@.subrange(arrow + 4, close as int) =~= after.subrange(arrow - open - 1 + 4, close - open - 1));
            } else {
                crate::text::push_chars(&mut out, &v, open + 1, arrow);
                assert(v@.subrange(open + 1, arrow as int) =~= after.take(arrow - open - 1));
            }
            assert(after.skip(close - open - 1 + 1) =~= v@.skip(close + 1));
            pos = close + 1;
        } else {
            push_char(&mut out, '{');
            pos = open + 1;
        }
    }
    out
}

proof fn lemma_find_arrow_shift(v: Seq<char>, from: int, i: int)
    requires
        0 <= from <= v.len(),
        0 <= i <= v.len() - from,
    ensures
        find_arrow_from(v.skip(from), i) == find_arrow_from(v, from + i) - from,
    decreases v.len() - from - i,
{
    if i < v.len() - from {
        assert(arrow_at(v.skip(from), i) == arrow_at(v, from + i));
        if !arrow_at(v, from + i) {
            lemma_find_arrow_shift(v, from, i + 1);
        }
    }
}

// ------------------------------------------------------------ numstat

/// One row of `git diff --numstat`: the new path, the old path of a rename,
/// the added and deleted line counts, and whether the file is binary.
pub type NumstatRow = (String, Option<String>, u64, u64, bool);

/// A numstat row as values.
pub type NumstatRowV = (Seq<char>, Option<Seq<char>>, u64, u64, bool);

pub open spec fn numstat_row_v(r: NumstatRow) -> NumstatRowV {
    (r.0@, match r.1 {
        Some(s) => Some(s@),
        None => None,
    }, r.2, r.3, r.4)
}

pub open spec fn numstat_rows_v(rs: Seq<NumstatRow>) -> Seq<NumstatRowV> {
    rs.map_values(|r: NumstatRow| numstat_row_v(r))
}

/// The text of an error from parsing an added count.
pub open spec fn bad_added() -> Seq<char> {
    "bad numstat added"@
}

/// The text of an error from parsing a deleted count.
pub open spec fn bad_deleted() -> Seq<char> {
    "bad numstat deleted"@
}

/// The paths of a numstat row: with rename detection, `old => new` or the
/// brace form give the new path and the old one.
pub open spec fn numstat_paths(p: Seq<char>, with_rename: bool) -> (Seq<char>, Option<Seq<char>>) {
    let idx = find_arrow_from(p, 0);
    if with_rename && 0 <= idx < p.len() {
        if find_char_from(p, '{', 0) < p.len() {
            (rename_side_spec(p, true), Some(rename_side_spec(p, false)))
        } else {
            (p.skip(idx + 4), Some(p.take(idx)))
        }
    } else {
        (p, None)
    }
}

/// A line of `git diff --numstat` read as `added<TAB>deleted<TAB>path`:
/// `-` in either count marks a binary file with counts of 0; otherwise both
/// counts must parse.
pub open spec fn numstat_line(line: Seq<char>, with_rename: bool) -> Result<NumstatRowV, Seq<char>> {
    let parts = splitn_spec(line, 3, '\t');
    let a = field(parts, 0);
    let d = field(parts, 1);
    let p = field(parts, 2);
    let binary = a == seq!['-'] || d == seq!['-'];
    let paths = numstat_paths(p, with_rename);
    if binary {
        Ok((paths.0, paths.1, 0u64, 0u64, true))
    } else {
        match (parse_u64_spec(a), parse_u64_spec(d)) {
            (Some(x), Some(y)) => Ok((paths.0, paths.1, x, y, false)),
            (None, _) => Err(bad_added()),
            (Some(_), None) => Err(bad_deleted()),
        }
    }
}

/// The rows of numstat lines, blank lines skipped; the first line that does
/// not parse gives the error.
pub open spec fn numstat_lines(lines: Seq<Seq<char>>, with_rename: bool) -> Result<Seq<NumstatRowV>, Seq<char>>
    decreases lines.len(),
{
    if lines.len() == 0 {
        Ok(seq![])
    } else if trim_spec(lines[0]).len() == 0 {
        numstat_lines(lines.drop_first(), with_rename)
    } else {
        match numstat_line(lines[0], with_rename) {
            Err(e) => Err(e),
            Ok(r) => match numstat_lines(lines.drop_first(), with_rename) {
                Ok(rs) => Ok(seq![r] + rs),
                Err(e) => Err(e),
            },
        }
    }
}

fn literal_string(s: &str) -> (r: String)
    ensures
        r@ == s@,
{
    s.to_owned()
}

fn numstat_paths_exec(p: &String, with_rename: bool) -> (r: (String, Option<String>))
    ensures
        (r.0@, match r.1 { Some(x) => Some(x@), None => None }) == numstat_paths(p@, with_rename),
{
    let v = chars_of(p.as_str());
    let idx = find_arrow_exec(&v, 0);
    proof {
        lemma_find_arrow(v@, 0);
    }
    if with_rename && idx < v.len() {
        let brace = find_char_exec(&v, '{', 0);
        if brace < v.len() {
            (rename_side(p.as_str(), true), Some(rename_side(p.as_str(), false)))
        } else {
            let new_path = string_of_range(&v, idx + 4, v.len());
            let old_path = string_of_range(&v, 0, idx);
            assert(v@.subrange(idx + 4, v.len() as int) =~= v@.skip(idx + 4));
            assert(v@.subrange(0, idx as int) =~= v@.take(idx as int));
            (new_path, Some(old_path))
        }
    } else {
        (p.clone(), None)
    }
}

fn numstat_line_exec(line: &str, with_rename: bool) -> (r: Result<NumstatRow, GitError>)
    ensures
        match (r, numstat_line(line@, with_rename)) {
            (Ok(x), Ok(y)) => numstat_row_v(x) == y,
            (Err(GitError::Parse(m)), Err(e)) => m@ == e,
            _ => false,
        },
{
    let v = chars_of(line);
    let parts = splitn_exec(&v, 0, 3, '\t');
    assert(v@.skip(0) =~= v@);
    let a = field_exec(&parts, 0);
    let d = field_exec(&parts, 1);
    let p = field_exec(&parts, 2);
    let dash = "-";
    proof {
        reveal_strlit("-");
    }
    let binary = crate::text::str_eq(a.as_str(), dash) || crate::text::str_eq(d.as_str(), dash);
    assert(dash@ =~= seq!['-']);
    let (new_path, old_path) = numstat_paths_exec(&p, with_rename);
    if binary {
        return Ok((new_path, old_path, 0, 0, true));
    }
    match parse_u64(a.as_str()) {
        None => {
            proof {
                reveal_strlit("bad numstat added");
            }
            Err(GitError::Parse(literal_string("bad numstat added")))
        },
        Some(x) => match parse_u64(d.as_str()) {
            None => {
                proof {
                    reveal_strlit("bad numstat deleted");
                }
                Err(GitError::Parse(literal_string("bad numstat deleted")))
            },
            Some(y) => Ok((new_path, old_path, x, y, false)),
        },
    }
}

/// Parses `git diff --numstat` output; with `with_rename`, rename paths are
/// split into the new path and the old one.
pub fn parse_numstat(out: &str, with_rename: bool) -> (r: Result<Vec<NumstatRow>, GitError>)
    ensures
        match (r, numstat_lines(lines_of(out@), with_rename)) {
            (Ok(x), Ok(y)) => numstat_rows_v(x@) == y,
            (Err(GitError::Parse(m)), Err(e)) => m@ == e,
            _ => false,
        },
{
    let lines = split_lines(out);
    let ghost ls = lines_of(out@);
    let mut rows: Vec<NumstatRow> = Vec::new();
    let mut i: usize = 0;
    assert(ls.skip(0) =~= ls);
    while i < lines.len()
        invariant
            strings_view(lines@) == ls,
            ls == lines_of(out@),
            i <= lines.len(),
            numstat_lines(ls, with_rename) == match numstat_lines(ls.skip(i as int), with_rename) {
                Ok(rs) => Ok(numstat_rows_v(rows@) + rs),
                Err(e) => Err(e),
            },
        decreases lines.len() - i,
    {
        assert(ls.skip(i as int).drop_first() =~= ls.skip(i + 1));
        assert(ls.skip(i as int)[0] == lines@[i as int]@);
        if is_blank(lines[i].as_str()) {
            i += 1;
            continue;
        }
        match numstat_line_exec(lines[i].as_str(), with_rename) {
            Err(e) => {
                return Err(e);
            },
            Ok(row) => {
                proof {
                    assert(numstat_rows_v(rows@.push(row)) =~= numstat_rows_v(rows@).push(numstat_row_v(row)));
                    assert forall|rs: Seq<NumstatRowV>| true implies numstat_rows_v(rows@) + (seq![numstat_row_v(row)] + rs)
                        == numstat_rows_v(rows@.push(row)) + rs by {
                        assert(numstat_rows_v(rows@) + (seq![numstat_row_v(row)] + rs)
                            =~= numstat_rows_v(rows@.push(row)) + rs);
                    }
                }
                rows.push(row);
            },
        }
        i += 1;
    }
    assert(ls.skip(lines.len() as int) =~= Seq::<Seq<char>>::empty());
    assert(numstat_rows_v(rows@) + Seq::<NumstatRowV>::empty() =~= numstat_rows_v(rows@));
    Ok(rows)
}

// ------------------------------------------------------------ name-status

/// One row of `git diff --name-status`: the status, the path, and the old
/// path of a rename.
pub type StatusRow = (Status, String, Option<String>);

pub type StatusRowV = (Status, Seq<char>, Option<Seq<char>>);

pub open spec fn status_row_v(r: StatusRow) -> StatusRowV {
    (r.0, r.1@, match r.2 {
        Some(s) => Some(s@),
        None => None,
    })
}

pub open spec fn status_rows_v(rs: Seq<StatusRow>) -> Seq<StatusRowV> {
    rs.map_values(|r: StatusRow| status_row_v(r))
}

/// The status a name-status letter stands for; unknown letters count as
/// modified.
pub open spec fn status_of_letter(s: Seq<char>) -> Status {
    if s == seq!['A'] {
        Status::Added
    } else if s == seq!['D'] {
        Status::Deleted
    } else {
        Status::Modified
    }
}

/// A line of `git diff --name-status`: `R<score><TAB>old<TAB>new` for a
/// rename, else `<letter><TAB>path`.
pub open spec fn name_status_line(line: Seq<char>) -> StatusRowV {
    let parts = splitn_spec(line, 3, '\t');
    let st = field(parts, 0);
    if st.len() > 0 && st[0] == 'R' {
        (Status::Renamed, field(parts, 2), Some(field(parts, 1)))
    } else {
        (status_of_letter(st), field(parts, 1), None)
    }
}

/// The rows of name-status lines, blank lines skipped.
pub open spec fn name_status_lines(lines: Seq<Seq<char>>) -> Seq<StatusRowV>
    decreases lines.len(),
{
    if lines.len() == 0 {
        seq![]
    } else if trim_spec(lines[0]).len() == 0 {
        name_status_lines(lines.drop_first())
    } else {
        seq![name_status_line(lines[0])] + name_status_lines(lines.drop_first())
    }
}

fn name_status_line_exec(line: &str) -> (r: StatusRow)
    ensures
        status_row_v(r) == name_status_line(line@),
{
    let v = chars_of(line);
    let parts = splitn_exec(&v, 0, 3, '\t');
    assert(v@.skip(0) =~= v@);
    let st = field_exec(&parts, 0);
    let sv = chars_of(st.as_str());
    if sv.len() > 0 && sv[0] == 'R' {
        let old = field_exec(&parts, 1);
        let new = field_exec(&parts, 2);
        return (Status::Renamed, new, Some(old));
    }
    let path = field_exec(&parts, 1);
    let status = if sv.len() == 1 && sv[0] == 'A' {
        Status::Added
    } else if sv.len() == 1 && sv[0] == 'D' {
        Status::Deleted
    } else {
        Status::Modified
    };
    proof {
        if sv@.len() == 1 && sv@[0] == 'A' {
            assert(sv@ =~= seq!['A']);
        }
        if sv@.len() == 1 && sv@[0] == 'D' {
            assert(sv@ =~= seq!['D']);
        }
    }
    (status, path, None)
}

/// Parses `git diff --name-status` output.
pub fn parse_name_status(out: &str) -> (r: Result<Vec<StatusRow>, GitError>)
    ensures
        r matches Ok(x) && status_rows_v(x@) == name_status_lines(lines_of(out@)),
{
    let lines = split_lines(out);
    let ghost ls = lines_of(out@);
    let mut rows: Vec<StatusRow> = Vec::new();
    let mut i: usize = 0;
    assert(ls.skip(0) =~= ls);
    while i < lines.len()
        invariant
            strings_view(lines@) == ls,
            ls == lines_of(out@),
            i <= lines.len(),
            name_status_lines(ls) == status_rows_v(rows@) + name_status_lines(ls.skip(i as int)),
        decreases lines.len() - i,
    {
        assert(ls.skip(i as int).drop_first() =~= ls.skip(i + 1));
        assert(ls.skip(i as int)[0] == lines@[i as int]@);
        if !is_blank(lines[i].as_str()) {
            let row = name_status_line_exec(lines[i].as_str());
            proof {
                assert(status_rows_v(rows@.push(row)) =~= status_rows_v(rows@).push(status_row_v(row)));
                assert(status_rows_v(rows@) + (seq![status_row_v(row)] + name_status_lines(ls.skip(i + 1)))
                    =~= status_rows_v(rows@.push(row)) + name_status_lines(ls.skip(i + 1)));
            }
            rows.push(row);
        }
        i += 1;
    }
    assert(ls.skip(lines.len() as int) =~= Seq::<Seq<char>>::empty());
    assert(status_rows_v(rows@) + Seq::<StatusRowV>::empty() =~= status_rows_v(rows@));
    Ok(rows)
}

// ------------------------------------------------------------ log

/// The commit of a log line `hash|title|date|author` (the author keeps any
/// further `|`; missing fields are empty).
pub open spec fn log_line(line: Seq<char>) -> (Seq<char>, Seq<char>, Seq<char>, Seq<char>) {
    let parts = splitn_spec(line, 4, '|');
    (field(parts, 0), field(parts, 1), field(parts, 2), field(parts, 3))
}

pub open spec fn commit_v(c: CommitEntry) -> (Seq<char>, Seq<char>, Seq<char>, Seq<char>) {
    (c.short_hash@, c.title@, c.date@, c.author@)
}

/// Parses `git log --pretty=format:%h|%s|%ad|%an` output, one commit per line.
pub fn parse_log(out: &str) -> (r: Result<Vec<CommitEntry>, GitError>)
    ensures
        r matches Ok(x) && x@.map_values(|c: CommitEntry| commit_v(c)) == lines_of(out@).map_values(
            |l: Seq<char>| log_line(l),
        ),
{
    let lines = split_lines(out);
    let ghost ls = lines_of(out@);
    let ghost want = ls.map_values(|l: Seq<char>| log_line(l));
    let mut commits: Vec<CommitEntry> = Vec::new();
    let mut i: usize = 0;
    while i < lines.len()
        invariant
            strings_view(lines@) == ls,
            ls == lines_of(out@),
            want == ls.map_values(|l: Seq<char>| log_line(l)),
            i <= lines.len(),
            commits@.map_values(|c: CommitEntry| commit_v(c)) == want.take(i as int),
        decreases lines.len() - i,
    {
        let v = chars_of(lines[i].as_str());
        let parts = splitn_exec(&v, 0, 4, '|');
        assert(v@.skip(0) =~= v@);
        assert(v@ == ls[i as int]);
        let c = CommitEntry {
            short_hash: field_exec(&parts, 0),
            title: field_exec(&parts, 1),
            date: field_exec(&parts, 2),
            author: field_exec(&parts, 3),
        };
        proof {
            assert(commits@.push(c).map_values(|c: CommitEntry| commit_v(c)) =~= commits@.map_values(
                |c: CommitEntry| commit_v(c),
            ).push(commit_v(c)));
            assert(want.take(i + 1) =~= want.take(i as int).push(want[i as int]));
        }
        commits.push(c);
        i += 1;
    }
    assert(want.take(lines.len() as int) =~= want);
    Ok(commits)
}

// ------------------------------------------------------------ counting

/// Whether a non-empty `\n`-separated segment starts at `i`.
pub open spec fn segment_starts_at(content: Seq<u8>, i: int) -> bool {
    &&& 0 <= i < content.len()
    &&& content[i] != 10u8
    &&& (i == 0 || content[i - 1] == 10u8)
}

/// The number of non-empty segments before position `n`.
pub open spec fn segments_before(content: Seq<u8>, n: int) -> nat
    decreases n,
{
    if n <= 0 {
        0
    } else {
        segments_before(content, n - 1) + if segment_starts_at(content, n - 1) { 1nat } else { 0nat }
    }
}

/// The number of non-empty lines of a content: the segments between `\n`
/// bytes that are not empty.
pub fn count_lines(content: &[u8]) -> (r: usize)
    ensures
        r == segments_before(content@, content@.len() as int),
{
    let mut count: usize = 0;
    let mut i: usize = 0;
    while i < content.len()
        invariant
            i <= content.len(),
            count == segments_before(content@, i as int),
            count <= i,
        decreases content.len() - i,
    {
        if content[i] != 10u8 && (i == 0 || content[i - 1] == 10u8) {
            count += 1;
        }
        i += 1;
    }
    count
}

// ------------------------------------------------------------ messages

/// The first line of `lines` that is not blank, trimmed, or the empty text.
pub open spec fn first_nonblank(lines: Seq<Seq<char>>) -> Seq<char>
    decreases lines.len(),
{
    if lines.len() == 0 {
        seq![]
    } else if trim_spec(lines[0]).len() > 0 {
        trim_spec(lines[0])
    } else {
        first_nonblank(lines.drop_first())
    }
}

/// The prefixes git puts before an error message.
pub open spec fn git_error_prefixes() -> Seq<Seq<char>> {
    seq!["fatal: "@, "error: "@, "致命错误："@, "错误："@]
}

/// `s` without the first of `prefixes` that starts it, from index `k` on.
pub open spec fn strip_first_prefix(s: Seq<char>, prefixes: Seq<Seq<char>>, k: int) -> Seq<char>
    decreases prefixes.len() - k,
{
    if k < 0 || k >= prefixes.len() {
        s
    } else if prefixes[k].len() <= s.len() && s.take(prefixes[k].len() as int) == prefixes[k] {
        s.skip(prefixes[k].len() as int)
    } else {
        strip_first_prefix(s, prefixes, k + 1)
    }
}

fn strip_prefix_exec(s: &Vec<char>, p: &str) -> (r: Option<usize>)
    ensures
        match r {
            Some(n) => n == p@.len() && p@.len() <= s@.len() && s@.take(n as int) == p@,
            None => !(p@.len() <= s@.len() && s@.take(p@.len() as int) == p@),
        },
{
    let pv = chars_of(p);
    if pv.len() > s.len() {
        return None;
    }
    let mut i: usize = 0;
    while i < pv.len()
        invariant
            pv@ == p@,
            pv.len() <= s.len(),
            i <= pv.len(),
            forall|j: int| 0 <= j < i ==> s@[j] == pv@[j],
        decreases pv.len() - i,
    {
        if s[i] != pv[i] {
            assert(s@.take(pv.len() as int)[i as int] != p@[i as int]);
            return None;
        }
        i += 1;
    }
    assert(s@.take(pv.len() as int) =~= p@);
    Some(pv.len())
}

/// Turns git's stderr into a short message: the first non-blank line,
/// trimmed, without git's own error prefix (`fatal: `, `error: ` and their
/// localized forms).
pub fn clean_git_error(stderr: &str) -> (r: String)
    ensures
        r@ == strip_first_prefix(first_nonblank(lines_of(stderr@)), git_error_prefixes(), 0),
{
    let lines = split_lines(stderr);
    let ghost ls = lines_of(stderr@);
    let mut first = String::new();
    let mut i: usize = 0;
    let mut found = false;
    assert(ls.skip(0) =~= ls);
    while i < lines.len()
        invariant_except_break
            !found,
            first@ == Seq::<char>::empty(),
        invariant
            strings_view(lines@) == ls,
            ls == lines_of(stderr@),
            i <= lines.len(),
            first_nonblank(ls) == first_nonblank(ls.skip(i as int)),
        ensures
            found ==> first@ == first_nonblank(ls),
            !found ==> i == lines.len() && first@ == Seq::<char>::empty(),
        decreases lines.len() - i,
    {
        assert(ls.skip(i as int).drop_first() =~= ls.skip(i + 1));
        assert(ls.skip(i as int)[0] == lines@[i as int]@);
        if !is_blank(lines[i].as_str()) {
            first = trim_string(lines[i].as_str());
            found = true;
            break;
        }
        i += 1;
    }
    proof {
        if !found {
            assert(ls.skip(i as int) =~= Seq::<Seq<char>>::empty());
            assert(first@ == first_nonblank(ls));
        }
    }
    let fv = chars_of(first.as_str());
    let prefixes = ["fatal: ", "error: ", "致命错误：", "错误："];
    proof {
        reveal_strlit("fatal: ");
        reveal_strlit("error: ");
        reveal_strlit("致命错误：");
        reveal_strlit("错误：");
        assert(prefixes@.map_values(|p: &str| p@) =~= git_error_prefixes());
    }
    let mut k: usize = 0;
    while k < 4
        invariant
            k <= 4,
            fv@ == first@,
            first@ == first_nonblank(lines_of(stderr@)),
            prefixes@.map_values(|p: &str| p@) == git_error_prefixes(),
            strip_first_prefix(first@, git_error_prefixes(), 0) == strip_first_prefix(first@, git_error_prefixes(), k as int),
        decreases 4 - k,
    {
        assert(prefixes@[k as int]@ == git_error_prefixes()[k as int]);
        match strip_prefix_exec(&fv, prefixes[k]) {
            Some(n) => {
                assert(fv@.subrange(n as int, fv.len() as int) =~= fv@.skip(n as int));
                return string_of_range(&fv, n, fv.len());
            },
            None => {},
        }
        k += 1;
    }
    first
}

proof fn lemma_find_after(x: Seq<char>, rest: Seq<char>, sep: char, i: int)
    requires
        0 <= i <= x.len(),
        !x.contains(sep),
    ensures
        find_char_from(x + seq![sep] + rest, sep, i) == x.len(),
    decreases x.len() - i,
{
    let s = x + seq![sep] + rest;
    if i < x.len() {
        assert(s[i] == x[i]);
        assert(x[i] != sep) by {
            if x[i] == sep {
                assert(x.contains(sep));
            }
        }
        lemma_find_after(x, rest, sep, i + 1);
    } else {
        assert(s[i] == sep);
    }
}

proof fn lemma_split_first(x: Seq<char>, rest: Seq<char>, sep: char, n: nat)
    requires
        n > 1,
        !x.contains(sep),
    ensures
        splitn_spec(x + seq![sep] + rest, n, sep) == seq![x] + splitn_spec(rest, (n - 1) as nat, sep),
{
    let s = x + seq![sep] + rest;
    lemma_find_after(x, rest, sep, 0);
    assert(s.take(x.len() as int) =~= x);
    assert(s.skip(x.len() + 1 as int) =~= rest);
}

/// A log line read back: the line git writes for a commit, hash, title and
/// date free of `|`, gives that commit's fields (the author may hold `|`).
pub proof fn lemma_log_line_round_trip(h: Seq<char>, t: Seq<char>, d: Seq<char>, a: Seq<char>)
    requires
        !h.contains('|'),
        !t.contains('|'),
        !d.contains('|'),
    ensures
        log_line(h + seq!['|'] + t + seq!['|'] + d + seq!['|'] + a) == (h, t, d, a),
{
    let r3 = d + seq!['|'] + a;
    let r2 = t + seq!['|'] + r3;
    let line = h + seq!['|'] + r2;
    assert(h + seq!['|'] + t + seq!['|'] + d + seq!['|'] + a =~= line);
    lemma_split_first(h, r2, '|', 4);
    lemma_split_first(t, r3, '|', 3);
    lemma_split_first(d, a, '|', 2);
    assert(splitn_spec(a, 1, '|') == seq![a]);
    let parts = splitn_spec(line, 4, '|');
    assert(parts =~= seq![h, t, d, a]);
}

/// The line git writes for a commit: hash, title, date and author joined
/// by `|`.
pub open spec fn log_entry(c: (Seq<char>, Seq<char>, Seq<char>, Seq<char>)) -> Seq<char> {
    c.0 + seq!['|'] + c.1 + seq!['|'] + c.2 + seq!['|'] + c.3
}

/// A whole log read back: the lines git writes for some commits, one per
/// commit, each ended by a line break, give those commits, in order, when
/// no field holds a line break, hash, title and date hold no `|`, and no
/// author ends with `\r`.
pub proof fn lemma_log_round_trip(cs: Seq<(Seq<char>, Seq<char>, Seq<char>, Seq<char>)>)
    requires
        forall|i: int| 0 <= i < cs.len() ==> {
            let c = #[trigger] cs[i];
            &&& !c.0.contains('|') && !c.1.contains('|') && !c.2.contains('|')
            &&& crate::align::no_nl(c.0) && crate::align::no_nl(c.1) && crate::align::no_nl(c.2) && crate::align::no_nl(c.3)
            &&& !(c.3.len() > 0 && c.3.last() == '\r')
        },
    ensures
        lines_of(crate::align::end_lines(cs.map_values(|c: (Seq<char>, Seq<char>, Seq<char>, Seq<char>)| log_entry(c)))).map_values(
            |l: Seq<char>| log_line(l),
        ) == cs,
{
    let ls = cs.map_values(|c: (Seq<char>, Seq<char>, Seq<char>, Seq<char>)| log_entry(c));
    assert forall|j: int| 0 <= j < ls.len() implies crate::align::no_nl(#[trigger] ls[j]) by {
        let c = cs[j];
        let e = log_entry(c);
        assert forall|k: int| 0 <= k < e.len() implies e[k] != '\n' by {
            let p1 = c.0.len() as int;
            let p2 = p1 + 1 + c.1.len();
            let p3 = p2 + 1 + c.2.len();
            if k < p1 {
                assert(e[k] == c.0[k]);
            } else if k == p1 || k == p2 || k == p3 {
            } else if k < p2 {
                assert(e[k] == c.1[k - p1 - 1]);
            } else if k < p3 {
                assert(e[k] == c.2[k - p2 - 1]);
            } else {
                assert(e[k] == c.3[k - p3 - 1]);
            }
        }
    }
    crate::align::lemma_end_lines_lines(ls);
    let got = lines_of(crate::align::end_lines(ls));
    assert(got == ls.map_values(|l: Seq<char>| crate::align::strip_cr(l)));
    assert forall|j: int| 0 <= j < cs.len() implies got.map_values(|l: Seq<char>| log_line(l))[j] == cs[j] by {
        let c = cs[j];
        let e = log_entry(c);
        if c.3.len() > 0 {
            assert(e.last() == c.3.last());
        } else {
            assert(e.last() == '|');
        }
        assert(crate::align::strip_cr(e) == e);
        lemma_log_line_round_trip(c.0, c.1, c.2, c.3);
    }
    assert(got.map_values(|l: Seq<char>| log_line(l)) =~= cs);
}

proof fn lemma_decimal_reads_back(n: nat)
    ensures
        crate::view::decimal(n).len() > 0,
        forall|i: int| 0 <= i < crate::view::decimal(n).len() ==> is_digit(#[trigger] crate::view::decimal(n)[i]),
        digits_value(crate::view::decimal(n)) == n,
    decreases n,
{
    let s = crate::view::decimal(n);
    if n < 10 {
        assert(crate::view::digit_char(n) as u32 == 0x30 + n);
        assert(s.drop_last() =~= Seq::<char>::empty());
        assert(digits_value(s.drop_last()) == 0);
        assert(digits_value(s) == digits_value(s.drop_last()) * 10 + ((s.last() as u32) - 0x30) as nat);
    } else {
        lemma_decimal_reads_back(n / 10);
        let c = crate::view::digit_char(n % 10);
        assert(c as u32 == 0x30 + n % 10);
        assert(s.drop_last() =~= crate::view::decimal(n / 10));
        assert(s.last() == c);
        assert forall|i: int| 0 <= i < s.len() implies is_digit(#[trigger] s[i]) by {
            if i < s.len() - 1 {
                assert(s[i] == crate::view::decimal(n / 10)[i]);
            }
        }
        assert((n / 10) * 10 + n % 10 == n) by (nonlinear_arith);
        assert(digits_value(s) == digits_value(s.drop_last()) * 10 + ((s.last() as u32) - 0x30) as nat);
        assert(digits_value(s) == (n / 10) * 10 + n % 10);
    }
}

proof fn lemma_digits_have_no(s: Seq<char>, c: char)
    requires
        forall|i: int| 0 <= i < s.len() ==> is_digit(#[trigger] s[i]),
        !is_digit(c),
    ensures
        !s.contains(c),
{
}

/// A numstat line read back: the line git writes for a text file, its
/// added and deleted counts in decimal and its path separated by tabs,
/// gives those counts and the path (read for a rename as `numstat_paths`
/// says).
pub proof fn lemma_numstat_line_fields(added: u64, deleted: u64, path: Seq<char>, with_rename: bool)
    ensures
        numstat_line(
            crate::view::decimal(added as nat) + seq!['\t'] + crate::view::decimal(deleted as nat) + seq!['\t'] + path,
            with_rename,
        ) == Ok::<NumstatRowV, Seq<char>>((numstat_paths(path, with_rename).0, numstat_paths(path, with_rename).1, added, deleted, false)),
{
    let da = crate::view::decimal(added as nat);
    let dd = crate::view::decimal(deleted as nat);
    lemma_decimal_reads_back(added as nat);
    lemma_decimal_reads_back(deleted as nat);
    lemma_digits_have_no(da, '\t');
    lemma_digits_have_no(dd, '\t');
    let line = da + seq!['\t'] + dd + seq!['\t'] + path;
    let rest = dd + seq!['\t'] + path;
    assert(line =~= da + seq!['\t'] + rest);
    lemma_split_first(da, rest, '\t', 3);
    lemma_split_first(dd, path, '\t', 2);
    assert(splitn_spec(path, 1, '\t') == seq![path]);
    let parts = splitn_spec(line, 3, '\t');
    assert(parts =~= seq![da, dd, path]);
    assert(is_digit(da[0]) && is_digit(dd[0]));
    assert(da != seq!['-']);
    assert(dd != seq!['-']);
    assert(unsigned_digits(da) == da);
    assert(unsigned_digits(dd) == dd);
}

proof fn lemma_segments_prefix(a: Seq<u8>, c: Seq<u8>, n: int)
    requires
        0 <= n <= a.len(),
        a.len() <= c.len(),
        forall|i: int| 0 <= i < a.len() ==> c[i] == a[i],
    ensures
        segments_before(c, n) == segments_before(a, n),
    decreases n,
{
    if n > 0 {
        lemma_segments_prefix(a, c, n - 1);
    }
}

proof fn lemma_segments_shift(a: Seq<u8>, b: Seq<u8>, m: int)
    requires
        0 <= m <= b.len(),
    ensures
        segments_before(a + seq![10u8] + b, a.len() + 1 + m) == segments_before(a, a.len() as int) + segments_before(b, m),
    decreases m,
{
    let c = a + seq![10u8] + b;
    if m > 0 {
        lemma_segments_shift(a, b, m - 1);
        let k = a.len() + m;
        assert(c[k] == b[m - 1]);
        if m - 1 > 0 {
            assert(c[k - 1] == b[m - 2]);
        } else {
            assert(c[k - 1] == 10u8);
        }
        assert(segment_starts_at(c, k) == segment_starts_at(b, m - 1));
    } else {
        lemma_segments_prefix(a, c, a.len() as int);
        assert(!segment_starts_at(c, a.len() as int));
    }
}

/// Counting lines splits at a line break: the non-empty lines of two
/// contents joined by `\n` are those of the first and those of the second.
pub proof fn lemma_count_lines_concat(a: Seq<u8>, b: Seq<u8>)
    ensures
        segments_before(a + seq![10u8] + b, (a.len() + 1 + b.len()) as int) == segments_before(a, a.len() as int) + segments_before(
            b,
            b.len() as int,
        ),
{
    lemma_segments_shift(a, b, b.len() as int);
}

/// The numstat rows are the non-blank lines, each parsed, in order: the
/// parse succeeds exactly when every non-blank line parses.
pub proof fn lemma_numstat_rows_per_line(lines: Seq<Seq<char>>, with_rename: bool)
    ensures
        numstat_lines(lines, with_rename) is Ok <==> (forall|k: int| 0 <= k < nonblank_lines(lines).len() ==> #[trigger] numstat_line(
            nonblank_lines(lines)[k],
            with_rename,
        ) is Ok),
        numstat_lines(lines, with_rename) matches Ok(rs) ==> rs.len() == nonblank_lines(lines).len() && forall|k: int|
            0 <= k < rs.len() ==> numstat_line(#[trigger] nonblank_lines(lines)[k], with_rename) == Ok::<NumstatRowV, Seq<char>>(rs[k]),
    decreases lines.len(),
{
    if lines.len() > 0 {
        lemma_numstat_rows_per_line(lines.drop_first(), with_rename);
        let nb = nonblank_lines(lines);
        let nb1 = nonblank_lines(lines.drop_first());
        if trim_spec(lines[0]).len() != 0 {
            assert(nb == seq![lines[0]] + nb1);
            assert forall|k: int| 0 <= k < nb1.len() implies nb[k + 1] == nb1[k] by {}
            if numstat_lines(lines, with_rename) is Ok {
                assert forall|k: int| 0 <= k < nb.len() implies #[trigger] numstat_line(nb[k], with_rename) is Ok by {
                    if k > 0 {
                        assert(nb[k] == nb1[k - 1]);
                    }
                }
            }
            if forall|k: int| 0 <= k < nb.len() ==> #[trigger] numstat_line(nb[k], with_rename) is Ok {
                assert(numstat_line(nb[0], with_rename) is Ok);
                assert forall|k: int| 0 <= k < nb1.len() implies #[trigger] numstat_line(nb1[k], with_rename) is Ok by {
                    assert(nb[k + 1] == nb1[k]);
                }
            }
        }
    }
}

/// The name-status rows are the non-blank lines, each read, in order.
pub proof fn lemma_name_status_rows_per_line(lines: Seq<Seq<char>>)
    ensures
        name_status_lines(lines) == nonblank_lines(lines).map_values(|l: Seq<char>| name_status_line(l)),
    decreases lines.len(),
{
    if lines.len() > 0 {
        lemma_name_status_rows_per_line(lines.drop_first());
        let nb1 = nonblank_lines(lines.drop_first());
        if trim_spec(lines[0]).len() != 0 {
            assert((seq![lines[0]] + nb1).map_values(|l: Seq<char>| name_status_line(l)) =~= seq![name_status_line(lines[0])]
                + nb1.map_values(|l: Seq<char>| name_status_line(l)));
        }
    } else {
        assert(nonblank_lines(lines).map_values(|l: Seq<char>| name_status_line(l)) =~= Seq::<StatusRowV>::empty());
    }
}

// ------------------------------------------------------------ the facade

/// `anyhow::Error`, the error a runner reports.
#[verifier::external_type_specification]
#[verifier::external_body]
pub struct ExAnyhowError(anyhow::Error);

/// `std::path::PathBuf`, the repository root.
#[verifier::external_type_specification]
#[verifier::external_body]
pub struct ExPathBuf(std::path::PathBuf);

/// The `Display` text of an `anyhow::Error` (`to_string`). The error is
/// opaque here, so nothing is stated of the text.
#[verifier::external_body]
fn error_text(e: &anyhow::Error) -> String {
    e.to_string()
}

/// `PathBuf::clone`: an equal path.
#[verifier::external_body]
fn clone_path(p: &std::path::PathBuf) -> (r: std::path::PathBuf)
    ensures
        r == *p,
{
    p.clone()
}

/// One of the two listings of a mode's changed files (see `mode_args`).
pub open spec fn mode_listing(args: Seq<Seq<char>>, mode: ComparisonMode) -> bool {
    match mode_args(mode) {
        Some((numstat, statuses)) => args == numstat || args == statuses,
        None => false,
    }
}

/// A listing of the files changed between a commit and HEAD:
/// `diff --numstat -M <commit> HEAD` or its `--name-status` twin.
pub open spec fn commit_listing(args: Seq<Seq<char>>) -> bool {
    &&& args.len() == 5
    &&& args[0] == "diff"@
    &&& (args[1] == "--numstat"@ || args[1] == "--name-status"@)
    &&& args[2] == "-M"@
    &&& args[4] == "HEAD"@
}

/// The commands the viewer runs, each of which only reads the repository:
/// the listings of changed files, of untracked files and of commits, a
/// file's contents at a revision (`show <rev>:<path>`), and the branch HEAD
/// names. Nothing stages, checks out, commits or configures.
pub open spec fn reading_command(args: Seq<Seq<char>>) -> bool {
    ||| mode_listing(args, ComparisonMode::WorkingVsHead)
    ||| mode_listing(args, ComparisonMode::StagedVsHead)
    ||| mode_listing(args, ComparisonMode::StagedVsWorking)
    ||| commit_listing(args)
    ||| args == seq!["ls-files"@, "--others"@, "--exclude-standard"@]
    ||| args == seq!["log"@, "-n"@, "200"@, "--pretty=format:%h|%s|%ad|%an"@, "--date=short"@]
    ||| (args.len() == 2 && args[0] == "show"@ && args[1].contains(':'))
    ||| args == seq!["symbolic-ref"@, "--short"@, "HEAD"@]
}

/// Runs git. Implementors decide how: the program runs the `git` binary in
/// the repository; tests answer from canned outputs.
pub trait GitRunner {
    /// Runs `git` with `args`, giving its standard output. The library only
    /// asks for commands that read (`reading_command`).
    fn run(&self, args: &[&str]) -> anyhow::Result<String>
        requires
            reading_command(args_v(args@)),
    ;

    /// Reads a file of the working tree, `None` when it cannot be read. A
    /// runner that does not override this reads nothing.
    fn read_worktree(&self, path: &str) -> (r: Option<Vec<u8>>)
        default_ensures
            r is None,
    {
        None
    }
}

/// Whether `bytes` are the UTF-8 encoding of some text, as the bytes of a
/// runner's output are.
pub open spec fn text_bytes(bytes: Seq<u8>) -> bool {
    exists|out: Seq<char>| vstd::utf8::encode_utf8(out) == bytes
}

/// The queries the viewer makes of git, answered through a runner.
pub struct GitFacade<'a> {
    runner: &'a dyn GitRunner,
    root: std::path::PathBuf,
}

/// A changed file as values.
pub type FileV = (Status, Seq<char>, Option<Seq<char>>, u64, u64, bool);

pub open spec fn opt_view(s: Option<String>) -> Option<Seq<char>> {
    match s {
        Some(x) => Some(x@),
        None => None,
    }
}

pub open spec fn file_v(f: ChangedFile) -> FileV {
    (f.status, f.path@, opt_view(f.old_path), f.added, f.deleted, f.is_binary)
}

pub open spec fn files_v(fs: Seq<ChangedFile>) -> Seq<FileV> {
    fs.map_values(|f: ChangedFile| file_v(f))
}

/// The status and old path that the last name-status row for `path` gives.
pub open spec fn lookup_status(rows: Seq<StatusRowV>, path: Seq<char>) -> Option<(Status, Option<Seq<char>>)>
    decreases rows.len(),
{
    if rows.len() == 0 {
        None
    } else if rows.last().1 == path {
        Some((rows.last().0, rows.last().2))
    } else {
        lookup_status(rows.drop_last(), path)
    }
}

/// A numstat row joined with the name-status rows: the status found for its
/// path (modified when none), the old path of the name-status row, else that
/// of the numstat row.
pub open spec fn merge_row(r: NumstatRowV, rows: Seq<StatusRowV>) -> FileV {
    let (status, old) = match lookup_status(rows, r.0) {
        Some(x) => x,
        None => (Status::Modified, None),
    };
    (status, r.0, match old {
        Some(o) => Some(o),
        None => r.1,
    }, r.2, r.3, r.4)
}

/// The changed files that a numstat output and a name-status output
/// describe, or the first parse error.
pub open spec fn files_from_outputs_spec(numstat: Seq<char>, statuses: Seq<char>) -> Result<Seq<FileV>, Seq<char>> {
    match numstat_lines(lines_of(numstat), true) {
        Err(e) => Err(e),
        Ok(rows) => {
            let srows = name_status_lines(lines_of(statuses));
            Ok(rows.map_values(|r: NumstatRowV| merge_row(r, srows)))
        },
    }
}

/// How the two listings merge: one changed file per numstat row, in the
/// numstat order, with that row's path and counts; its status is that of
/// the last name-status row for its path, modified when there is none. A
/// path that only the name-status listing gives is not listed.
pub proof fn lemma_listing_merge(numstat: Seq<char>, statuses: Seq<char>)
    ensures
        files_from_outputs_spec(numstat, statuses) is Ok <==> numstat_lines(lines_of(numstat), true) is Ok,
        files_from_outputs_spec(numstat, statuses) matches Ok(fs) ==> {
            let rows = numstat_lines(lines_of(numstat), true)->Ok_0;
            let srows = name_status_lines(lines_of(statuses));
            &&& fs.len() == rows.len()
            &&& forall|i: int|
                0 <= i < fs.len() ==> {
                    &&& (#[trigger] fs[i]).1 == rows[i].0
                    &&& fs[i].3 == rows[i].2
                    &&& fs[i].4 == rows[i].3
                    &&& fs[i].5 == rows[i].4
                    &&& fs[i].0 == match lookup_status(srows, rows[i].0) {
                        Some(x) => x.0,
                        None => Status::Modified,
                    }
                }
        },
        files_from_outputs_spec(numstat, statuses) matches Ok(fs) ==> {
            let rows = numstat_lines(lines_of(numstat), true)->Ok_0;
            let srows = name_status_lines(lines_of(statuses));
            forall|i: int, k: int|
                0 <= i < fs.len() && 0 <= k < srows.len() && srows[k].1 == rows[i].0 && (forall|k2: int|
                    k < k2 < srows.len() ==> srows[k2].1 != rows[i].0) ==> {
                    &&& (#[trigger] fs[i]).0 == (#[trigger] srows[k]).0
                    &&& fs[i].2 == if srows[k].2 is Some { srows[k].2 } else { rows[i].1 }
                }
        },
        files_from_outputs_spec(numstat, statuses) matches Ok(fs) ==> {
            let rows = numstat_lines(lines_of(numstat), true)->Ok_0;
            let srows = name_status_lines(lines_of(statuses));
            forall|i: int|
                0 <= i < fs.len() && (forall|k: int| 0 <= k < srows.len() ==> srows[k].1 != rows[i].0) ==> {
                    &&& (#[trigger] fs[i]).0 == Status::Modified
                    &&& fs[i].2 == rows[i].1
                }
        },
{
    if files_from_outputs_spec(numstat, statuses) is Ok {
        let rows = numstat_lines(lines_of(numstat), true)->Ok_0;
        let srows = name_status_lines(lines_of(statuses));
        assert forall|i: int, k: int|
            0 <= i < rows.len() && 0 <= k < srows.len() && srows[k].1 == rows[i].0 && (forall|k2: int|
                k < k2 < srows.len() ==> srows[k2].1 != rows[i].0) implies lookup_status(srows, rows[i].0) == Some(
            (srows[k].0, srows[k].2),
        ) by {
            lemma_lookup_last(srows, rows[i].0, k);
        }
        assert forall|i: int| 0 <= i < rows.len() && (forall|k: int| 0 <= k < srows.len() ==> srows[k].1 != rows[i].0) implies lookup_status(
            srows,
            rows[i].0,
        ) is None by {
            lemma_lookup_none(srows, rows[i].0);
        }
    }
}

/// With no row for `p`, nothing is found.
proof fn lemma_lookup_none(rows: Seq<StatusRowV>, p: Seq<char>)
    requires
        forall|k: int| 0 <= k < rows.len() ==> rows[k].1 != p,
    ensures
        lookup_status(rows, p) is None,
    decreases rows.len(),
{
    if rows.len() > 0 {
        assert(rows[rows.len() - 1].1 != p);
        assert forall|k: int| 0 <= k < rows.drop_last().len() implies rows.drop_last()[k].1 != p by {
            assert(rows.drop_last()[k] == rows[k]);
        }
        lemma_lookup_none(rows.drop_last(), p);
    }
}

/// The row found for `p` is the last row for `p`.
proof fn lemma_lookup_last(rows: Seq<StatusRowV>, p: Seq<char>, k: int)
    requires
        0 <= k < rows.len(),
        rows[k].1 == p,
        forall|k2: int| k < k2 < rows.len() ==> rows[k2].1 != p,
    ensures
        lookup_status(rows, p) == Some((rows[k].0, rows[k].2)),
    decreases rows.len(),
{
    if k < rows.len() - 1 {
        assert(rows[rows.len() - 1].1 != p);
        assert(rows.drop_last()[k] == rows[k]);
        assert forall|k2: int| k < k2 < rows.drop_last().len() implies rows.drop_last()[k2].1 != p by {
            assert(rows.drop_last()[k2] == rows[k2]);
        }
        lemma_lookup_last(rows.drop_last(), p, k);
    }
}

/// A rename line of `git diff --name-status`, `R<score><TAB>old<TAB>new`,
/// reads as a rename of `old` to `new`.
pub proof fn lemma_rename_line(score: Seq<char>, old: Seq<char>, new: Seq<char>)
    requires
        !score.contains('\t'),
        !old.contains('\t'),
    ensures
        name_status_line(seq!['R'] + score + seq!['\t'] + old + seq!['\t'] + new) == (Status::Renamed, new, Some(old)),
{
    let st = seq!['R'] + score;
    assert(!st.contains('\t')) by {
        if st.contains('\t') {
            let j = choose|j: int| 0 <= j < st.len() && st[j] == '\t';
            assert(score[j - 1] == '\t');
        }
    }
    let line = seq!['R'] + score + seq!['\t'] + old + seq!['\t'] + new;
    let rest = old + seq!['\t'] + new;
    assert(line =~= st + seq!['\t'] + rest);
    lemma_split_first(st, rest, '\t', 3);
    lemma_split_first(old, new, '\t', 2);
    assert(splitn_spec(new, 1, '\t') == seq![new]);
    assert(splitn_spec(line, 3, '\t') =~= seq![st, old, new]);
    assert(st[0] == 'R');
}

fn lookup_status_exec(rows: &Vec<StatusRow>, path: &String) -> (r: Option<(Status, Option<String>)>)
    ensures
        match (r, lookup_status(status_rows_v(rows@), path@)) {
            (Some(x), Some(y)) => x.0 == y.0 && opt_view(x.1) == y.1,
            (None, None) => true,
            _ => false,
        },
{
    let mut i = rows.len();
    assert(rows@.take(i as int) =~= rows@);
    while i > 0
        invariant
            i <= rows.len(),
            lookup_status(status_rows_v(rows@), path@) == lookup_status(status_rows_v(rows@.take(i as int)), path@),
        decreases i,
    {
        let r = &rows[i - 1];
        assert(status_rows_v(rows@.take(i as int)).drop_last() =~= status_rows_v(rows@.take(i - 1)));
        assert(status_rows_v(rows@.take(i as int)).last() == status_row_v(rows@[i - 1]));
        if r.1 == *path {
            return Some((r.0, crate::model::copy_opt_string(&r.2)));
        }
        i -= 1;
    }
    None
}

/// Joins parsed numstat output with parsed name-status output.
pub fn files_from_outputs(numstat: &str, statuses: &str) -> (r: Result<Vec<ChangedFile>, GitError>)
    ensures
        match (r, files_from_outputs_spec(numstat@, statuses@)) {
            (Ok(x), Ok(y)) => files_v(x@) == y,
            (Err(GitError::Parse(m)), Err(e)) => m@ == e,
            _ => false,
        },
{
    let rows = match parse_numstat(numstat, true) {
        Ok(rows) => rows,
        Err(e) => {
            return Err(e);
        },
    };
    let srows = match parse_name_status(statuses) {
        Ok(x) => x,
        Err(e) => {
            return Err(e);
        },
    };
    let ghost rv = numstat_rows_v(rows@);
    let ghost sv = status_rows_v(srows@);
    let mut files: Vec<ChangedFile> = Vec::new();
    let mut i: usize = 0;
    while i < rows.len()
        invariant
            rv == numstat_rows_v(rows@),
            sv == status_rows_v(srows@),
            i <= rows.len(),
            files_v(files@) == rv.take(i as int).map_values(|r: NumstatRowV| merge_row(r, sv)),
        decreases rows.len() - i,
    {
        let row = &rows[i];
        let (status, name_status_old) = match lookup_status_exec(&srows, &row.0) {
            Some(x) => x,
            None => (Status::Modified, None),
        };
        let old_path = match name_status_old {
            Some(o) => Some(o),
            None => crate::model::copy_opt_string(&row.1),
        };
        let f = ChangedFile {
            status,
            path: row.0.clone(),
            old_path,
            added: row.2,
            deleted: row.3,
            is_binary: row.4,
        };
        proof {
            assert(rv[i as int] == numstat_row_v(rows@[i as int]));
            assert(file_v(f) == merge_row(rv[i as int], sv));
            assert(files_v(files@.push(f)) =~= files_v(files@).push(file_v(f)));
            assert(rv.take(i + 1).map_values(|r: NumstatRowV| merge_row(r, sv)) =~= rv.take(i as int).map_values(
                |r: NumstatRowV| merge_row(r, sv),
            ).push(merge_row(rv[i as int], sv)));
        }
        files.push(f);
        i += 1;
    }
    assert(rv.take(rows.len() as int) =~= rv);
    Ok(files)
}

/// The arguments of the two commands whose outputs list a mode's changed
/// files (numstat, then name-status); none for mode D.
pub open spec fn mode_args(mode: ComparisonMode) -> Option<(Seq<Seq<char>>, Seq<Seq<char>>)> {
    match mode {
        ComparisonMode::WorkingVsHead => Some((
            seq!["diff"@, "--numstat"@, "-M"@, "HEAD"@],
            seq!["diff"@, "--name-status"@, "-M"@, "HEAD"@],
        )),
        ComparisonMode::StagedVsHead => Some((
            seq!["diff"@, "--cached"@, "--numstat"@, "-M"@, "HEAD"@],
            seq!["diff"@, "--cached"@, "--name-status"@, "-M"@, "HEAD"@],
        )),
        ComparisonMode::StagedVsWorking => Some((
            seq!["diff"@, "--numstat"@, "-M"@],
            seq!["diff"@, "--name-status"@, "-M"@],
        )),
        ComparisonMode::CommitVsHead => None,
    }
}

/// The argument views of an argument list.
pub open spec fn args_v(args: Seq<&str>) -> Seq<Seq<char>> {
    args.map_values(|a: &str| a@)
}

/// The arguments for the changed-files listing of a mode.
pub fn changed_files_args(mode: ComparisonMode) -> (r: Option<(Vec<&'static str>, Vec<&'static str>)>)
    ensures
        match (r, mode_args(mode)) {
            (Some(x), Some(y)) => args_v(x.0@) == y.0 && args_v(x.1@) == y.1,
            (None, None) => true,
            _ => false,
        },
{
    proof {
        reveal_strlit("diff");
        reveal_strlit("--numstat");
        reveal_strlit("--name-status");
        reveal_strlit("--cached");
        reveal_strlit("-M");
        reveal_strlit("HEAD");
    }
    match mode {
        ComparisonMode::WorkingVsHead => {
            let a = vec!["diff", "--numstat", "-M", "HEAD"];
            let b = vec!["diff", "--name-status", "-M", "HEAD"];
            assert(args_v(a@) =~= seq!["diff"@, "--numstat"@, "-M"@, "HEAD"@]);
            assert(args_v(b@) =~= seq!["diff"@, "--name-status"@, "-M"@, "HEAD"@]);
            Some((a, b))
        },
        ComparisonMode::StagedVsHead => {
            let a = vec!["diff", "--cached", "--numstat", "-M", "HEAD"];
            let b = vec!["diff", "--cached", "--name-status", "-M", "HEAD"];
            assert(args_v(a@) =~= seq!["diff"@, "--cached"@, "--numstat"@, "-M"@, "HEAD"@]);
            assert(args_v(b@) =~= seq!["diff"@, "--cached"@, "--name-status"@, "-M"@, "HEAD"@]);
            Some((a, b))
        },
        ComparisonMode::StagedVsWorking => {
            let a = vec!["diff", "--numstat", "-M"];
            let b = vec!["diff", "--name-status", "-M"];
            assert(args_v(a@) =~= seq!["diff"@, "--numstat"@, "-M"@]);
            assert(args_v(b@) =~= seq!["diff"@, "--name-status"@, "-M"@]);
            Some((a, b))
        },
        ComparisonMode::CommitVsHead => None,
    }
}

/// The non-blank lines of an output.
pub open spec fn nonblank_lines(lines: Seq<Seq<char>>) -> Seq<Seq<char>>
    decreases lines.len(),
{
    if lines.len() == 0 {
        seq![]
    } else if trim_spec(lines[0]).len() == 0 {
        nonblank_lines(lines.drop_first())
    } else {
        seq![lines[0]] + nonblank_lines(lines.drop_first())
    }
}

/// The branch name a `symbolic-ref` output gives: its trimmed text, none
/// when that is empty.
pub open spec fn branch_of_output(out: Seq<char>) -> Option<Seq<char>> {
    if trim_spec(out).len() == 0 {
        None
    } else {
        Some(trim_spec(out))
    }
}

/// The changed files from git's two answers, numstat then name-status:
/// the first error among them, else the join of their parses (see
/// `files_from_outputs`).
pub fn files_from_answers(numstat: Result<String, GitError>, statuses: Result<String, GitError>) -> (r: Result<
    Vec<ChangedFile>,
    GitError,
>)
    ensures
        match numstat {
            Err(e) => r == Err::<Vec<ChangedFile>, GitError>(e),
            Ok(n) => match statuses {
                Err(e) => r == Err::<Vec<ChangedFile>, GitError>(e),
                Ok(st) => match (r, files_from_outputs_spec(n@, st@)) {
                    (Ok(x), Ok(y)) => files_v(x@) == y,
                    (Err(GitError::Parse(m)), Err(e)) => m@ == e,
                    _ => false,
                },
            },
        },
{
    match numstat {
        Err(e) => Err(e),
        Ok(n) => match statuses {
            Err(e) => Err(e),
            Ok(st) => files_from_outputs(n.as_str(), st.as_str()),
        },
    }
}

/// The arguments of the two listings of the files changed between `commit`
/// and HEAD: numstat, then name-status.
pub open spec fn between_args_spec(commit: Seq<char>) -> (Seq<Seq<char>>, Seq<Seq<char>>) {
    (
        seq!["diff"@, "--numstat"@, "-M"@, commit, "HEAD"@],
        seq!["diff"@, "--name-status"@, "-M"@, commit, "HEAD"@],
    )
}

/// The arguments of the listings of the files changed between `commit` and
/// HEAD.
pub fn between_args<'c>(commit: &'c str) -> (r: (Vec<&'c str>, Vec<&'c str>))
    ensures
        args_v(r.0@) == between_args_spec(commit@).0,
        args_v(r.1@) == between_args_spec(commit@).1,
{
    let a = vec!["diff", "--numstat", "-M", commit, "HEAD"];
    let b = vec!["diff", "--name-status", "-M", commit, "HEAD"];
    assert(args_v(a@) =~= between_args_spec(commit@).0);
    assert(args_v(b@) =~= between_args_spec(commit@).1);
    (a, b)
}

/// The arguments of the listing of untracked files.
pub fn untracked_args() -> (r: Vec<&'static str>)
    ensures
        args_v(r@) == seq!["ls-files"@, "--others"@, "--exclude-standard"@],
{
    let a = vec!["ls-files", "--others", "--exclude-standard"];
    assert(args_v(a@) =~= seq!["ls-files"@, "--others"@, "--exclude-standard"@]);
    a
}

/// The arguments of the log of the last 200 commits.
pub fn log_args() -> (r: Vec<&'static str>)
    ensures
        args_v(r@) == seq!["log"@, "-n"@, "200"@, "--pretty=format:%h|%s|%ad|%an"@, "--date=short"@],
{
    let a = vec!["log", "-n", "200", "--pretty=format:%h|%s|%ad|%an", "--date=short"];
    assert(args_v(a@) =~= seq!["log"@, "-n"@, "200"@, "--pretty=format:%h|%s|%ad|%an"@, "--date=short"@]);
    a
}

/// The arguments that ask git for the branch HEAD names.
pub fn branch_args() -> (r: Vec<&'static str>)
    ensures
        args_v(r@) == seq!["symbolic-ref"@, "--short"@, "HEAD"@],
{
    let a = vec!["symbolic-ref", "--short", "HEAD"];
    assert(args_v(a@) =~= seq!["symbolic-ref"@, "--short"@, "HEAD"@]);
    a
}

/// The branch an answer gives: the trimmed output when git answered (see
/// `branch_of_output`), none when it failed.
pub open spec fn branch_answer(answer: Option<Seq<char>>) -> Option<Seq<char>> {
    match answer {
        Some(out) => branch_of_output(out),
        None => None,
    }
}

/// The current branch from git's answer to `branch_args`: the trimmed
/// output, none when it is blank or git failed.
pub fn branch_from_answer(answer: Result<String, GitError>) -> (r: Option<String>)
    ensures
        opt_view(r) == match answer {
            Ok(out) => branch_of_output(out@),
            Err(_) => None,
        },
{
    match answer {
        Ok(out) => {
            let name = trim_string(out.as_str());
            if name.as_str().is_empty() {
                None
            } else {
                Some(name)
            }
        },
        Err(_) => None,
    }
}

/// The non-blank lines of a listing.
pub fn listed_paths(listing: &str) -> (r: Vec<String>)
    ensures
        strings_view(r@) == nonblank_lines(lines_of(listing@)),
{
    let lines = split_lines(listing);
    let ghost ls = lines_of(listing@);
    let mut out: Vec<String> = Vec::new();
    let mut i: usize = 0;
    assert(ls.skip(0) =~= ls);
    assert(strings_view(out@) =~= Seq::<Seq<char>>::empty());
    while i < lines.len()
        invariant
            strings_view(lines@) == ls,
            ls == lines_of(listing@),
            i <= lines.len(),
            nonblank_lines(ls) == strings_view(out@) + nonblank_lines(ls.skip(i as int)),
        decreases lines.len() - i,
    {
        assert(ls.skip(i as int).drop_first() =~= ls.skip(i + 1));
        assert(ls.skip(i as int)[0] == lines@[i as int]@);
        if !is_blank(lines[i].as_str()) {
            let ghost before = strings_view(out@);
            out.push(lines[i].clone());
            assert(strings_view(out@) =~= before.push(lines@[i as int]@));
            assert(before + (seq![ls[i as int]] + nonblank_lines(ls.skip(i + 1))) =~= strings_view(out@) + nonblank_lines(
                ls.skip(i + 1),
            ));
        }
        i += 1;
    }
    assert(ls.skip(lines.len() as int) =~= Seq::<Seq<char>>::empty());
    assert(strings_view(out@) + Seq::<Seq<char>>::empty() =~= strings_view(out@));
    out
}

/// The added-line count of an untracked file: the non-empty lines of what
/// was read, 0 when nothing could be read.
pub open spec fn lines_added(content: Option<Seq<u8>>) -> nat {
    match content {
        Some(b) => segments_before(b, b.len() as int),
        None => 0,
    }
}

/// The bytes read of each file, as values.
pub open spec fn reads_v(reads: Seq<Option<Vec<u8>>>) -> Seq<Option<Seq<u8>>> {
    reads.map_values(|c: Option<Vec<u8>>| match c {
        Some(b) => Some(b@),
        None => None,
    })
}

/// The untracked files of the listed paths, with what was read of each.
pub open spec fn untracked_spec(paths: Seq<Seq<char>>, reads: Seq<Option<Seq<u8>>>) -> Seq<FileV> {
    Seq::new(paths.len(), |i: int| (Status::Untracked, paths[i], None::<Seq<char>>, lines_added(reads[i]) as u64, 0u64, false))
}

/// The untracked files from their paths and the contents read of each
/// (`reads[i]` for `paths[i]`).
pub fn untracked_from(paths: &Vec<String>, reads: &Vec<Option<Vec<u8>>>) -> (r: Vec<ChangedFile>)
    requires
        reads.len() == paths.len(),
    ensures
        files_v(r@) == untracked_spec(strings_view(paths@), reads_v(reads@)),
{
    let mut files: Vec<ChangedFile> = Vec::new();
    let mut i: usize = 0;
    while i < paths.len()
        invariant
            reads.len() == paths.len(),
            i <= paths.len(),
            files_v(files@) == untracked_spec(strings_view(paths@), reads_v(reads@)).take(i as int),
        decreases paths.len() - i,
    {
        let added: u64 = match &reads[i] {
            Some(c) => count_lines(c.as_slice()) as u64,
            None => 0,
        };
        let f = ChangedFile {
            status: Status::Untracked,
            path: paths[i].clone(),
            old_path: None,
            added,
            deleted: 0,
            is_binary: false,
        };
        proof {
            assert(reads_v(reads@)[i as int] == match reads@[i as int] {
                Some(b) => Some(b@),
                None => None::<Seq<u8>>,
            });
            assert(file_v(f) == untracked_spec(strings_view(paths@), reads_v(reads@))[i as int]);
            assert(files_v(files@.push(f)) =~= files_v(files@).push(file_v(f)));
            assert(untracked_spec(strings_view(paths@), reads_v(reads@)).take(i + 1) =~= untracked_spec(
                strings_view(paths@),
                reads_v(reads@),
            ).take(i as int).push(untracked_spec(strings_view(paths@), reads_v(reads@))[i as int]));
        }
        files.push(f);
        i += 1;
    }
    assert(untracked_spec(strings_view(paths@), reads_v(reads@)).take(paths.len() as int) =~= untracked_spec(
        strings_view(paths@),
        reads_v(reads@),
    ));
    files
}

/// The revision `git show` reads a side at: none for the working tree, the
/// empty revision (the index) for the index.
pub open spec fn side_rev(side: SideRef) -> Option<Seq<char>> {
    match side {
        SideRef::Worktree => None,
        SideRef::Index => Some(Seq::empty()),
        SideRef::Head => Some("HEAD"@),
        SideRef::Commit(c) => Some(c@),
    }
}

/// The revision `git show` reads a side at.
pub fn show_rev(side: &SideRef) -> (r: Option<String>)
    ensures
        opt_view(r) == side_rev(*side),
{
    proof {
        reveal_strlit("HEAD");
        reveal_strlit("");
    }
    match side {
        SideRef::Worktree => None,
        SideRef::Index => Some(String::new()),
        SideRef::Head => Some("HEAD".to_owned()),
        SideRef::Commit(c) => Some(c.clone()),
    }
}

/// The argument of `git show` for a file at a revision: `<rev>:<path>`.
pub fn show_arg(rev: &str, path: &str) -> (r: String)
    ensures
        r@ == rev@ + seq![':'] + path@,
{
    let mut arg = rev.to_owned();
    push_char(&mut arg, ':');
    push_str(&mut arg, path);
    arg
}

/// The path a file's original side is read at: its old path when renamed.
pub open spec fn origin_path(file: ChangedFile) -> Seq<char> {
    match file.old_path {
        Some(p) => p@,
        None => file.path@,
    }
}

/// Which side and path each side of a file is read from: the pair's
/// original side at the origin path, unless the file is added or
/// untracked; the pair's changed side at the path, unless it is deleted.
pub open spec fn side_reads(pair: SidePair, file: ChangedFile) -> (Option<(SideRef, Seq<char>)>, Option<(SideRef, Seq<char>)>) {
    (
        if file.status == Status::Added || file.status == Status::Untracked {
            None
        } else {
            Some((pair.original, origin_path(file)))
        },
        if file.status == Status::Deleted {
            None
        } else {
            Some((pair.changed, file.path@))
        },
    )
}

/// The bytes of an optional side.
pub open spec fn side_bytes(c: Option<Vec<u8>>) -> Option<Seq<u8>> {
    match c {
        Some(v) => Some(v@),
        None => None,
    }
}

/// What making the read `read` can give: nothing when no read is made; when
/// a revision is read, nothing or text (git's answer); from the working
/// tree, nothing or any bytes.
pub open spec fn read_fits(read: Option<(SideRef, Seq<char>)>, got: Option<Seq<u8>>) -> bool {
    match read {
        None => got is None,
        Some((side, _)) => !(side is Worktree) ==> (got matches Some(b) ==> text_bytes(b)),
    }
}

/// The sides `s` are what reading `file` as `side_reads(pair, file)` gives.
pub open spec fn sides_fit(pair: SidePair, file: ChangedFile, s: FileSides) -> bool {
    &&& read_fits(side_reads(pair, file).0, side_bytes(s.original))
    &&& read_fits(side_reads(pair, file).1, side_bytes(s.changed))
}

/// The pair of `mode` (see `SidePair::for_mode`), with the commit `commit`
/// on the original side in mode D when one is chosen.
pub open spec fn mode_pair(pair: SidePair, mode: ComparisonMode, commit: Option<Seq<char>>) -> bool {
    match mode {
        ComparisonMode::WorkingVsHead => pair.original == SideRef::Head && pair.changed == SideRef::Worktree,
        ComparisonMode::StagedVsHead => pair.original == SideRef::Head && pair.changed == SideRef::Index,
        ComparisonMode::StagedVsWorking => pair.original == SideRef::Index && pair.changed == SideRef::Worktree,
        ComparisonMode::CommitVsHead => {
            &&& pair.changed == SideRef::Head
            &&& pair.original matches SideRef::Commit(c)
            &&& commit matches Some(k) ==> c@ == k
        },
    }
}

/// A read as values.
pub open spec fn read_v(r: Option<(SideRef, String)>) -> Option<(SideRef, Seq<char>)> {
    match r {
        Some((s, p)) => Some((s, p@)),
        None => None,
    }
}

/// An equal copy of a side.
pub fn copy_side(s: &SideRef) -> (r: SideRef)
    ensures
        r == *s,
{
    match s {
        SideRef::Worktree => SideRef::Worktree,
        SideRef::Index => SideRef::Index,
        SideRef::Head => SideRef::Head,
        SideRef::Commit(c) => SideRef::Commit(c.clone()),
    }
}

/// Which side and path each side of a file is read from (see `side_reads`).
pub fn sides_to_read(pair: &SidePair, file: &ChangedFile) -> (r: (Option<(SideRef, String)>, Option<(SideRef, String)>))
    ensures
        read_v(r.0) == side_reads(*pair, *file).0,
        read_v(r.1) == side_reads(*pair, *file).1,
{
    let origin = match &file.old_path {
        Some(p) => p.clone(),
        None => file.path.clone(),
    };
    let original = if file.status == Status::Added || file.status == Status::Untracked {
        None
    } else {
        Some((copy_side(&pair.original), origin))
    };
    let changed = if file.status == Status::Deleted {
        None
    } else {
        Some((copy_side(&pair.changed), file.path.clone()))
    };
    (original, changed)
}

impl<'a> GitFacade<'a> {
    /// The repository root the facade was made with.
    pub closed spec fn root_path(&self) -> std::path::PathBuf {
        self.root
    }

    /// A facade over `runner` for the repository at `root`.
    pub fn new(runner: &'a dyn GitRunner, root: &std::path::PathBuf) -> (r: Self)
        ensures
            r.root_path() == *root,
    {
        Self { runner, root: clone_path(root) }
    }

    /// The repository root.
    pub fn root(&self) -> (r: &std::path::PathBuf)
        ensures
            *r == self.root_path(),
    {
        &self.root
    }

    fn run(&self, args: &[&str]) -> (r: Result<String, GitError>)
        requires
            reading_command(args_v(args@)),
        ensures
            r matches Err(e) ==> e is Run,
    {
        match self.runner.run(args) {
            Ok(out) => Ok(out),
            Err(e) => Err(GitError::Run(error_text(&e))),
        }
    }

    fn changed_files_with(&self, numstat_args: &[&str], status_args: &[&str]) -> (r: Result<Vec<ChangedFile>, GitError>)
        requires
            reading_command(args_v(numstat_args@)),
            reading_command(args_v(status_args@)),
        ensures
            r matches Err(e) ==> (e is Run || e is Parse),
            r matches Ok(x) ==> exists|a: Seq<char>, b: Seq<char>| files_from_outputs_spec(a, b) == Ok::<Seq<FileV>, Seq<char>>(files_v(x@)),
    {
        match self.run(numstat_args) {
            Err(e) => Err(e),
            Ok(numstat) => {
                let statuses = self.run(status_args);
                let ghost sv = statuses;
                let r = files_from_answers(Ok(numstat), statuses);
                proof {
                    if let Ok(st) = sv {
                        if r is Ok {
                            assert(files_from_outputs_spec(numstat@, st@) == Ok::<Seq<FileV>, Seq<char>>(files_v(r->Ok_0@)));
                        }
                    }
                }
                r
            },
        }
    }

    /// The changed files of mode A, B or C, from `git diff --numstat` and
    /// `git diff --name-status` with the mode's arguments (see `mode_args`
    /// and `files_from_answers`). Mode D is refused: it needs
    /// `changed_files_between`.
    pub fn changed_files(&self, mode: ComparisonMode) -> (r: Result<Vec<ChangedFile>, GitError>)
        ensures
            mode == ComparisonMode::CommitVsHead ==> (r matches Err(e) && e is Mode),
            r matches Err(e) ==> (e is Mode <==> mode == ComparisonMode::CommitVsHead),
            r matches Err(e) ==> (e is Run || e is Parse || e is Mode),
            r matches Ok(x) ==> exists|a: Seq<char>, b: Seq<char>| files_from_outputs_spec(a, b) == Ok::<Seq<FileV>, Seq<char>>(files_v(x@)),
    {
        match changed_files_args(mode) {
            Some((a, b)) => self.changed_files_with(a.as_slice(), b.as_slice()),
            None => Err(GitError::Mode(literal_string("changed_files does not accept CommitVsHead; use changed_files_between"))),
        }
    }

    /// The untracked files: the paths that `git ls-files --others
    /// --exclude-standard` lists (see `untracked_args`), each read from the
    /// working tree and counted as all added (see `untracked_from`).
    pub fn untracked_files(&self) -> (r: Result<Vec<ChangedFile>, GitError>)
        ensures
            r matches Err(e) ==> e is Run,
            r matches Ok(x) ==> exists|out: Seq<char>, reads: Seq<Option<Seq<u8>>>| files_v(x@) == untracked_spec(
                nonblank_lines(lines_of(out)),
                reads,
            ),
    {
        let args = untracked_args();
        let listing = self.run(args.as_slice())?;
        let paths = listed_paths(listing.as_str());
        let mut reads: Vec<Option<Vec<u8>>> = Vec::new();
        let mut i: usize = 0;
        while i < paths.len()
            invariant
                i <= paths.len(),
                reads.len() == i,
            decreases paths.len() - i,
        {
            reads.push(self.runner.read_worktree(paths[i].as_str()));
            i += 1;
        }
        let files = untracked_from(&paths, &reads);
        assert(files_v(files@) == untracked_spec(nonblank_lines(lines_of(listing@)), reads_v(reads@)));
        Ok(files)
    }

    /// The files changed between `commit` and HEAD (mode D), from the two
    /// listings of `between_args` (see `files_from_answers`).
    pub fn changed_files_between(&self, commit: &str) -> (r: Result<Vec<ChangedFile>, GitError>)
        ensures
            r matches Err(e) ==> (e is Run || e is Parse),
            r matches Ok(x) ==> exists|a: Seq<char>, b: Seq<char>| files_from_outputs_spec(a, b) == Ok::<Seq<FileV>, Seq<char>>(files_v(x@)),
    {
        let (numstat_args, status_args) = between_args(commit);
        self.changed_files_with(numstat_args.as_slice(), status_args.as_slice())
    }

    /// The last 200 commits, newest first: the log of `log_args`, parsed
    /// by `parse_log`.
    pub fn commits(&self) -> (r: Result<Vec<CommitEntry>, GitError>)
        ensures
            r matches Err(e) ==> e is Run,
            r matches Ok(x) ==> exists|out: Seq<char>| x@.map_values(|c: CommitEntry| commit_v(c)) == lines_of(out).map_values(
                |l: Seq<char>| log_line(l),
            ),
    {
        let args = log_args();
        let out = self.run(args.as_slice())?;
        parse_log(out.as_str())
    }

    /// The current branch name (e.g. `main`) from the answer to
    /// `branch_args` (see `branch_from_answer`): `None` on a detached HEAD or
    /// when git fails.
    pub fn current_branch(&self) -> (r: Result<Option<String>, GitError>)
        ensures
            r matches Ok(b) && exists|answer: Option<Seq<char>>| opt_view(b) == #[trigger] branch_answer(answer),
    {
        let args = branch_args();
        let answer = self.run(args.as_slice());
        let ghost g = answer;
        let ghost a = match g {
            Ok(out) => Some(out@),
            Err(_) => None::<Seq<char>>,
        };
        let b = branch_from_answer(answer);
        assert(opt_view(b) == branch_answer(a));
        Ok(b)
    }

    /// `git show <rev>:<path>` (see `show_arg`): the bytes of git's output,
    /// `None` when git fails.
    fn fetch_ref(&self, rev: &str, path: &str) -> (r: Option<Vec<u8>>)
        ensures
            r matches Some(b) ==> text_bytes(b@),
    {
        let arg = show_arg(rev, path);
        assert(arg@[rev@.len() as int] == ':');
        let args = ["show", arg.as_str()];
        assert(args_v(args@)[1].contains(':'));
        match self.run(&args) {
            Ok(out) => {
                let b = vstd::slice::slice_to_vec(out.as_str().as_bytes());
                assert(vstd::utf8::encode_utf8(out@) == b@);
                Some(b)
            },
            Err(_) => None,
        }
    }

    /// The contents of a file on one side: read from the working tree, or
    /// shown by git at the side's revision (see `show_rev`).
    fn fetch_side(&self, side: &SideRef, path: &str) -> (r: Option<Vec<u8>>)
        ensures
            !(side is Worktree) ==> (r matches Some(b) ==> text_bytes(b@)),
    {
        match show_rev(side) {
            None => self.runner.read_worktree(path),
            Some(rev) => self.fetch_ref(rev.as_str(), path),
        }
    }

    /// Reads the sides `sides_to_read` gives.
    fn fetch_sides(&self, pair: &SidePair, file: &ChangedFile) -> (r: FileSides)
        ensures
            side_reads(*pair, *file).0 is None ==> r.original is None,
            side_reads(*pair, *file).1 is None ==> r.changed is None,
            !(pair.original is Worktree) ==> (r.original matches Some(b) ==> text_bytes(b@)),
            !(pair.changed is Worktree) ==> (r.changed matches Some(b) ==> text_bytes(b@)),
            sides_fit(*pair, *file, r),
    {
        let (o, c) = sides_to_read(pair, file);
        let original = match o {
            Some((side, p)) => self.fetch_side(&side, p.as_str()),
            None => None,
        };
        let changed = match c {
            Some((side, p)) => self.fetch_side(&side, p.as_str()),
            None => None,
        };
        FileSides { original, changed }
    }

    /// The two sides of a file in mode A, B or C, read as `sides_to_read`
    /// gives for the mode's pair (`SidePair::for_mode`): nothing on the
    /// original side of an added or untracked file, nothing on the changed
    /// side of a deleted one; the original side is read at the old path of a
    /// rename. Mode D is refused: it needs `file_sides_between`.
    pub fn file_sides(&self, mode: ComparisonMode, file: &ChangedFile) -> (r: Result<FileSides, GitError>)
        ensures
            mode == ComparisonMode::CommitVsHead <==> (r matches Err(e) && e is Mode),
            mode != ComparisonMode::CommitVsHead <==> r is Ok,
            r matches Ok(s) ==> ((file.status == Status::Added || file.status == Status::Untracked) ==> s.original is None),
            r matches Ok(s) ==> (file.status == Status::Deleted ==> s.changed is None),
            r matches Ok(s) ==> (s.original matches Some(b) ==> text_bytes(b@)),
            r matches Ok(s) ==> exists|pair: SidePair| #[trigger] mode_pair(pair, mode, None) && sides_fit(pair, *file, s),
    {
        if mode == ComparisonMode::CommitVsHead {
            return Err(GitError::Mode(literal_string("use file_sides_between")));
        }
        let pair = SidePair::for_mode(mode, None);
        let r = self.fetch_sides(&pair, file);
        assert(mode_pair(pair, mode, None));
        Ok(r)
    }

    /// The two sides of a file in mode D, read as `sides_to_read` gives for
    /// the pair of `commit` (original) and HEAD (changed), with the same
    /// rules for added, untracked, deleted and renamed files as `file_sides`.
    pub fn file_sides_between(&self, commit: &str, file: &ChangedFile) -> (r: Result<FileSides, GitError>)
        ensures
            r matches Ok(s) && ((file.status == Status::Added || file.status == Status::Untracked) ==> s.original is None)
                && (file.status == Status::Deleted ==> s.changed is None),
            r matches Ok(s) ==> (s.original matches Some(b) ==> text_bytes(b@)) && (s.changed matches Some(b) ==> text_bytes(b@)),
            r matches Ok(s) ==> exists|pair: SidePair| #[trigger] mode_pair(pair, ComparisonMode::CommitVsHead, Some(commit@))
                && sides_fit(pair, *file, s),
    {
        let pair = SidePair { original: SideRef::Commit(commit.to_owned()), changed: SideRef::Head };
        let r = self.fetch_sides(&pair, file);
        assert(mode_pair(pair, ComparisonMode::CommitVsHead, Some(commit@)));
        Ok(r)
    }
}

} // verus!
