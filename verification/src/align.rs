//! Side-by-side alignment of two versions of a file: line splitting, tab
//! expansion, the rows built from a line diff, hunks and foldable runs.
use vstd::prelude::*;
use crate::text::{push_char, chars_of, string_of_range};

verus! {

/// Tab stop used when expanding tabs in displayed diff lines, so that the
/// width measured for a line matches what a terminal renders.
pub const TAB_STOP: usize = 8;

// ------------------------------------------------------------ outside calls

/// What `String::from_utf8_lossy` makes of a byte sequence.
pub uninterp spec fn lossy_decode(bytes: Seq<u8>) -> Seq<char>;

/// `String::from_utf8_lossy`: the bytes decoded as UTF-8, invalid sequences
/// replaced. The result is a function of the bytes alone, named
/// `lossy_decode`; the replacement of invalid sequences is not restated
/// here. Valid UTF-8 is decoded as it is (std documents that such bytes are
/// returned unchanged, as a `str`).
#[verifier::external_body]
fn utf8_lossy(bytes: &[u8]) -> (s: String)
    ensures
        s@ == lossy_decode(bytes@),
        vstd::utf8::valid_utf8(bytes@) ==> s@ == vstd::utf8::decode_utf8(bytes@),
{
    String::from_utf8_lossy(bytes).into_owned()
}

/// The display width that `unicode_width` gives to the one-character string
/// holding `c`.
pub uninterp spec fn char_width(c: char) -> usize;

/// `UnicodeWidthStr::width` of the string made of `c` alone. Named by
/// `char_width`, which is the width `str_width` gives that one-character
/// string; the width tables are not restated.
#[verifier::external_body]
pub(crate) fn char_str_width(c: char) -> (w: usize)
    ensures
        w == char_width(c),
        w == crate::view::str_width(seq![c]),
{
    unicode_width::UnicodeWidthStr::width(c.to_string().as_str())
}

// ------------------------------------------------------------ tab expansion

/// `n` spaces.
pub open spec fn spaces(n: nat) -> Seq<char> {
    Seq::new(n, |_i: int| ' ')
}

/// The text of `s` with each tab replaced by spaces up to the next tab stop,
/// when `s` starts at display column `col`.
pub open spec fn expand_from(s: Seq<char>, col: int) -> Seq<char>
    decreases s.len(),
{
    if s.len() == 0 {
        seq![]
    } else if s[0] == '\t' {
        let pad = TAB_STOP as int - col % (TAB_STOP as int);
        spaces(pad as nat) + expand_from(s.drop_first(), col + pad)
    } else {
        seq![s[0]] + expand_from(s.drop_first(), col + char_width(s[0]))
    }
}

/// A line with its tabs expanded, starting at column 0.
pub open spec fn expand_tabs_spec(line: Seq<char>) -> Seq<char> {
    expand_from(line, 0)
}

/// Appends `n` spaces.
pub fn push_spaces(s: &mut String, n: usize)
    ensures
        final(s)@ == old(s)@ + spaces(n as nat),
{
    let mut i: usize = 0;
    while i < n
        invariant
            i <= n,
            s@ == old(s)@ + spaces(i as nat),
        decreases n - i,
    {
        push_char(s, ' ');
        assert(spaces((i + 1) as nat) =~= spaces(i as nat).push(' '));
        i += 1;
    }
}

proof fn lemma_expand_step(s: Seq<char>, i: int, col: int)
    requires
        0 <= i < s.len(),
    ensures
        expand_from(s.skip(i), col) == (if s[i] == '\t' {
            spaces((TAB_STOP as int - col % (TAB_STOP as int)) as nat)
                + expand_from(s.skip(i + 1), col + (TAB_STOP as int - col % (TAB_STOP as int)))
        } else {
            seq![s[i]] + expand_from(s.skip(i + 1), col + char_width(s[i]))
        }),
{
    assert(s.skip(i).drop_first() =~= s.skip(i + 1));
    assert(s.skip(i)[0] == s[i]);
}

/// Replaces every tab with spaces up to the next `TAB_STOP`-column tab stop,
/// so the display width of a line matches what a terminal renders. Other
/// characters advance the column by their display width.
pub fn expand_tabs(line: &str) -> (r: String)
    ensures
        r@ == expand_tabs_spec(line@),
{
    let cs = chars_of(line);
    let mut out = String::new();
    let mut col8: usize = 0;
    let ghost mut col: int = 0;
    let mut i: usize = 0;
    assert(cs@.skip(0) =~= cs@);
    while i < cs.len()
        invariant
            cs@ == line@,
            i <= cs.len(),
            col >= 0,
            col8 < TAB_STOP,
            col8 == col % (TAB_STOP as int),
            out@ + expand_from(cs@.skip(i as int), col) == expand_from(line@, 0),
        decreases cs.len() - i,
    {
        let c = cs[i];
        proof {
            lemma_expand_step(cs@, i as int, col);
        }
        if c == '\t' {
            let pad = TAB_STOP - col8;
            push_spaces(&mut out, pad);
            proof {
                let p = TAB_STOP as int - col % (TAB_STOP as int);
                assert((col + p) % (TAB_STOP as int) == 0) by {
                    vstd::arithmetic::div_mod::lemma_fundamental_div_mod(col, TAB_STOP as int);
                    vstd::arithmetic::div_mod::lemma_mod_multiples_basic(col / (TAB_STOP as int) + 1, TAB_STOP as int);
                }
                col = col + p;
            }
            col8 = 0;
        } else {
            push_char(&mut out, c);
            let w = char_str_width(c);
            proof {
                vstd::arithmetic::div_mod::lemma_add_mod_noop(col, w as int, TAB_STOP as int);
                vstd::arithmetic::div_mod::lemma_mod_twice(col, TAB_STOP as int);
                col = col + w;
            }
            col8 = (col8 + w % TAB_STOP) % TAB_STOP;
        }
        assert(out@ + expand_from(cs@.skip(i + 1), col) == expand_from(line@, 0));
        i += 1;
    }
    assert(cs@.skip(cs.len() as int) =~= Seq::<char>::empty());
    assert(out@ + Seq::<char>::empty() =~= out@);
    out
}


// ------------------------------------------------------------ lines

/// A line's text without the carriage return of a `\r\n` ending.
pub open spec fn strip_cr(l: Seq<char>) -> Seq<char> {
    if l.len() > 0 && l.last() == '\r' {
        l.drop_last()
    } else {
        l
    }
}

/// The lines of `s` when the current, unfinished line holds `cur`.
pub open spec fn lines_acc(s: Seq<char>, cur: Seq<char>) -> Seq<Seq<char>>
    decreases s.len(),
{
    if s.len() == 0 {
        if cur.len() == 0 {
            seq![]
        } else {
            seq![cur]
        }
    } else if s[0] == '\n' {
        seq![strip_cr(cur)] + lines_acc(s.drop_first(), seq![])
    } else {
        lines_acc(s.drop_first(), cur.push(s[0]))
    }
}

/// The lines of a text as `str::lines` gives them: split at `\n` (a `\r`
/// before it is dropped), with no empty last line after a final line ending.
pub open spec fn lines_of(s: Seq<char>) -> Seq<Seq<char>> {
    lines_acc(s, seq![])
}

/// The views of a sequence of strings.
pub open spec fn strings_view(v: Seq<String>) -> Seq<Seq<char>> {
    v.map_values(|x: String| x@)
}

proof fn lemma_lines_step(s: Seq<char>, i: int, cur: Seq<char>)
    requires
        0 <= i < s.len(),
    ensures
        lines_acc(s.skip(i), cur) == (if s[i] == '\n' {
            seq![strip_cr(cur)] + lines_acc(s.skip(i + 1), seq![])
        } else {
            lines_acc(s.skip(i + 1), cur.push(s[i]))
        }),
{
    assert(s.skip(i).drop_first() =~= s.skip(i + 1));
    assert(s.skip(i)[0] == s[i]);
}

/// Splits a text into lines like `str::lines`.
pub fn split_lines(text: &str) -> (r: Vec<String>)
    ensures
        strings_view(r@) == lines_of(text@),
{
    let cs = chars_of(text);
    let mut out: Vec<String> = Vec::new();
    let mut start: usize = 0;
    let mut i: usize = 0;
    assert(cs@.skip(0) =~= cs@);
    assert(cs@.subrange(0, 0) =~= Seq::<char>::empty());
    while i < cs.len()
        invariant
            cs@ == text@,
            start <= i <= cs.len(),
            strings_view(out@) + lines_acc(cs@.skip(i as int), cs@.subrange(start as int, i as int))
                == lines_of(text@),
        decreases cs.len() - i,
    {
        proof {
            lemma_lines_step(cs@, i as int, cs@.subrange(start as int, i as int));
        }
        if cs[i] == '\n' {
            let mut end = i;
            if i > start && cs[i - 1] == '\r' {
                end = i - 1;
            }
            let line = string_of_range(&cs, start, end);
            proof {
                assert(line@ == strip_cr(cs@.subrange(start as int, i as int)));
                assert(strings_view(out@.push(line)) =~= strings_view(out@).push(line@));
                assert(cs@.subrange((i + 1) as int, (i + 1) as int) =~= Seq::<char>::empty());
            }
            out.push(line);
            start = i + 1;
        } else {
            assert(cs@.subrange(start as int, i as int).push(cs@[i as int]) =~= cs@.subrange(start as int, i + 1));
        }
        i += 1;
    }
    assert(cs@.skip(cs.len() as int) =~= Seq::<char>::empty());
    if start < cs.len() {
        let line = string_of_range(&cs, start, cs.len());
        assert(strings_view(out@.push(line)) =~= strings_view(out@).push(line@));
        out.push(line);
    } else {
        assert(strings_view(out@) + Seq::<Seq<char>>::empty() =~= strings_view(out@));
    }
    out
}

/// The lines of a text as `similar` splits it for a line diff, when the
/// current, unfinished line holds `cur`: a line ends at `\n`, at `\r\n` or
/// at a lone `\r`, the ending not kept; a last line without an ending is
/// kept when it is not empty.
pub open spec fn text_lines_acc(s: Seq<char>, cur: Seq<char>) -> Seq<Seq<char>>
    decreases s.len(),
{
    if s.len() == 0 {
        if cur.len() > 0 {
            seq![cur]
        } else {
            seq![]
        }
    } else if s[0] == '\n' {
        seq![cur] + text_lines_acc(s.drop_first(), seq![])
    } else if s[0] == '\r' {
        if s.len() > 1 && s[1] == '\n' {
            seq![cur] + text_lines_acc(s.skip(2), seq![])
        } else {
            seq![cur] + text_lines_acc(s.drop_first(), seq![])
        }
    } else {
        text_lines_acc(s.drop_first(), cur.push(s[0]))
    }
}

/// The lines of a text as `similar`'s line diff counts them (see
/// `text_lines_acc`).
pub open spec fn text_lines(s: Seq<char>) -> Seq<Seq<char>> {
    text_lines_acc(s, seq![])
}

/// Whether a text holds no line ending character.
pub open spec fn no_break(l: Seq<char>) -> bool {
    forall|i: int| 0 <= i < l.len() ==> l[i] != '\n' && l[i] != '\r'
}

/// A line without its trailing spaces and tabs.
pub open spec fn trim_end_ws(l: Seq<char>) -> Seq<char>
    decreases l.len(),
{
    if l.len() > 0 && (l.last() == ' ' || l.last() == '\t') {
        trim_end_ws(l.drop_last())
    } else {
        l
    }
}

/// Lines, each followed by `\n`.
pub open spec fn end_lines(ls: Seq<Seq<char>>) -> Seq<char>
    decreases ls.len(),
{
    if ls.len() == 0 {
        seq![]
    } else {
        ls[0] + seq!['\n'] + end_lines(ls.drop_first())
    }
}

proof fn lemma_end_lines_push(ls: Seq<Seq<char>>, x: Seq<char>)
    ensures
        end_lines(ls.push(x)) == end_lines(ls) + x + seq!['\n'],
    decreases ls.len(),
{
    if ls.len() == 0 {
        assert(ls.push(x).drop_first() =~= Seq::<Seq<char>>::empty());
        assert(ls.push(x)[0] == x);
        assert(end_lines(Seq::<Seq<char>>::empty()) == Seq::<char>::empty());
        assert(end_lines(ls.push(x)) =~= end_lines(ls) + x + seq!['\n']);
    } else {
        assert(ls.push(x).drop_first() =~= ls.drop_first().push(x));
        lemma_end_lines_push(ls.drop_first(), x);
        assert(end_lines(ls.push(x)) =~= end_lines(ls) + x + seq!['\n']);
    }
}

/// Appends `l` without its trailing spaces and tabs.
fn push_trimmed(out: &mut String, l: &str)
    ensures
        final(out)@ == old(out)@ + trim_end_ws(l@),
{
    let cs = chars_of(l);
    let mut j = cs.len();
    assert(cs@.take(j as int) =~= cs@);
    while j > 0 && (cs[j - 1] == ' ' || cs[j - 1] == '\t')
        invariant
            cs@ == l@,
            j <= cs.len(),
            trim_end_ws(cs@.take(j as int)) == trim_end_ws(l@),
        decreases j,
    {
        assert(cs@.take(j as int).drop_last() =~= cs@.take(j - 1));
        j -= 1;
    }
    assert(trim_end_ws(cs@.take(j as int)) == cs@.take(j as int));
    crate::text::push_chars(out, &cs, 0, j);
    assert(cs@.subrange(0, j as int) =~= cs@.take(j as int));
}

/// The text that is diffed when trailing whitespace is ignored: each of the
/// text's lines (see `lines_of`) without its trailing spaces and tabs, and
/// followed by `\n`.
pub open spec fn trim_end_all_spec(text: Seq<char>) -> Seq<char> {
    end_lines(lines_of(text).map_values(|l: Seq<char>| trim_end_ws(l)))
}

proof fn lemma_trim_prefix(l: Seq<char>)
    ensures
        trim_end_ws(l).len() <= l.len(),
        trim_end_ws(l) == l.take(trim_end_ws(l).len() as int),
    decreases l.len(),
{
    if l.len() > 0 && (l.last() == ' ' || l.last() == '\t') {
        lemma_trim_prefix(l.drop_last());
        assert(l.drop_last().take(trim_end_ws(l).len() as int) =~= l.take(trim_end_ws(l).len() as int));
    } else {
        assert(l.take(l.len() as int) =~= l);
    }
}

proof fn lemma_acc_plain(l: Seq<char>, rest: Seq<char>, cur: Seq<char>)
    requires
        no_break(l),
    ensures
        text_lines_acc(l + rest, cur) == text_lines_acc(rest, cur + l),
    decreases l.len(),
{
    if l.len() == 0 {
        assert(l + rest =~= rest);
        assert(cur + l =~= cur);
    } else {
        assert((l + rest)[0] == l[0]);
        assert((l + rest).drop_first() =~= l.drop_first() + rest);
        lemma_acc_plain(l.drop_first(), rest, cur.push(l[0]));
        assert(cur.push(l[0]) + l.drop_first() =~= cur + l);
    }
}

/// Whether a text holds no `\n`.
pub open spec fn no_nl(l: Seq<char>) -> bool {
    forall|i: int| 0 <= i < l.len() ==> l[i] != '\n'
}

/// Whether every `\r` of a text is followed by `\n`.
pub open spec fn no_lone_cr(s: Seq<char>) -> bool {
    forall|i: int| 0 <= i < s.len() && #[trigger] s[i] == '\r' ==> i + 1 < s.len() && s[i + 1] == '\n'
}

proof fn lemma_end_lines_split(ls: Seq<Seq<char>>)
    requires
        forall|j: int| 0 <= j < ls.len() ==> no_break(#[trigger] ls[j]),
    ensures
        text_lines(end_lines(ls)) == ls,
    decreases ls.len(),
{
    if ls.len() == 0 {
    } else {
        let e = end_lines(ls.drop_first());
        assert(end_lines(ls) =~= ls[0] + (seq!['\n'] + e));
        lemma_acc_plain(ls[0], seq!['\n'] + e, seq![]);
        assert(Seq::<char>::empty() + ls[0] =~= ls[0]);
        assert((seq!['\n'] + e)[0] == '\n');
        assert((seq!['\n'] + e).drop_first() =~= e);
        lemma_end_lines_split(ls.drop_first());
        assert(seq![ls[0]] + ls.drop_first() =~= ls);
    }
}

proof fn lemma_lines_plain(l: Seq<char>, rest: Seq<char>, cur: Seq<char>)
    requires
        no_nl(l),
    ensures
        lines_acc(l + rest, cur) == lines_acc(rest, cur + l),
    decreases l.len(),
{
    if l.len() == 0 {
        assert(l + rest =~= rest);
        assert(cur + l =~= cur);
    } else {
        assert((l + rest)[0] == l[0]);
        assert((l + rest).drop_first() =~= l.drop_first() + rest);
        lemma_lines_plain(l.drop_first(), rest, cur.push(l[0]));
        assert(cur.push(l[0]) + l.drop_first() =~= cur + l);
    }
}

proof fn lemma_lines_no_nl(s: Seq<char>, cur: Seq<char>)
    requires
        no_nl(cur),
    ensures
        forall|j: int| 0 <= j < lines_acc(s, cur).len() ==> no_nl(#[trigger] lines_acc(s, cur)[j]),
    decreases s.len(),
{
    if s.len() == 0 {
        if cur.len() > 0 {
            assert(lines_acc(s, cur) == seq![cur]);
            assert(seq![cur][0] == cur);
        }
    } else if s[0] == '\n' {
        lemma_lines_no_nl(s.drop_first(), seq![]);
        assert(no_nl(strip_cr(cur))) by {
            if cur.len() > 0 && cur.last() == '\r' {
                assert forall|i: int| 0 <= i < cur.drop_last().len() implies cur.drop_last()[i] != '\n' by {
                    assert(cur.drop_last()[i] == cur[i]);
                }
            }
        }
        let r = lines_acc(s, cur);
        assert(r == seq![strip_cr(cur)] + lines_acc(s.drop_first(), seq![]));
        assert forall|j: int| 0 <= j < r.len() implies no_nl(#[trigger] r[j]) by {
            if j > 0 {
                assert(r[j] == lines_acc(s.drop_first(), seq![])[j - 1]);
            }
        }
    } else {
        assert(no_nl(cur.push(s[0]))) by {
            assert forall|i: int| 0 <= i < cur.push(s[0]).len() implies cur.push(s[0])[i] != '\n' by {
                if i < cur.len() {
                    assert(cur.push(s[0])[i] == cur[i]);
                }
            }
        }
        lemma_lines_no_nl(s.drop_first(), cur.push(s[0]));
        assert(lines_acc(s, cur) == lines_acc(s.drop_first(), cur.push(s[0])));
    }
}

pub(crate) proof fn lemma_end_lines_lines(ls: Seq<Seq<char>>)
    requires
        forall|j: int| 0 <= j < ls.len() ==> no_nl(#[trigger] ls[j]),
    ensures
        lines_of(end_lines(ls)) == ls.map_values(|l: Seq<char>| strip_cr(l)),
    decreases ls.len(),
{
    if ls.len() == 0 {
        assert(ls.map_values(|l: Seq<char>| strip_cr(l)) =~= Seq::<Seq<char>>::empty());
    } else {
        let e = end_lines(ls.drop_first());
        assert(end_lines(ls) =~= ls[0] + (seq!['\n'] + e));
        lemma_lines_plain(ls[0], seq!['\n'] + e, seq![]);
        assert(Seq::<char>::empty() + ls[0] =~= ls[0]);
        assert((seq!['\n'] + e)[0] == '\n');
        assert((seq!['\n'] + e).drop_first() =~= e);
        assert forall|j: int| 0 <= j < ls.drop_first().len() implies no_nl(#[trigger] ls.drop_first()[j]) by {
            assert(ls.drop_first()[j] == ls[j + 1]);
        }
        lemma_end_lines_lines(ls.drop_first());
        assert(seq![strip_cr(ls[0])] + ls.drop_first().map_values(|l: Seq<char>| strip_cr(l)) =~= ls.map_values(
            |l: Seq<char>| strip_cr(l),
        ));
    }
}

/// Ignoring trailing whitespace keeps the lines: the text that is diffed
/// has as many lines as the text, each the text's line without its trailing
/// spaces and tabs (and without a `\r` that trimming leaves at its end).
pub proof fn lemma_trim_keeps_lines(text: Seq<char>)
    ensures
        lines_of(trim_end_all_spec(text)) == lines_of(text).map_values(|l: Seq<char>| strip_cr(trim_end_ws(l))),
        lines_of(trim_end_all_spec(text)).len() == lines_of(text).len(),
{
    let ls = lines_of(text);
    let ts = ls.map_values(|l: Seq<char>| trim_end_ws(l));
    assert(no_nl(Seq::<char>::empty()));
    lemma_lines_no_nl(text, seq![]);
    assert forall|j: int| 0 <= j < ts.len() implies no_nl(#[trigger] ts[j]) by {
        assert(no_nl(ls[j]));
        lemma_trim_prefix(ls[j]);
        assert forall|i: int| 0 <= i < ts[j].len() implies ts[j][i] != '\n' by {
            assert(ts[j][i] == ls[j][i]);
        }
    }
    lemma_end_lines_lines(ts);
    assert(ts.map_values(|l: Seq<char>| strip_cr(l)) =~= ls.map_values(|l: Seq<char>| strip_cr(trim_end_ws(l))));
}

/// Strips trailing whitespace from every line without changing the line
/// count, so diff ops still index into the line arrays shown.
pub fn trim_end_all(text: &str) -> (r: String)
    ensures
        r@ == trim_end_all_spec(text@),
{
    let lines = split_lines(text);
    let ghost ls = lines_of(text@).map_values(|l: Seq<char>| trim_end_ws(l));
    let mut out = String::new();
    let mut i: usize = 0;
    assert(ls.take(0) =~= Seq::<Seq<char>>::empty());
    while i < lines.len()
        invariant
            strings_view(lines@) == lines_of(text@),
            ls == lines_of(text@).map_values(|l: Seq<char>| trim_end_ws(l)),
            i <= lines.len(),
            out@ == end_lines(ls.take(i as int)),
        decreases lines.len() - i,
    {
        assert(lines@[i as int]@ == lines_of(text@)[i as int]);
        push_trimmed(&mut out, lines[i].as_str());
        push_char(&mut out, '\n');
        proof {
            lemma_end_lines_push(ls.take(i as int), ls[i as int]);
            assert(ls.take(i + 1) =~= ls.take(i as int).push(ls[i as int]));
        }
        i += 1;
    }
    assert(ls.take(lines.len() as int) =~= ls);
    out
}

/// The bytes of an optional content as a sequence.
pub open spec fn content_view(c: Option<&[u8]>) -> Option<Seq<u8>> {
    match c {
        Some(b) => Some(b@),
        None => None,
    }
}

/// The text of an optional content: empty when absent, decoded otherwise.
pub open spec fn content_text(c: Option<Seq<u8>>) -> Seq<char> {
    match c {
        Some(b) => lossy_decode(b),
        None => seq![],
    }
}

/// The display lines of an optional content: split into lines, tabs
/// expanded; none when absent.
pub open spec fn content_lines(c: Option<Seq<u8>>) -> Seq<Seq<char>> {
    match c {
        Some(b) => lines_of(lossy_decode(b)).map_values(|l: Seq<char>| expand_tabs_spec(l)),
        None => seq![],
    }
}

/// The text of an optional content.
pub fn to_text(content: Option<&[u8]>) -> (r: String)
    ensures
        r@ == content_text(content_view(content)),
{
    match content {
        None => String::new(),
        Some(bytes) => utf8_lossy(bytes),
    }
}

/// The display lines of an optional content.
pub fn to_lines(content: Option<&[u8]>) -> (r: Vec<String>)
    ensures
        strings_view(r@) == content_lines(content_view(content)),
{
    match content {
        None => {
            let r: Vec<String> = Vec::new();
            assert(strings_view(r@) =~= Seq::<Seq<char>>::empty());
            r
        },
        Some(bytes) => {
            let text = utf8_lossy(bytes);
            let lines = split_lines(text.as_str());
            let ghost target = lines_of(lossy_decode(bytes@)).map_values(|l: Seq<char>| expand_tabs_spec(l));
            let mut out: Vec<String> = Vec::new();
            let mut i: usize = 0;
            while i < lines.len()
                invariant
                    strings_view(lines@) == lines_of(lossy_decode(bytes@)),
                    target == lines_of(lossy_decode(bytes@)).map_values(|l: Seq<char>| expand_tabs_spec(l)),
                    i <= lines.len(),
                    strings_view(out@) == target.take(i as int),
                decreases lines.len() - i,
            {
                assert(lines@[i as int]@ == lines_of(lossy_decode(bytes@))[i as int]);
                let e = expand_tabs(lines[i].as_str());
                proof {
                    assert(strings_view(out@.push(e)) =~= strings_view(out@).push(e@));
                    assert(target.take(i + 1) =~= target.take(i as int).push(target[i as int]));
                }
                out.push(e);
                i += 1;
            }
            assert(target.take(lines.len() as int) =~= target);
            out
        },
    }
}

// ------------------------------------------------------------ rows

/// How a displayed line relates to the other side.
#[derive(Clone, Copy, Debug, PartialEq, Eq, Structural)]
pub enum LineKind {
    Equal,
    Delete,
    Insert,
}

/// One side of one row: its line number, its display text and kind, and, for
/// a changed line paired with its counterpart, the fragments of the line with
/// those that changed within it marked `true`.
#[derive(Clone, Debug, PartialEq, Eq)]
pub struct Cell {
    pub num: u64,
    pub text: String,
    pub kind: LineKind,
    pub inline: Option<Vec<(bool, String)>>,
}

/// One row of the side-by-side view.
#[derive(Clone, Debug, PartialEq, Eq)]
pub struct AlignedRow {
    pub original: Option<Cell>,
    pub changed: Option<Cell>,
}

/// Inline fragments for a changed line: `(emphasized, text)`.
pub type InlineFragments = Vec<(bool, String)>;

/// The kind of a line-level diff op.
#[derive(Clone, Copy, Debug, PartialEq, Eq, Structural)]
pub enum OpTag {
    Equal,
    Delete,
    Insert,
    Replace,
}

/// A line-level diff op: `old[old_start..old_end]` relates to
/// `new[new_start..new_end]` as `tag` says.
#[derive(Clone, Copy, Debug, PartialEq, Eq, Structural)]
pub struct LineOp {
    pub tag: OpTag,
    pub old_start: usize,
    pub old_end: usize,
    pub new_start: usize,
    pub new_end: usize,
}

/// Line `j` of what op `op` relates on each side holds the same text.
pub open spec fn op_pairs_equal(op: LineOp, old: Seq<Seq<char>>, new: Seq<Seq<char>>, j: int) -> bool {
    old[op.old_start + j] == new[op.new_start + j]
}

/// Every Equal op relates equal lines, line for line.
pub open spec fn equal_ops_match(ops: Seq<LineOp>, old: Seq<Seq<char>>, new: Seq<Seq<char>>) -> bool {
    forall|k: int, j: int|
        0 <= k < ops.len() && ops[k].tag == OpTag::Equal && 0 <= j < ops[k].old_end - ops[k].old_start ==> #[trigger] op_pairs_equal(
            ops[k],
            old,
            new,
            j,
        )
}

/// The ops that `similar`'s line diff of two texts produces.
pub uninterp spec fn line_diff_ops(old: Seq<char>, new: Seq<char>) -> Seq<LineOp>;

/// `similar::TextDiff::from_lines(old, new).ops()`, each op given as its tag
/// and its two ranges (`DiffOp::as_tag_tuple`). The diff has no deadline, so
/// the ops are a function of the two texts, named `line_diff_ops`; the
/// algorithm is not restated. What the source gives of the ops is stated:
/// they follow each other over the lines `from_lines` splits each text into
/// (`text_lines`), from the first line of each side to its last; and the
/// lines an Equal op relates are equal (`DiffOp::as_tag_tuple`: for
/// `Equal`, `a[i1..i2]` is equal to `b[j1..j2]`; equal lines with their line
/// endings hold equal text without them).
#[verifier::external_body]
fn line_diff(old: &str, new: &str) -> (ops: Vec<LineOp>)
    ensures
        ops@ == line_diff_ops(old@, new@),
        ops_chained(ops@, text_lines(old@).len() as int, text_lines(new@).len() as int),
        old_pos(ops@, ops@.len() as int) == text_lines(old@).len(),
        new_pos(ops@, ops@.len() as int) == text_lines(new@).len(),
        equal_ops_match(ops@, text_lines(old@), text_lines(new@)),
{
    let diff = similar::TextDiff::from_lines(old, new);
    let mut out = Vec::new();
    for op in diff.ops() {
        let (tag, o, n) = op.as_tag_tuple();
        let tag = match tag {
            similar::DiffTag::Equal => OpTag::Equal,
            similar::DiffTag::Delete => OpTag::Delete,
            similar::DiffTag::Insert => OpTag::Insert,
            similar::DiffTag::Replace => OpTag::Replace,
        };
        out.push(LineOp { tag, old_start: o.start, old_end: o.end, new_start: n.start, new_end: n.end });
    }
    out
}

/// The tag of an inline change.
#[derive(Clone, Copy, Debug, PartialEq, Eq, Structural)]
pub enum ChangeKind {
    Equal,
    Delete,
    Insert,
}

/// One change of an inline diff: its tag and its `(emphasized, text)` values.
#[derive(Clone, Debug, PartialEq, Eq)]
pub struct InlineChange {
    pub kind: ChangeKind,
    pub values: Vec<(bool, String)>,
}

/// The inline changes of `similar`'s line diff of `old` against `new`: for
/// every op of `TextDiff::from_lines(old, new)`, the changes of
/// `iter_inline_changes(op)`, their values decoded with `iter_strings_lossy`.
/// `iter_inline_changes` runs under a fixed 500 ms deadline, so how the
/// lines are cut into values depends on time as well as on the texts; that
/// is not stated. What holds of every outcome is: each change's values are
/// slices of the op's lines, in order, so the equal and deleted values read
/// in order give `old`, and the equal and inserted values give `new`.
#[verifier::external_body]
fn inline_changes(old: &str, new: &str) -> (r: Vec<InlineChange>)
    ensures
        side_text(r@, true) == old@,
        side_text(r@, false) == new@,
{
    let diff = similar::TextDiff::from_lines(old, new);
    let mut out = Vec::new();
    for op in diff.ops() {
        for change in diff.iter_inline_changes(op) {
            let kind = match change.tag() {
                similar::ChangeTag::Equal => ChangeKind::Equal,
                similar::ChangeTag::Delete => ChangeKind::Delete,
                similar::ChangeTag::Insert => ChangeKind::Insert,
            };
            let values = change.iter_strings_lossy().map(|(e, v)| (e, v.into_owned())).collect();
            out.push(InlineChange { kind, values });
        }
    }
    out
}

/// The views of a fragment list.
pub open spec fn frags_view(v: Seq<(bool, String)>) -> Seq<(bool, Seq<char>)> {
    v.map_values(|p: (bool, String)| (p.0, p.1@))
}

/// The text of fragments read in order.
pub open spec fn frag_text(f: Seq<(bool, Seq<char>)>) -> Seq<char>
    decreases f.len(),
{
    if f.len() == 0 {
        seq![]
    } else {
        frag_text(f.drop_last()) + f.last().1
    }
}

/// Whether a change of this kind belongs to the old side (`left`) or the
/// new side: equal changes belong to both.
pub open spec fn on_side(kind: ChangeKind, left: bool) -> bool {
    kind == ChangeKind::Equal || (left && kind == ChangeKind::Delete) || (!left && kind == ChangeKind::Insert)
}

/// The text one side of a list of inline changes reads: the values of the
/// changes on that side, in order.
pub open spec fn side_text(changes: Seq<InlineChange>, left: bool) -> Seq<char>
    decreases changes.len(),
{
    if changes.len() == 0 {
        seq![]
    } else {
        side_text(changes.drop_last(), left) + if on_side(changes.last().kind, left) {
            frag_text(frags_view(changes.last().values@))
        } else {
            Seq::<char>::empty()
        }
    }
}

proof fn lemma_frag_text_concat(a: Seq<(bool, Seq<char>)>, b: Seq<(bool, Seq<char>)>)
    ensures
        frag_text(a + b) == frag_text(a) + frag_text(b),
    decreases b.len(),
{
    if b.len() == 0 {
        assert(a + b =~= a);
        assert(frag_text(a) + Seq::<char>::empty() =~= frag_text(a));
    } else {
        assert((a + b).drop_last() =~= a + b.drop_last());
        assert((a + b).last() == b.last());
        lemma_frag_text_concat(a, b.drop_last());
        assert(frag_text(a) + frag_text(b.drop_last()) + b.last().1 =~= frag_text(a) + (frag_text(b.drop_last()) + b.last().1));
    }
}

proof fn lemma_gather_text(changes: Seq<InlineChange>)
    ensures
        frag_text(gather_fragments(changes).0) == side_text(changes, true),
        frag_text(gather_fragments(changes).1) == side_text(changes, false),
    decreases changes.len(),
{
    if changes.len() > 0 {
        lemma_gather_text(changes.drop_last());
        let (o, n, uo, un) = gather_fragments(changes.drop_last());
        let v = frags_view(changes.last().values@);
        lemma_frag_text_concat(o, v);
        lemma_frag_text_concat(n, v);
        if v.len() == 0 {
            assert(frag_text(v) == Seq::<char>::empty());
            assert(side_text(changes, true) =~= side_text(changes.drop_last(), true));
            assert(side_text(changes, false) =~= side_text(changes.drop_last(), false));
        } else {
            assert(frag_text(o) + Seq::<char>::empty() =~= frag_text(o));
            assert(frag_text(n) + Seq::<char>::empty() =~= frag_text(n));
        }
    } else {
        assert(frag_text(Seq::<(bool, Seq<char>)>::empty()) == Seq::<char>::empty());
    }
}

/// The fragments gathered from a list of inline changes: the old line's
/// fragments, the new line's, and whether a deletion and an insertion were
/// seen. Changes without values are skipped; equal values go to both sides.
pub open spec fn gather_fragments(changes: Seq<InlineChange>) -> (Seq<(bool, Seq<char>)>, Seq<(bool, Seq<char>)>, bool, bool)
    decreases changes.len(),
{
    if changes.len() == 0 {
        (seq![], seq![], false, false)
    } else {
        let (o, n, uo, un) = gather_fragments(changes.drop_last());
        let c = changes.last();
        let v = frags_view(c.values@);
        if v.len() == 0 {
            (o, n, uo, un)
        } else {
            match c.kind {
                ChangeKind::Equal => (o + v, n + v, uo, un),
                ChangeKind::Delete => (o + v, n, true, un),
                ChangeKind::Insert => (o, n + v, uo, true),
            }
        }
    }
}

/// The views of optional fragments.
pub open spec fn opt_frags_view(v: Option<Vec<(bool, String)>>) -> Option<Seq<(bool, Seq<char>)>> {
    match v {
        Some(x) => Some(frags_view(x@)),
        None => None,
    }
}

/// Appends copies of `src`'s fragments to `dst`.
fn extend_frags(dst: &mut Vec<(bool, String)>, src: &Vec<(bool, String)>)
    ensures
        frags_view(final(dst)@) == frags_view(old(dst)@) + frags_view(src@),
{
    let mut i: usize = 0;
    while i < src.len()
        invariant
            i <= src.len(),
            frags_view(dst@) == frags_view(old(dst)@) + frags_view(src@).take(i as int),
        decreases src.len() - i,
    {
        let p = (src[i].0, src[i].1.clone());
        proof {
            assert(frags_view(dst@.push(p)) =~= frags_view(dst@).push((p.0, p.1@)));
            assert(frags_view(src@).take(i + 1) =~= frags_view(src@).take(i as int).push(frags_view(src@)[i as int]));
        }
        dst.push(p);
        i += 1;
    }
    assert(frags_view(src@).take(src.len() as int) =~= frags_view(src@));
}

/// Splits inline changes into the old line's and the new line's fragments;
/// a side gets `Some` only when one of its changes was a deletion
/// (respectively insertion) with values.
pub fn fragments_from_changes(changes: &Vec<InlineChange>) -> (r: (Option<InlineFragments>, Option<InlineFragments>))
    ensures
        ({
            let (o, n, uo, un) = gather_fragments(changes@);
            &&& opt_frags_view(r.0) == (if uo { Some(o) } else { None::<Seq<(bool, Seq<char>)>> })
            &&& opt_frags_view(r.1) == (if un { Some(n) } else { None::<Seq<(bool, Seq<char>)>> })
        }),
{
    let mut old_frags: Vec<(bool, String)> = Vec::new();
    let mut new_frags: Vec<(bool, String)> = Vec::new();
    let mut used_old = false;
    let mut used_new = false;
    let mut i: usize = 0;
    while i < changes.len()
        invariant
            i <= changes.len(),
            gather_fragments(changes@.take(i as int)) == (frags_view(old_frags@), frags_view(new_frags@), used_old, used_new),
        decreases changes.len() - i,
    {
        let c = &changes[i];
        assert(changes@.take(i + 1).drop_last() =~= changes@.take(i as int));
        assert(changes@.take(i + 1).last() == changes@[i as int]);
        if c.values.len() > 0 {
            match c.kind {
                ChangeKind::Equal => {
                    extend_frags(&mut old_frags, &c.values);
                    extend_frags(&mut new_frags, &c.values);
                },
                ChangeKind::Delete => {
                    extend_frags(&mut old_frags, &c.values);
                    used_old = true;
                },
                ChangeKind::Insert => {
                    extend_frags(&mut new_frags, &c.values);
                    used_new = true;
                },
            }
        }
        i += 1;
    }
    assert(changes@.take(changes.len() as int) =~= changes@);
    let o = if used_old { Some(old_frags) } else { None };
    let n = if used_new { Some(new_frags) } else { None };
    (o, n)
}

/// The fragments of each side that a list of inline changes gives (see
/// `fragments_from_changes`).
pub open spec fn fragments_of(changes: Seq<InlineChange>) -> (Option<Seq<(bool, Seq<char>)>>, Option<Seq<(bool, Seq<char>)>>) {
    let (o, n, uo, un) = gather_fragments(changes);
    (if uo { Some(o) } else { None }, if un { Some(n) } else { None })
}

/// Computes inline emphasis fragments for a paired old/new line: the
/// fragments of the changes that `similar`'s inline diff gives. Which
/// changes those are is not stated (see `inline_changes`).
fn inline_fragments(old: &str, new: &str) -> (r: (Option<InlineFragments>, Option<InlineFragments>))
    ensures
        exists|changes: Seq<InlineChange>| #[trigger] fragments_of(changes) == (opt_frags_view(r.0), opt_frags_view(r.1)),
        r.0 matches Some(f) ==> frag_text(frags_view(f@)) == old@,
        r.1 matches Some(f) ==> frag_text(frags_view(f@)) == new@,
{
    let changes = inline_changes(old, new);
    let r = fragments_from_changes(&changes);
    assert(fragments_of(changes@) == (opt_frags_view(r.0), opt_frags_view(r.1)));
    proof {
        lemma_gather_text(changes@);
    }
    r
}

/// A cell without its inline fragments: number, text, kind.
pub type CellView = (u64, Seq<char>, LineKind);

/// A row without its inline fragments.
pub type RowView = (Option<CellView>, Option<CellView>);

pub open spec fn cell_view(c: Cell) -> CellView {
    (c.num, c.text@, c.kind)
}

pub open spec fn opt_cell_view(c: Option<Cell>) -> Option<CellView> {
    match c {
        Some(x) => Some(cell_view(x)),
        None => None,
    }
}

pub open spec fn row_view(r: AlignedRow) -> RowView {
    (opt_cell_view(r.original), opt_cell_view(r.changed))
}

pub open spec fn rows_view(rs: Seq<AlignedRow>) -> Seq<RowView> {
    rs.map_values(|r: AlignedRow| row_view(r))
}

/// The cell for line `i` (0-based) of `lines`: numbered from 1.
pub open spec fn line_cell(lines: Seq<Seq<char>>, i: int, kind: LineKind) -> CellView {
    ((i + 1) as u64, lines[i], kind)
}

/// Whether an op lies within lines of the given lengths and has the shape
/// its tag implies.
pub open spec fn op_well_formed(op: LineOp, n_old: int, n_new: int) -> bool {
    &&& op.old_start <= op.old_end <= n_old
    &&& op.new_start <= op.new_end <= n_new
    &&& match op.tag {
        OpTag::Equal => op.old_end - op.old_start == op.new_end - op.new_start,
        OpTag::Delete => op.new_start == op.new_end,
        OpTag::Insert => op.old_start == op.old_end,
        OpTag::Replace => true,
    }
}

/// Where op `k` starts on the old side when ops follow each other.
pub open spec fn old_pos(ops: Seq<LineOp>, k: int) -> int {
    if k == 0 {
        0
    } else {
        ops[k - 1].old_end as int
    }
}

/// Where op `k` starts on the new side when ops follow each other.
pub open spec fn new_pos(ops: Seq<LineOp>, k: int) -> int {
    if k == 0 {
        0
    } else {
        ops[k - 1].new_end as int
    }
}

/// Ops that are well formed and follow each other from the first lines on.
pub open spec fn ops_chained(ops: Seq<LineOp>, n_old: int, n_new: int) -> bool {
    forall|k: int|
        0 <= k < ops.len() ==> {
            &&& op_well_formed(#[trigger] ops[k], n_old, n_new)
            &&& ops[k].old_start == old_pos(ops, k)
            &&& ops[k].new_start == new_pos(ops, k)
        }
}

/// The rows one op produces: equal lines side by side, deleted lines alone
/// on the original side, inserted lines alone on the changed side, and a
/// replaced block as pairs of deleted/inserted lines followed by the lines
/// left over on the longer side.
pub open spec fn op_rows(op: LineOp, old: Seq<Seq<char>>, new: Seq<Seq<char>>) -> Seq<RowView> {
    let os = op.old_start as int;
    let ns = op.new_start as int;
    let ol = op.old_end - op.old_start;
    let nl = op.new_end - op.new_start;
    match op.tag {
        OpTag::Equal => Seq::new(ol as nat, |j: int| (Some(line_cell(old, os + j, LineKind::Equal)),
            Some(line_cell(new, ns + j, LineKind::Equal)))),
        OpTag::Delete => Seq::new(ol as nat, |j: int| (Some(line_cell(old, os + j, LineKind::Delete)), None::<CellView>)),
        OpTag::Insert => Seq::new(nl as nat, |j: int| (None::<CellView>, Some(line_cell(new, ns + j, LineKind::Insert)))),
        OpTag::Replace => {
            let p = if ol < nl { ol } else { nl };
            Seq::new(p as nat, |j: int| (Some(line_cell(old, os + j, LineKind::Delete)),
                Some(line_cell(new, ns + j, LineKind::Insert))))
            + Seq::new((ol - p) as nat, |j: int| (Some(line_cell(old, os + p + j, LineKind::Delete)), None::<CellView>))
            + Seq::new((nl - p) as nat, |j: int| (None::<CellView>, Some(line_cell(new, ns + p + j, LineKind::Insert))))
        },
    }
}

/// The rows of a sequence of ops, op after op.
pub open spec fn rows_of_ops(ops: Seq<LineOp>, old: Seq<Seq<char>>, new: Seq<Seq<char>>) -> Seq<RowView>
    decreases ops.len(),
{
    if ops.len() == 0 {
        seq![]
    } else {
        rows_of_ops(ops.drop_last(), old, new) + op_rows(ops.last(), old, new)
    }
}

/// A cell for line `i` of `lines`.
fn make_cell(lines: &Vec<String>, i: usize, kind: LineKind, inline: Option<InlineFragments>) -> (c: Cell)
    requires
        i < lines.len(),
    ensures
        cell_view(c) == line_cell(strings_view(lines@), i as int, kind),
        c.inline == inline,
{
    Cell { num: (i + 1) as u64, text: lines[i].clone(), kind, inline }
}

proof fn lemma_push_row(rows: Seq<AlignedRow>, r: AlignedRow)
    ensures
        rows_view(rows.push(r)) == rows_view(rows).push(row_view(r)),
{
    assert(rows_view(rows.push(r)) =~= rows_view(rows).push(row_view(r)));
}

/// The inline fragments a row may carry: only a deleted line paired with an
/// inserted one has any, and a line's fragments read as the line's text.
pub open spec fn row_inline_ok(r: AlignedRow) -> bool {
    &&& (r.original matches Some(c) ==> (c.inline matches Some(f) ==> frag_text(frags_view(f@)) == c.text@))
    &&& (r.changed matches Some(c) ==> (c.inline matches Some(f) ==> frag_text(frags_view(f@)) == c.text@))
    &&& !(r.original matches Some(o) && r.changed matches Some(c) && o.kind == LineKind::Delete && c.kind == LineKind::Insert)
        ==> (r.original matches Some(c) ==> c.inline is None) && (r.changed matches Some(c) ==> c.inline is None)
}

/// Appends the rows of one well-formed op.
fn push_op_rows(rows: &mut Vec<AlignedRow>, op: LineOp, old_lines: &Vec<String>, new_lines: &Vec<String>)
    requires
        op_well_formed(op, old_lines.len() as int, new_lines.len() as int),
        forall|q: int| 0 <= q < old(rows).len() ==> row_inline_ok(#[trigger] old(rows)@[q]),
    ensures
        rows_view(final(rows)@) == rows_view(old(rows)@) + op_rows(op, strings_view(old_lines@), strings_view(new_lines@)),
        forall|q: int| 0 <= q < final(rows).len() ==> row_inline_ok(#[trigger] final(rows)@[q]),
{
    let ghost o = strings_view(old_lines@);
    let ghost n = strings_view(new_lines@);
    let ghost block = op_rows(op, o, n);
    let ol = op.old_end - op.old_start;
    let nl = op.new_end - op.new_start;
    match op.tag {
        OpTag::Equal => {
            let mut j: usize = 0;
            while j < ol
                invariant
                    forall|q: int| 0 <= q < rows.len() ==> row_inline_ok(#[trigger] rows@[q]),
                    op_well_formed(op, old_lines.len() as int, new_lines.len() as int),
                    op.tag == OpTag::Equal,
                    ol == op.old_end - op.old_start,
                    o == strings_view(old_lines@),
                    n == strings_view(new_lines@),
                    block == op_rows(op, o, n),
                    j <= ol,
                    rows_view(rows@) == rows_view(old(rows)@) + block.take(j as int),
                decreases ol - j,
            {
                let r = AlignedRow {
                    original: Some(make_cell(old_lines, op.old_start + j, LineKind::Equal, None)),
                    changed: Some(make_cell(new_lines, op.new_start + j, LineKind::Equal, None)),
                };
                proof {
                    lemma_push_row(rows@, r);
                    assert(block.take(j + 1) =~= block.take(j as int).push(block[j as int]));
                }
                assert(row_inline_ok(r));
                rows.push(r);
                j += 1;
            }
            assert(block.take(ol as int) =~= block);
        },
        OpTag::Delete => {
            let mut j: usize = 0;
            while j < ol
                invariant
                    forall|q: int| 0 <= q < rows.len() ==> row_inline_ok(#[trigger] rows@[q]),
                    op_well_formed(op, old_lines.len() as int, new_lines.len() as int),
                    op.tag == OpTag::Delete,
                    ol == op.old_end - op.old_start,
                    o == strings_view(old_lines@),
                    n == strings_view(new_lines@),
                    block == op_rows(op, o, n),
                    j <= ol,
                    rows_view(rows@) == rows_view(old(rows)@) + block.take(j as int),
                decreases ol - j,
            {
                let r = AlignedRow {
                    original: Some(make_cell(old_lines, op.old_start + j, LineKind::Delete, None)),
                    changed: None,
                };
                proof {
                    lemma_push_row(rows@, r);
                    assert(block.take(j + 1) =~= block.take(j as int).push(block[j as int]));
                }
                assert(row_inline_ok(r));
                rows.push(r);
                j += 1;
            }
            assert(block.take(ol as int) =~= block);
        },
        OpTag::Insert => {
            let mut j: usize = 0;
            while j < nl
                invariant
                    forall|q: int| 0 <= q < rows.len() ==> row_inline_ok(#[trigger] rows@[q]),
                    op_well_formed(op, old_lines.len() as int, new_lines.len() as int),
                    op.tag == OpTag::Insert,
                    nl == op.new_end - op.new_start,
                    o == strings_view(old_lines@),
                    n == strings_view(new_lines@),
                    block == op_rows(op, o, n),
                    j <= nl,
                    rows_view(rows@) == rows_view(old(rows)@) + block.take(j as int),
                decreases nl - j,
            {
                let r = AlignedRow {
                    original: None,
                    changed: Some(make_cell(new_lines, op.new_start + j, LineKind::Insert, None)),
                };
                proof {
                    lemma_push_row(rows@, r);
                    assert(block.take(j + 1) =~= block.take(j as int).push(block[j as int]));
                }
                assert(row_inline_ok(r));
                rows.push(r);
                j += 1;
            }
            assert(block.take(nl as int) =~= block);
        },
        OpTag::Replace => {
            let pairs = if ol < nl { ol } else { nl };
            let ghost a = Seq::new(pairs as nat, |j: int| (Some(line_cell(o, op.old_start + j, LineKind::Delete)),
                Some(line_cell(n, op.new_start + j, LineKind::Insert))));
            let ghost b = Seq::new((ol - pairs) as nat, |j: int| (Some(line_cell(o, op.old_start + pairs + j, LineKind::Delete)), None::<CellView>));
            let ghost c = Seq::new((nl - pairs) as nat, |j: int| (None::<CellView>, Some(line_cell(n, op.new_start + pairs + j, LineKind::Insert))));
            assert(block == a + b + c);
            let mut j: usize = 0;
            while j < pairs
                invariant
                    forall|q: int| 0 <= q < rows.len() ==> row_inline_ok(#[trigger] rows@[q]),
                    op_well_formed(op, old_lines.len() as int, new_lines.len() as int),
                    ol == op.old_end - op.old_start,
                    nl == op.new_end - op.new_start,
                    pairs <= ol,
                    pairs <= nl,
                    o == strings_view(old_lines@),
                    n == strings_view(new_lines@),
                    a == Seq::new(pairs as nat, |j: int| (Some(line_cell(o, op.old_start + j, LineKind::Delete)),
                        Some(line_cell(n, op.new_start + j, LineKind::Insert)))),
                    j <= pairs,
                    rows_view(rows@) == rows_view(old(rows)@) + a.take(j as int),
                decreases pairs - j,
            {
                let oi = op.old_start + j;
                let ni = op.new_start + j;
                let (old_inline, new_inline) = inline_fragments(old_lines[oi].as_str(), new_lines[ni].as_str());
                let r = AlignedRow {
                    original: Some(make_cell(old_lines, oi, LineKind::Delete, old_inline)),
                    changed: Some(make_cell(new_lines, ni, LineKind::Insert, new_inline)),
                };
                proof {
                    lemma_push_row(rows@, r);
                    assert(a.take(j + 1) =~= a.take(j as int).push(a[j as int]));
                }
                assert(row_inline_ok(r));
                rows.push(r);
                j += 1;
            }
            assert(a.take(pairs as int) =~= a);
            let mut j: usize = 0;
            while j < ol - pairs
                invariant
                    forall|q: int| 0 <= q < rows.len() ==> row_inline_ok(#[trigger] rows@[q]),
                    op_well_formed(op, old_lines.len() as int, new_lines.len() as int),
                    ol == op.old_end - op.old_start,
                    pairs <= ol,
                    o == strings_view(old_lines@),
                    b == Seq::new((ol - pairs) as nat, |j: int| (Some(line_cell(o, op.old_start + pairs + j, LineKind::Delete)), None::<CellView>)),
                    j <= ol - pairs,
                    rows_view(rows@) == rows_view(old(rows)@) + a + b.take(j as int),
                decreases ol - pairs - j,
            {
                let r = AlignedRow {
                    original: Some(make_cell(old_lines, op.old_start + pairs + j, LineKind::Delete, None)),
                    changed: None,
                };
                proof {
                    lemma_push_row(rows@, r);
                    assert(b.take(j + 1) =~= b.take(j as int).push(b[j as int]));
                }
                assert(row_inline_ok(r));
                rows.push(r);
                j += 1;
            }
            assert(b.take((ol - pairs) as int) =~= b);
            let mut j: usize = 0;
            while j < nl - pairs
                invariant
                    forall|q: int| 0 <= q < rows.len() ==> row_inline_ok(#[trigger] rows@[q]),
                    op_well_formed(op, old_lines.len() as int, new_lines.len() as int),
                    nl == op.new_end - op.new_start,
                    pairs <= nl,
                    n == strings_view(new_lines@),
                    c == Seq::new((nl - pairs) as nat, |j: int| (None::<CellView>, Some(line_cell(n, op.new_start + pairs + j, LineKind::Insert)))),
                    j <= nl - pairs,
                    rows_view(rows@) == rows_view(old(rows)@) + a + b + c.take(j as int),
                decreases nl - pairs - j,
            {
                let r = AlignedRow {
                    original: None,
                    changed: Some(make_cell(new_lines, op.new_start + pairs + j, LineKind::Insert, None)),
                };
                proof {
                    lemma_push_row(rows@, r);
                    assert(c.take(j + 1) =~= c.take(j as int).push(c[j as int]));
                }
                assert(row_inline_ok(r));
                rows.push(r);
                j += 1;
            }
            assert(c.take((nl - pairs) as int) =~= c);
            assert(rows_view(old(rows)@) + a + b + c =~= rows_view(old(rows)@) + block);
        },
    }
}

/// Builds the rows for ops that follow each other over the given lines.
pub fn rows_from_ops(ops: &Vec<LineOp>, old_lines: &Vec<String>, new_lines: &Vec<String>) -> (rows: Vec<AlignedRow>)
    requires
        ops_chained(ops@, old_lines.len() as int, new_lines.len() as int),
    ensures
        rows_view(rows@) == rows_of_ops(ops@, strings_view(old_lines@), strings_view(new_lines@)),
        forall|q: int| 0 <= q < rows.len() ==> row_inline_ok(#[trigger] rows@[q]),
{
    let mut rows: Vec<AlignedRow> = Vec::new();
    let mut k: usize = 0;
    while k < ops.len()
        invariant
            ops_chained(ops@, old_lines.len() as int, new_lines.len() as int),
            k <= ops.len(),
            rows_view(rows@) == rows_of_ops(ops@.take(k as int), strings_view(old_lines@), strings_view(new_lines@)),
            forall|q: int| 0 <= q < rows.len() ==> row_inline_ok(#[trigger] rows@[q]),
        decreases ops.len() - k,
    {
        assert(op_well_formed(ops@[k as int], old_lines.len() as int, new_lines.len() as int));
        push_op_rows(&mut rows, ops[k], old_lines, new_lines);
        assert(ops@.take(k + 1).drop_last() =~= ops@.take(k as int));
        k += 1;
    }
    assert(ops@.take(ops.len() as int) =~= ops@);
    rows
}

/// The text that is diffed for one side: the content's text, with trailing
/// whitespace stripped from its lines when whitespace is ignored.
pub open spec fn diff_text(c: Option<Seq<u8>>, ignore_whitespace: bool) -> Seq<char> {
    if ignore_whitespace {
        trim_end_all_spec(content_text(c))
    } else {
        content_text(c)
    }
}

/// The line ops that align two contents.
pub open spec fn align_ops(original: Option<Seq<u8>>, changed: Option<Seq<u8>>, ignore_whitespace: bool) -> Seq<LineOp> {
    line_diff_ops(diff_text(original, ignore_whitespace), diff_text(changed, ignore_whitespace))
}

/// Whether line ops follow each other over `n_old` and `n_new` lines and
/// cover them all.
pub open spec fn ops_cover(ops: Seq<LineOp>, n_old: int, n_new: int) -> bool {
    &&& ops_chained(ops, n_old, n_new)
    &&& old_pos(ops, ops.len() as int) == n_old
    &&& new_pos(ops, ops.len() as int) == n_new
}

/// Checks `ops_cover`.
fn check_ops_cover(ops: &Vec<LineOp>, n_old: usize, n_new: usize) -> (r: bool)
    ensures
        r == ops_cover(ops@, n_old as int, n_new as int),
{
    let mut k: usize = 0;
    let mut o: usize = 0;
    let mut n: usize = 0;
    while k < ops.len()
        invariant
            k <= ops.len(),
            o == old_pos(ops@, k as int),
            n == new_pos(ops@, k as int),
            forall|j: int|
                0 <= j < k ==> {
                    &&& op_well_formed(#[trigger] ops@[j], n_old as int, n_new as int)
                    &&& ops@[j].old_start == old_pos(ops@, j)
                    &&& ops@[j].new_start == new_pos(ops@, j)
                },
        decreases ops.len() - k,
    {
        let op = ops[k];
        let shape_ok = match op.tag {
            OpTag::Equal => op.old_end >= op.old_start && op.new_end >= op.new_start
                && op.old_end - op.old_start == op.new_end - op.new_start,
            OpTag::Delete => op.new_start == op.new_end,
            OpTag::Insert => op.old_start == op.old_end,
            OpTag::Replace => true,
        };
        if !(op.old_start <= op.old_end && op.old_end <= n_old && op.new_start <= op.new_end && op.new_end <= n_new && shape_ok
            && op.old_start == o && op.new_start == n) {
            assert(!ops_chained(ops@, n_old as int, n_new as int)) by {
                assert(!({
                    &&& op_well_formed(ops@[k as int], n_old as int, n_new as int)
                    &&& ops@[k as int].old_start == old_pos(ops@, k as int)
                    &&& ops@[k as int].new_start == new_pos(ops@, k as int)
                }));
            }
            return false;
        }
        o = op.old_end;
        n = op.new_end;
        k += 1;
    }
    o == n_old && n == n_new
}

proof fn lemma_plain_columns(old: Seq<Seq<char>>, new: Seq<Seq<char>>)
    ensures
        column(plain_rows_spec(old, new), true) == numbered(old, 0, old.len() as int),
        column(plain_rows_spec(old, new), false) == numbered(new, 0, new.len() as int),
{
    let a = Seq::new(old.len(), |i: int| (Some(line_cell(old, i, LineKind::Equal)), None::<CellView>));
    let b = Seq::new(new.len(), |i: int| (None::<CellView>, Some(line_cell(new, i, LineKind::Equal))));
    assert(plain_rows_spec(old, new) == a + b);
    lemma_column_concat(a, b, true);
    lemma_column_concat(a, b, false);
    lemma_column_numbered(a, true, old, 0);
    lemma_column_empty(a, false);
    lemma_column_empty(b, true);
    lemma_column_numbered(b, false, new, 0);
    assert(numbered(old, 0, old.len() as int) + Seq::<(u64, Seq<char>)>::empty() =~= numbered(old, 0, old.len() as int));
    assert(Seq::<(u64, Seq<char>)>::empty() + numbered(new, 0, new.len() as int) =~= numbered(new, 0, new.len() as int));
}

proof fn lemma_no_lone_cr_skip(s: Seq<char>, k: int)
    requires
        no_lone_cr(s),
        0 <= k <= s.len(),
    ensures
        no_lone_cr(s.skip(k)),
{
    assert forall|i: int| 0 <= i < s.skip(k).len() && #[trigger] s.skip(k)[i] == '\r' implies i + 1 < s.skip(k).len()
        && s.skip(k)[i + 1] == '\n' by {
        assert(s.skip(k)[i] == s[k + i]);
        assert(s[k + i] == '\r');
        assert(s.skip(k)[i + 1] == s[k + i + 1]);
    }
}

proof fn lemma_line_counts(s: Seq<char>, c1: Seq<char>, c2: Seq<char>)
    requires
        no_lone_cr(s),
        c1.len() > 0 <==> c2.len() > 0,
    ensures
        lines_acc(s, c1).len() == text_lines_acc(s, c2).len(),
    decreases s.len(),
{
    if s.len() > 0 {
        if s[0] == '\n' {
            lemma_no_lone_cr_skip(s, 1);
            assert(s.skip(1) =~= s.drop_first());
            lemma_line_counts(s.drop_first(), seq![], seq![]);
        } else if s[0] == '\r' {
            assert(s[1] == '\n');
            lemma_no_lone_cr_skip(s, 2);
            let s1 = s.drop_first();
            assert(s1[0] == '\n');
            assert(s1.drop_first() =~= s.skip(2));
            assert(lines_acc(s, c1) == lines_acc(s1, c1.push('\r')));
            assert(lines_acc(s1, c1.push('\r')) == seq![strip_cr(c1.push('\r'))] + lines_acc(s.skip(2), seq![]));
            lemma_line_counts(s.skip(2), seq![], seq![]);
        } else {
            lemma_no_lone_cr_skip(s, 1);
            assert(s.skip(1) =~= s.drop_first());
            lemma_line_counts(s.drop_first(), c1.push(s[0]), c2.push(s[0]));
        }
    }
}

proof fn lemma_lines_no_break(s: Seq<char>, cur: Seq<char>)
    requires
        no_lone_cr(s),
        no_break(cur),
    ensures
        forall|j: int| 0 <= j < lines_acc(s, cur).len() ==> no_break(#[trigger] lines_acc(s, cur)[j]),
    decreases s.len(),
{
    if s.len() == 0 {
        if cur.len() > 0 {
            assert(lines_acc(s, cur) == seq![cur]);
            assert(seq![cur][0] == cur);
        }
    } else if s[0] == '\n' || s[0] == '\r' {
        let rest = if s[0] == '\r' { s.skip(2) } else { s.drop_first() };
        if s[0] == '\r' {
            assert(s[1] == '\n');
            let s1 = s.drop_first();
            assert(s1[0] == '\n');
            assert(s1.drop_first() =~= s.skip(2));
            assert(cur.push('\r').drop_last() =~= cur);
            assert(strip_cr(cur.push('\r')) == cur);
            assert(lines_acc(s, cur) == lines_acc(s1, cur.push('\r')));
            lemma_no_lone_cr_skip(s, 2);
        } else {
            assert(cur.len() == 0 || cur.last() != '\r');
            assert(strip_cr(cur) == cur);
            lemma_no_lone_cr_skip(s, 1);
            assert(s.skip(1) =~= s.drop_first());
        }
        lemma_lines_no_break(rest, seq![]);
        let r = lines_acc(s, cur);
        assert(r == seq![cur] + lines_acc(rest, seq![]));
        assert forall|j: int| 0 <= j < r.len() implies no_break(#[trigger] r[j]) by {
            if j > 0 {
                assert(r[j] == lines_acc(rest, seq![])[j - 1]);
            }
        }
    } else {
        assert(no_break(cur.push(s[0]))) by {
            assert forall|i: int| 0 <= i < cur.push(s[0]).len() implies cur.push(s[0])[i] != '\n' && cur.push(s[0])[i] != '\r' by {
                if i < cur.len() {
                    assert(cur.push(s[0])[i] == cur[i]);
                }
            }
        }
        lemma_no_lone_cr_skip(s, 1);
        assert(s.skip(1) =~= s.drop_first());
        lemma_lines_no_break(s.drop_first(), cur.push(s[0]));
        assert(lines_acc(s, cur) == lines_acc(s.drop_first(), cur.push(s[0])));
    }
}

/// Without a lone `\r`, the line diff sees as many lines as are shown: the
/// text's own lines, or its trimmed lines when whitespace is ignored.
proof fn lemma_diff_sees_shown_lines(t: Seq<char>, ignore_whitespace: bool)
    requires
        no_lone_cr(t),
    ensures
        text_lines(if ignore_whitespace { trim_end_all_spec(t) } else { t }).len() == lines_of(t).len(),
{
    if ignore_whitespace {
        let ls = lines_of(t);
        let ts = ls.map_values(|l: Seq<char>| trim_end_ws(l));
        assert(no_break(Seq::<char>::empty()));
        lemma_lines_no_break(t, seq![]);
        assert forall|j: int| 0 <= j < ts.len() implies no_break(#[trigger] ts[j]) by {
            assert(no_break(ls[j]));
            lemma_trim_prefix(ls[j]);
            assert forall|i: int| 0 <= i < ts[j].len() implies ts[j][i] != '\n' && ts[j][i] != '\r' by {
                assert(ts[j][i] == ls[j][i]);
            }
        }
        lemma_end_lines_split(ts);
    } else {
        lemma_line_counts(t, seq![], seq![]);
    }
}

proof fn lemma_content_counts(c: Option<Seq<u8>>, ignore_whitespace: bool)
    requires
        no_lone_cr(content_text(c)),
    ensures
        text_lines(diff_text(c, ignore_whitespace)).len() == content_lines(c).len(),
{
    lemma_diff_sees_shown_lines(content_text(c), ignore_whitespace);
    match c {
        None => {
            assert(lines_of(Seq::<char>::empty()) =~= Seq::<Seq<char>>::empty());
        },
        Some(b) => {},
    }
}

/// Aligns two file contents into side-by-side rows.
///
/// When `ignore_whitespace` is true, trailing whitespace is stripped from
/// lines before diffing, but the original line text is kept for display.
/// The rows follow the ops of the line diff (see `rows_of_ops`) when the
/// ops cover the lines shown; otherwise (the diff splits a text at a lone
/// `\r`, which `str::lines` does not) the lines are shown unaligned (see
/// `plain_rows_spec`). Either way each side shows every line of its content,
/// in order, numbered from 1. Comparing whitespace, with no lone `\r`, a
/// line shown unchanged on the original side is shown unchanged beside it,
/// with the same text.
pub fn align_rows(original: Option<&[u8]>, changed: Option<&[u8]>, ignore_whitespace: bool) -> (rows: Vec<AlignedRow>)
    ensures
        ({
            let ops = align_ops(content_view(original), content_view(changed), ignore_whitespace);
            let old = content_lines(content_view(original));
            let new = content_lines(content_view(changed));
            &&& ops_cover(ops, old.len() as int, new.len() as int) ==> rows_view(rows@) == rows_of_ops(ops, old, new)
            &&& !ops_cover(ops, old.len() as int, new.len() as int) ==> rows_view(rows@) == plain_rows_spec(old, new)
            &&& no_lone_cr(content_text(content_view(original))) && no_lone_cr(content_text(content_view(changed)))
                ==> ops_cover(ops, old.len() as int, new.len() as int)
            &&& column(rows_view(rows@), true) == numbered(old, 0, old.len() as int)
            &&& column(rows_view(rows@), false) == numbered(new, 0, new.len() as int)
            &&& !ignore_whitespace && no_lone_cr(content_text(content_view(original))) && no_lone_cr(
                content_text(content_view(changed)),
            ) ==> forall|q: int| 0 <= q < rows.len() ==> equal_row_same(#[trigger] rows_view(rows@)[q])
        }),
        forall|q: int| 0 <= q < rows.len() ==> row_inline_ok(#[trigger] rows@[q]),
{
    let old_text = to_text(original);
    let new_text = to_text(changed);
    let old_lines = to_lines(original);
    let new_lines = to_lines(changed);
    let diff_text_old = if ignore_whitespace { trim_end_all(old_text.as_str()) } else { old_text };
    let diff_text_new = if ignore_whitespace { trim_end_all(new_text.as_str()) } else { new_text };
    let ops = line_diff(diff_text_old.as_str(), diff_text_new.as_str());
    proof {
        if no_lone_cr(content_text(content_view(original))) && no_lone_cr(content_text(content_view(changed))) {
            lemma_content_counts(content_view(original), ignore_whitespace);
            lemma_content_counts(content_view(changed), ignore_whitespace);
        }
        assert(strings_view(old_lines@).len() == old_lines.len());
        assert(strings_view(new_lines@).len() == new_lines.len());
    }
    if check_ops_cover(&ops, old_lines.len(), new_lines.len()) {
        let rows = rows_from_ops(&ops, &old_lines, &new_lines);
        proof {
            lemma_columns_keep_lines(ops@, strings_view(old_lines@), strings_view(new_lines@));
            if !ignore_whitespace && no_lone_cr(content_text(content_view(original))) && no_lone_cr(
                content_text(content_view(changed)),
            ) {
                lemma_content_as_diff_lines(content_view(original));
                lemma_content_as_diff_lines(content_view(changed));
                lemma_equal_ops_map(ops@, text_lines(diff_text(content_view(original), false)), text_lines(diff_text(content_view(changed), false)));
                assert forall|k: int| 0 <= k < ops@.len() implies (#[trigger] ops@[k]).old_start <= ops@[k].old_end by {
                    assert(op_well_formed(ops@[k], old_lines.len() as int, new_lines.len() as int));
                }
                lemma_equal_rows_same(ops@, strings_view(old_lines@), strings_view(new_lines@));
            }
        }
        rows
    } else {
        let rows = plain_rows(original, changed);
        proof {
            lemma_plain_columns(content_lines(content_view(original)), content_lines(content_view(changed)));
            assert forall|q: int| 0 <= q < rows.len() implies row_inline_ok(#[trigger] rows@[q]) by {
                assert(rows@[q].original matches Some(c) ==> c.inline is None);
            }
        }
        rows
    }
}

/// A row whose original side is an unchanged line shows that line on the
/// changed side too, unchanged, with the same text.
pub open spec fn equal_row_same(r: RowView) -> bool {
    r.0 matches Some(a) ==> (a.2 == LineKind::Equal ==> (r.1 matches Some(b) && b.2 == LineKind::Equal && b.1 == a.1))
}

proof fn lemma_lines_same(s: Seq<char>, c: Seq<char>)
    requires
        no_lone_cr(s),
        no_break(c),
    ensures
        lines_acc(s, c) == text_lines_acc(s, c),
    decreases s.len(),
{
    if s.len() > 0 {
        if s[0] == '\n' {
            lemma_no_lone_cr_skip(s, 1);
            assert(s.skip(1) =~= s.drop_first());
            assert(strip_cr(c) == c);
            lemma_lines_same(s.drop_first(), seq![]);
        } else if s[0] == '\r' {
            assert(s[1] == '\n');
            lemma_no_lone_cr_skip(s, 2);
            let s1 = s.drop_first();
            assert(s1[0] == '\n');
            assert(s1.drop_first() =~= s.skip(2));
            assert(strip_cr(c.push('\r')) =~= c);
            assert(lines_acc(s1, c.push('\r')) == seq![strip_cr(c.push('\r'))] + lines_acc(s.skip(2), seq![]));
            lemma_lines_same(s.skip(2), seq![]);
        } else {
            lemma_no_lone_cr_skip(s, 1);
            assert(s.skip(1) =~= s.drop_first());
            lemma_lines_same(s.drop_first(), c.push(s[0]));
        }
    }
}

/// Without a lone `\r`, the lines shown of a content are the lines the
/// diff compares, tabs expanded.
proof fn lemma_content_as_diff_lines(c: Option<Seq<u8>>)
    requires
        no_lone_cr(content_text(c)),
    ensures
        content_lines(c) == text_lines(diff_text(c, false)).map_values(|l: Seq<char>| expand_tabs_spec(l)),
{
    lemma_lines_same(content_text(c), seq![]);
    if c is None {
        assert(text_lines(diff_text(c, false)).map_values(|l: Seq<char>| expand_tabs_spec(l)) =~= Seq::<Seq<char>>::empty());
    }
}

proof fn lemma_equal_ops_map(ops: Seq<LineOp>, a: Seq<Seq<char>>, b: Seq<Seq<char>>)
    requires
        ops_chained(ops, a.len() as int, b.len() as int),
        equal_ops_match(ops, a, b),
    ensures
        equal_ops_match(ops, a.map_values(|l: Seq<char>| expand_tabs_spec(l)), b.map_values(|l: Seq<char>| expand_tabs_spec(l))),
{
    let old = a.map_values(|l: Seq<char>| expand_tabs_spec(l));
    let new = b.map_values(|l: Seq<char>| expand_tabs_spec(l));
    assert forall|k: int, j: int|
        0 <= k < ops.len() && ops[k].tag == OpTag::Equal && 0 <= j < ops[k].old_end - ops[k].old_start implies #[trigger] op_pairs_equal(
        ops[k],
        old,
        new,
        j,
    ) by {
        assert(op_well_formed(ops[k], a.len() as int, b.len() as int));
        assert(op_pairs_equal(ops[k], a, b, j));
    }
}

proof fn lemma_equal_rows_same(ops: Seq<LineOp>, old: Seq<Seq<char>>, new: Seq<Seq<char>>)
    requires
        equal_ops_match(ops, old, new),
        forall|k: int| 0 <= k < ops.len() ==> (#[trigger] ops[k]).old_start <= ops[k].old_end,
    ensures
        forall|q: int| 0 <= q < rows_of_ops(ops, old, new).len() ==> equal_row_same(#[trigger] rows_of_ops(ops, old, new)[q]),
    decreases ops.len(),
{
    if ops.len() > 0 {
        let init = ops.drop_last();
        let op = ops.last();
        assert forall|k: int, j: int|
            0 <= k < init.len() && init[k].tag == OpTag::Equal && 0 <= j < init[k].old_end - init[k].old_start implies #[trigger] op_pairs_equal(
            init[k],
            old,
            new,
            j,
        ) by {
            assert(init[k] == ops[k]);
            assert(op_pairs_equal(ops[k], old, new, j));
        }
        assert forall|k: int| 0 <= k < init.len() implies (#[trigger] init[k]).old_start <= init[k].old_end by {
            assert(init[k] == ops[k]);
        }
        lemma_equal_rows_same(init, old, new);
        let a = rows_of_ops(init, old, new);
        let r = op_rows(op, old, new);
        assert forall|q: int| 0 <= q < r.len() implies equal_row_same(#[trigger] r[q]) by {
            if op.tag == OpTag::Equal {
                assert(ops[ops.len() - 1].old_start <= ops[ops.len() - 1].old_end);
                assert(op_pairs_equal(ops[ops.len() - 1], old, new, q));
            }
        }
        assert(rows_of_ops(ops, old, new) == a + r);
        assert forall|q: int| 0 <= q < (a + r).len() implies equal_row_same(#[trigger] (a + r)[q]) by {
            if q < a.len() {
                assert((a + r)[q] == a[q]);
            } else {
                assert((a + r)[q] == r[q - a.len()]);
            }
        }
    }
}

// ------------------------------------------------------------ columns

/// One side of a row view: the original side when `left`, else the changed side.
pub open spec fn side_of(r: RowView, left: bool) -> Option<CellView> {
    if left {
        r.0
    } else {
        r.1
    }
}

/// The cells of one side of the rows, in order, as (number, text).
pub open spec fn column(rows: Seq<RowView>, left: bool) -> Seq<(u64, Seq<char>)>
    decreases rows.len(),
{
    if rows.len() == 0 {
        seq![]
    } else {
        column(rows.drop_last(), left) + match side_of(rows.last(), left) {
            Some(c) => seq![(c.0, c.1)],
            None => Seq::<(u64, Seq<char>)>::empty(),
        }
    }
}

/// Lines `from..to` of `lines`, each with its 1-based number.
pub open spec fn numbered(lines: Seq<Seq<char>>, from: int, to: int) -> Seq<(u64, Seq<char>)> {
    Seq::new((to - from) as nat, |j: int| ((from + j + 1) as u64, lines[from + j]))
}

proof fn lemma_column_concat(a: Seq<RowView>, b: Seq<RowView>, left: bool)
    ensures
        column(a + b, left) == column(a, left) + column(b, left),
    decreases b.len(),
{
    if b.len() == 0 {
        assert(a + b =~= a);
        assert(column(a, left) + column(b, left) =~= column(a, left));
    } else {
        assert((a + b).drop_last() =~= a + b.drop_last());
        assert((a + b).last() == b.last());
        lemma_column_concat(a, b.drop_last(), left);
        assert(column(a + b, left) =~= column(a, left) + column(b, left));
    }
}

proof fn lemma_column_numbered(rows: Seq<RowView>, left: bool, lines: Seq<Seq<char>>, from: int)
    requires
        forall|j: int| 0 <= j < rows.len() ==> (#[trigger] side_of(rows[j], left) matches Some(c)
            && c.0 == (from + j + 1) as u64 && c.1 == lines[from + j]),
    ensures
        column(rows, left) == numbered(lines, from, from + rows.len()),
    decreases rows.len(),
{
    if rows.len() > 0 {
        let k = rows.len() - 1;
        assert forall|j: int| 0 <= j < rows.drop_last().len() implies (#[trigger] side_of(rows.drop_last()[j], left) matches Some(c)
            && c.0 == (from + j + 1) as u64 && c.1 == lines[from + j]) by {
            assert(rows.drop_last()[j] == rows[j]);
        }
        lemma_column_numbered(rows.drop_last(), left, lines, from);
        assert(side_of(rows[k], left) matches Some(c) && c.0 == (from + k + 1) as u64 && c.1 == lines[from + k]);
        assert(column(rows, left) =~= numbered(lines, from, from + rows.len()));
    } else {
        assert(numbered(lines, from, from) =~= Seq::<(u64, Seq<char>)>::empty());
    }
}

proof fn lemma_column_empty(rows: Seq<RowView>, left: bool)
    requires
        forall|j: int| 0 <= j < rows.len() ==> (#[trigger] side_of(rows[j], left)) is None,
    ensures
        column(rows, left) == Seq::<(u64, Seq<char>)>::empty(),
    decreases rows.len(),
{
    if rows.len() > 0 {
        assert forall|j: int| 0 <= j < rows.drop_last().len() implies (#[trigger] side_of(rows.drop_last()[j], left)) is None by {
            assert(rows.drop_last()[j] == rows[j]);
        }
        lemma_column_empty(rows.drop_last(), left);
        assert(side_of(rows[rows.len() - 1], left) is None);
        assert(column(rows, left) =~= Seq::<(u64, Seq<char>)>::empty());
    }
}

proof fn lemma_numbered_concat(lines: Seq<Seq<char>>, x: int, y: int, z: int)
    requires
        x <= y <= z,
    ensures
        numbered(lines, x, y) + numbered(lines, y, z) == numbered(lines, x, z),
{
    assert(numbered(lines, x, y) + numbered(lines, y, z) =~= numbered(lines, x, z));
}

proof fn lemma_op_columns(op: LineOp, old: Seq<Seq<char>>, new: Seq<Seq<char>>)
    requires
        op_well_formed(op, old.len() as int, new.len() as int),
    ensures
        column(op_rows(op, old, new), true) == numbered(old, op.old_start as int, op.old_end as int),
        column(op_rows(op, old, new), false) == numbered(new, op.new_start as int, op.new_end as int),
{
    let os = op.old_start as int;
    let ns = op.new_start as int;
    let ol = op.old_end - op.old_start;
    let nl = op.new_end - op.new_start;
    let rows = op_rows(op, old, new);
    match op.tag {
        OpTag::Equal => {
            lemma_column_numbered(rows, true, old, os);
            lemma_column_numbered(rows, false, new, ns);
        },
        OpTag::Delete => {
            lemma_column_numbered(rows, true, old, os);
            lemma_column_empty(rows, false);
            assert(numbered(new, ns, op.new_end as int) =~= Seq::<(u64, Seq<char>)>::empty());
        },
        OpTag::Insert => {
            lemma_column_empty(rows, true);
            lemma_column_numbered(rows, false, new, ns);
            assert(numbered(old, os, op.old_end as int) =~= Seq::<(u64, Seq<char>)>::empty());
        },
        OpTag::Replace => {
            let p = if ol < nl { ol } else { nl };
            let a = Seq::new(p as nat, |j: int| (Some(line_cell(old, os + j, LineKind::Delete)),
                Some(line_cell(new, ns + j, LineKind::Insert))));
            let b = Seq::new((ol - p) as nat, |j: int| (Some(line_cell(old, os + p + j, LineKind::Delete)), None::<CellView>));
            let c = Seq::new((nl - p) as nat, |j: int| (None::<CellView>, Some(line_cell(new, ns + p + j, LineKind::Insert))));
            assert(rows == a + b + c);
            lemma_column_concat(a + b, c, true);
            lemma_column_concat(a, b, true);
            lemma_column_concat(a + b, c, false);
            lemma_column_concat(a, b, false);
            lemma_column_numbered(a, true, old, os);
            lemma_column_numbered(b, true, old, os + p);
            lemma_column_empty(c, true);
            lemma_column_numbered(a, false, new, ns);
            lemma_column_empty(b, false);
            lemma_column_numbered(c, false, new, ns + p);
            lemma_numbered_concat(old, os, os + p, op.old_end as int);
            lemma_numbered_concat(new, ns, ns + p, op.new_end as int);
            assert(column(a, true) + column(b, true) + column(c, true) =~= column(a, true) + column(b, true));
            assert(column(a, false) + column(b, false) + column(c, false) =~= column(a, false) + column(c, false));
        },
    }
}

/// Both columns keep the file: for ops that follow each other, the original
/// side of the rows, read top to bottom, is the old lines numbered 1, 2, ...
/// up to where the ops end, and likewise the changed side with the new
/// lines. When the ops cover both files, each side shows its whole file.
pub proof fn lemma_columns_keep_lines(ops: Seq<LineOp>, old: Seq<Seq<char>>, new: Seq<Seq<char>>)
    requires
        ops_chained(ops, old.len() as int, new.len() as int),
    ensures
        column(rows_of_ops(ops, old, new), true) == numbered(old, 0, old_pos(ops, ops.len() as int)),
        column(rows_of_ops(ops, old, new), false) == numbered(new, 0, new_pos(ops, ops.len() as int)),
    decreases ops.len(),
{
    if ops.len() == 0 {
        assert(numbered(old, 0, 0) =~= Seq::<(u64, Seq<char>)>::empty());
        assert(numbered(new, 0, 0) =~= Seq::<(u64, Seq<char>)>::empty());
    } else {
        let k = ops.len() - 1;
        let init = ops.drop_last();
        assert forall|j: int| 0 <= j < init.len() implies {
            &&& op_well_formed(#[trigger] init[j], old.len() as int, new.len() as int)
            &&& init[j].old_start == old_pos(init, j)
            &&& init[j].new_start == new_pos(init, j)
        } by {
            assert(init[j] == ops[j]);
            if j > 0 {
                assert(init[j - 1] == ops[j - 1]);
            }
        }
        lemma_columns_keep_lines(init, old, new);
        assert(op_well_formed(ops[k], old.len() as int, new.len() as int));
        lemma_op_columns(ops[k], old, new);
        lemma_column_concat(rows_of_ops(init, old, new), op_rows(ops[k], old, new), true);
        lemma_column_concat(rows_of_ops(init, old, new), op_rows(ops[k], old, new), false);
        if k > 0 {
            assert(init[k - 1] == ops[k - 1]);
        }
        lemma_numbered_concat(old, 0, old_pos(ops, k), ops[k].old_end as int);
        lemma_numbered_concat(new, 0, new_pos(ops, k), ops[k].new_end as int);
    }
}

// ------------------------------------------------------------ hunks and folds

/// Whether a row shows a change on either side.
pub open spec fn row_is_change(r: AlignedRow) -> bool {
    ||| (r.original matches Some(c) && c.kind != LineKind::Equal)
    ||| (r.changed matches Some(c) && c.kind != LineKind::Equal)
}

/// Whether a row is unchanged: both sides present and equal.
pub open spec fn row_is_unchanged(r: AlignedRow) -> bool {
    &&& (r.original matches Some(c) && c.kind == LineKind::Equal)
    &&& (r.changed matches Some(c) && c.kind == LineKind::Equal)
}

fn is_change(row: &AlignedRow) -> (r: bool)
    ensures
        r == row_is_change(*row),
{
    let a = match &row.original {
        Some(c) => c.kind != LineKind::Equal,
        None => false,
    };
    let b = match &row.changed {
        Some(c) => c.kind != LineKind::Equal,
        None => false,
    };
    a || b
}

/// Whether a row is unchanged.
pub fn is_unchanged(row: &AlignedRow) -> (r: bool)
    ensures
        r == row_is_unchanged(*row),
{
    let a = match &row.original {
        Some(c) => c.kind == LineKind::Equal,
        None => false,
    };
    let b = match &row.changed {
        Some(c) => c.kind == LineKind::Equal,
        None => false,
    };
    a && b
}

/// Whether row `i` starts a hunk: it is a change and the row above is not.
pub open spec fn is_hunk_start(rows: Seq<AlignedRow>, i: int) -> bool {
    &&& 0 <= i < rows.len()
    &&& row_is_change(rows[i])
    &&& (i == 0 || !row_is_change(rows[i - 1]))
}

/// Strictly increasing.
pub open spec fn increasing(s: Seq<usize>) -> bool {
    forall|a: int, b: int| 0 <= a < b < s.len() ==> s[a] < s[b]
}

/// The indices of the rows where hunks start, in increasing order.
pub fn hunk_starts(rows: &[AlignedRow]) -> (starts: Vec<usize>)
    ensures
        increasing(starts@),
        forall|k: int| 0 <= k < starts.len() ==> is_hunk_start(rows@, #[trigger] starts@[k] as int),
        forall|i: int| is_hunk_start(rows@, i) ==> starts@.contains(i as usize),
{
    let mut starts: Vec<usize> = Vec::new();
    let mut i: usize = 0;
    while i < rows.len()
        invariant
            i <= rows.len(),
            increasing(starts@),
            forall|k: int| 0 <= k < starts.len() ==> #[trigger] starts@[k] < i,
            forall|k: int| 0 <= k < starts.len() ==> is_hunk_start(rows@, #[trigger] starts@[k] as int),
            forall|j: int| 0 <= j < i && is_hunk_start(rows@, j) ==> starts@.contains(j as usize),
        decreases rows.len() - i,
    {
        if is_change(&rows[i]) {
            let prev_is_change = i > 0 && is_change(&rows[i - 1]);
            if !prev_is_change {
                proof {
                    assert forall|j: int| 0 <= j < i + 1 && is_hunk_start(rows@, j) implies starts@.push(i).contains(j as usize) by {
                        if j < i {
                            let k = choose|k: int| 0 <= k < starts.len() && starts@[k] == j as usize;
                            assert(starts@.push(i)[k] == j as usize);
                        } else {
                            assert(starts@.push(i)[starts.len() as int] == i);
                        }
                    }
                }
                starts.push(i);
            }
        }
        i += 1;
    }
    starts
}

/// Returns the 1-based index of the hunk containing `cursor_row`, that is the
/// number of hunk starts at or above it, or 0 when the cursor is above the
/// first hunk.
pub fn hunk_index(starts: &[usize], cursor_row: usize) -> (r: usize)
    ensures
        r <= starts.len(),
        r > 0 ==> starts@[r - 1] <= cursor_row,
        forall|j: int| r <= j < starts.len() ==> starts@[j] > cursor_row,
{
    let mut i = starts.len();
    while i > 0 && starts[i - 1] > cursor_row
        invariant
            i <= starts.len(),
            forall|j: int| i <= j < starts.len() ==> starts@[j] > cursor_row,
        decreases i,
    {
        i -= 1;
    }
    i
}

/// A maximal run of unchanged rows (both sides present and Equal).
/// `start` is inclusive, `end` is exclusive.
#[derive(Debug, Clone, Copy, PartialEq, Eq, Structural)]
pub struct FoldRun {
    pub start: usize,
    pub end: usize,
}

/// Whether `[start, end)` is a maximal run of unchanged rows.
pub open spec fn is_fold_run(rows: Seq<AlignedRow>, r: FoldRun) -> bool {
    &&& r.start < r.end <= rows.len()
    &&& forall|i: int| r.start <= i < r.end ==> row_is_unchanged(#[trigger] rows[i])
    &&& (r.start == 0 || !row_is_unchanged(rows[r.start - 1]))
    &&& (r.end == rows.len() || !row_is_unchanged(rows[r.end as int]))
}

/// Returns the runs of consecutive unchanged rows, top to bottom. Rows are
/// "unchanged" only when both sides are present and Equal, so runs never
/// overlap hunks.
pub fn fold_runs(rows: &[AlignedRow]) -> (runs: Vec<FoldRun>)
    ensures
        forall|k: int| 0 <= k < runs.len() ==> is_fold_run(rows@, #[trigger] runs@[k]),
        forall|a: int, b: int| 0 <= a < b < runs.len() ==> runs@[a].end < runs@[b].start,
        forall|i: int| 0 <= i < rows.len() && row_is_unchanged(#[trigger] rows@[i]) ==>
            exists|k: int| 0 <= k < runs.len() && (#[trigger] runs@[k]).start <= i < runs@[k].end,
{
    let mut runs: Vec<FoldRun> = Vec::new();
    let mut i: usize = 0;
    while i < rows.len()
        invariant
            i <= rows.len(),
            forall|k: int| 0 <= k < runs.len() ==> is_fold_run(rows@, #[trigger] runs@[k]),
            forall|k: int| 0 <= k < runs.len() ==> (#[trigger] runs@[k]).end <= i,
            forall|a: int, b: int| 0 <= a < b < runs.len() ==> runs@[a].end < runs@[b].start,
            i > 0 ==> (!row_is_unchanged(rows@[i - 1]) || (runs.len() > 0 && runs@[runs.len() - 1].end == i)),
            forall|j: int| 0 <= j < i && row_is_unchanged(#[trigger] rows@[j]) ==>
                exists|k: int| 0 <= k < runs.len() && (#[trigger] runs@[k]).start <= j < runs@[k].end,
        decreases rows.len() - i,
    {
        if is_unchanged(&rows[i]) {
            let start = i;
            while i < rows.len() && is_unchanged(&rows[i])
                invariant
                    start < i || (start == i && i < rows.len() && row_is_unchanged(rows@[i as int])),
                    i <= rows.len(),
                    forall|j: int| start <= j < i ==> row_is_unchanged(#[trigger] rows@[j]),
                decreases rows.len() - i,
            {
                i += 1;
            }
            let run = FoldRun { start, end: i };
            proof {
                assert(is_fold_run(rows@, run));
                if runs.len() > 0 {
                    assert(runs@[runs.len() - 1].end < start);
                }
                assert forall|j: int| 0 <= j < i && row_is_unchanged(#[trigger] rows@[j]) implies
                    exists|k: int| 0 <= k < runs@.push(run).len() && (#[trigger] runs@.push(run)[k]).start <= j < runs@.push(run)[k].end by {
                    if j >= start {
                        assert(runs@.push(run)[runs.len() as int] == run);
                    } else {
                        let k = choose|k: int| 0 <= k < runs.len() && (#[trigger] runs@[k]).start <= j < runs@[k].end;
                        assert(runs@.push(run)[k] == runs@[k]);
                    }
                }
            }
            runs.push(run);
        } else {
            i += 1;
        }
    }
    runs
}

/// The rows of a content shown without a diff: the old lines numbered, each
/// alone on the original side, then the new lines alone on the changed side.
pub open spec fn plain_rows_spec(old: Seq<Seq<char>>, new: Seq<Seq<char>>) -> Seq<RowView> {
    Seq::new(old.len(), |i: int| (Some(line_cell(old, i, LineKind::Equal)), None::<CellView>))
        + Seq::new(new.len(), |i: int| (None::<CellView>, Some(line_cell(new, i, LineKind::Equal))))
}

/// Rows for contents too large to diff: every line unaligned and unmarked.
pub fn plain_rows(original: Option<&[u8]>, changed: Option<&[u8]>) -> (rows: Vec<AlignedRow>)
    ensures
        rows_view(rows@) == plain_rows_spec(content_lines(content_view(original)), content_lines(content_view(changed))),
        forall|i: int| 0 <= i < rows.len() ==> (#[trigger] rows@[i].original matches Some(c) ==> c.inline is None)
            && (rows@[i].changed matches Some(c) ==> c.inline is None),
{
    let old_lines = to_lines(original);
    let new_lines = to_lines(changed);
    let ghost o = strings_view(old_lines@);
    let ghost n = strings_view(new_lines@);
    let ghost a = Seq::new(o.len(), |i: int| (Some(line_cell(o, i, LineKind::Equal)), None::<CellView>));
    let ghost b = Seq::new(n.len(), |i: int| (None::<CellView>, Some(line_cell(n, i, LineKind::Equal))));
    let mut rows: Vec<AlignedRow> = Vec::new();
    let mut i: usize = 0;
    while i < old_lines.len()
        invariant
            o == strings_view(old_lines@),
            a == Seq::new(o.len(), |i: int| (Some(line_cell(o, i, LineKind::Equal)), None::<CellView>)),
            i <= old_lines.len(),
            rows_view(rows@) == a.take(i as int),
            forall|k: int| 0 <= k < rows.len() ==> (#[trigger] rows@[k].original matches Some(c) ==> c.inline is None)
                && (rows@[k].changed matches Some(c) ==> c.inline is None),
        decreases old_lines.len() - i,
    {
        let r = AlignedRow { original: Some(make_cell(&old_lines, i, LineKind::Equal, None)), changed: None };
        proof {
            lemma_push_row(rows@, r);
            assert(a.take(i + 1) =~= a.take(i as int).push(a[i as int]));
        }
        rows.push(r);
        i += 1;
    }
    assert(a.take(old_lines.len() as int) =~= a);
    let mut i: usize = 0;
    while i < new_lines.len()
        invariant
            n == strings_view(new_lines@),
            b == Seq::new(n.len(), |i: int| (None::<CellView>, Some(line_cell(n, i, LineKind::Equal)))),
            i <= new_lines.len(),
            rows_view(rows@) == a + b.take(i as int),
            forall|k: int| 0 <= k < rows.len() ==> (#[trigger] rows@[k].original matches Some(c) ==> c.inline is None)
                && (rows@[k].changed matches Some(c) ==> c.inline is None),
        decreases new_lines.len() - i,
    {
        let r = AlignedRow { original: None, changed: Some(make_cell(&new_lines, i, LineKind::Equal, None)) };
        proof {
            lemma_push_row(rows@, r);
            assert(b.take(i + 1) =~= b.take(i as int).push(b[i as int]));
        }
        rows.push(r);
        i += 1;
    }
    assert(b.take(new_lines.len() as int) =~= b);
    rows
}

} // verus!
