//! What the screen shows, computed from the controller's state: numbers and
//! titles, the rows of the file list, the status line and the help panel,
//! text fitted to terminal cells, hit tests, and when a frame must be redrawn
//! in full. Drawing itself stays with the terminal front end.
use vstd::prelude::*;
use crate::align::{char_str_width, char_width, is_unchanged, push_spaces, row_is_unchanged, spaces, AlignedRow, Cell, LineKind};
use crate::controller::{row_path_of, Controller, Overlay, FOLD_MIN};
use crate::git::{file_v, files_v, opt_view};
use crate::model::{status_letter, ChangedFile, CommitEntry, ComparisonMode, Status};
use crate::text::{chars_of, concat, push_char, push_str, string_of_range};
use crate::tree::{vrow_v, RowV, SortMode, VisibleRow};
use crate::align::strings_view;
use crate::text::str_eq;

verus! {

// ------------------------------------------------------------ numbers

/// The decimal digit `d` (0 to 9).
pub open spec fn digit_char(d: nat) -> char {
    if d == 0 {
        '0'
    } else if d == 1 {
        '1'
    } else if d == 2 {
        '2'
    } else if d == 3 {
        '3'
    } else if d == 4 {
        '4'
    } else if d == 5 {
        '5'
    } else if d == 6 {
        '6'
    } else if d == 7 {
        '7'
    } else if d == 8 {
        '8'
    } else {
        '9'
    }
}

/// `n` written in decimal, as `to_string` writes it.
pub open spec fn decimal(n: nat) -> Seq<char>
    decreases n,
{
    if n < 10 {
        seq![digit_char(n)]
    } else {
        decimal(n / 10).push(digit_char(n % 10))
    }
}

fn digit_exec(d: usize) -> (c: char)
    requires
        d < 10,
    ensures
        c == digit_char(d as nat),
{
    if d == 0 {
        '0'
    } else if d == 1 {
        '1'
    } else if d == 2 {
        '2'
    } else if d == 3 {
        '3'
    } else if d == 4 {
        '4'
    } else if d == 5 {
        '5'
    } else if d == 6 {
        '6'
    } else if d == 7 {
        '7'
    } else if d == 8 {
        '8'
    } else {
        '9'
    }
}

/// Appends `n` in decimal.
pub fn push_decimal(s: &mut String, n: u64)
    ensures
        final(s)@ == old(s)@ + decimal(n as nat),
    decreases n,
{
    if n >= 10 {
        push_decimal(s, n / 10);
    }
    push_char(s, digit_exec((n % 10) as usize));
    proof {
        if n >= 10 {
            assert(decimal(n as nat) == decimal((n / 10) as nat).push(digit_char((n % 10) as nat)));
        }
    }
}

/// Number of decimal digits in `n` (1 for 0).
pub fn digits(n: usize) -> (r: usize)
    ensures
        r == decimal(n as nat).len(),
        r <= n + 1,
    decreases n,
{
    if n < 10 {
        1
    } else {
        digits(n / 10) + 1
    }
}

// ------------------------------------------------------------ geometry

/// A rectangle of terminal cells.
#[derive(Clone, Copy, Debug, PartialEq, Eq, Default, Structural)]
pub struct Rect {
    pub x: u16,
    pub y: u16,
    pub width: u16,
    pub height: u16,
}

/// Whether a point falls inside a rect (inclusive of top-left, exclusive of
/// bottom-right). The rect must lie within the `u16` plane.
pub fn rect_contains(rect: Rect, x: u16, y: u16) -> (r: bool)
    requires
        rect.x + rect.width <= u16::MAX,
        rect.y + rect.height <= u16::MAX,
    ensures
        r == (rect.x <= x < rect.x + rect.width && rect.y <= y < rect.y + rect.height),
{
    x >= rect.x && x < rect.x + rect.width && y >= rect.y && y < rect.y + rect.height
}

/// Height of the commit picker panel: the commits shown (at most 20) plus
/// five lines of frame, within the screen less four lines, and at least
/// seven.
pub fn commit_picker_height(commits_len: usize, area_height: u16) -> (r: u16)
    ensures
        ({
            let shown: int = if commits_len < 20 { commits_len as int } else { 20 };
            let room: int = if area_height >= 4 { area_height - 4 } else { 0 };
            let h: int = if shown + 5 < room { shown + 5 } else { room };
            r == if h > 7 { h } else { 7 }
        }),
{
    let shown: u16 = if commits_len < 20 { commits_len as u16 } else { 20 };
    let room = area_height.saturating_sub(4);
    let h = if shown + 5 < room { shown + 5 } else { room };
    if h > 7 { h } else { 7 }
}

// ------------------------------------------------------------ titles

/// The part of a path after its last `/` (the whole path without one).
pub open spec fn last_segment(p: Seq<char>) -> Seq<char>
    decreases p.len(),
{
    if p.len() == 0 {
        p
    } else if p.last() == '/' {
        Seq::<char>::empty()
    } else {
        last_segment(p.drop_last()).push(p.last())
    }
}

/// The file or directory name of a path: what follows its last `/`.
pub fn short_name(path: &str) -> (r: String)
    ensures
        r@ == last_segment(path@),
{
    let v = chars_of(path);
    let mut i = v.len();
    assert(path@.take(i as int) =~= path@);
    assert(path@.skip(i as int) =~= Seq::<char>::empty());
    assert(last_segment(path@) + Seq::<char>::empty() =~= last_segment(path@));
    while i > 0 && v[i - 1] != '/'
        invariant
            v@ == path@,
            i <= v.len(),
            last_segment(path@) == last_segment(path@.take(i as int)) + path@.skip(i as int),
        decreases i,
    {
        assert(path@.take(i as int).drop_last() =~= path@.take(i - 1));
        assert(path@.skip(i - 1) =~= seq![path@[i - 1]] + path@.skip(i as int));
        assert(last_segment(path@.take(i as int)) == last_segment(path@.take(i - 1)).push(path@[i - 1]));
        assert(last_segment(path@.take(i - 1)).push(path@[i - 1]) + path@.skip(i as int) =~= last_segment(path@.take(i - 1))
            + path@.skip(i - 1));
        i -= 1;
    }
    let r = string_of_range(&v, i, v.len());
    proof {
        if i > 0 {
            assert(path@.take(i as int).last() == '/');
        }
        assert(last_segment(path@.take(i as int)) =~= Seq::<char>::empty());
        assert(v@.subrange(i as int, v.len() as int) =~= path@.skip(i as int));
        assert(Seq::<char>::empty() + path@.skip(i as int) =~= path@.skip(i as int));
    }
    r
}

/// The title of a diff pane: the side's label and the file's path, with the
/// old path first for a rename.
pub open spec fn pane_title_spec(label: Seq<char>, file: ChangedFile) -> Seq<char> {
    let rename = match file.old_path {
        Some(o) => o@,
        None => Seq::<char>::empty(),
    };
    if rename.len() > 0 && file.status == Status::Renamed {
        label + " · "@ + rename + " → "@ + file.path@
    } else {
        label + " · "@ + file.path@
    }
}

/// The title of a diff pane.
pub fn pane_title(label: &str, file: &ChangedFile) -> (r: String)
    ensures
        r@ == pane_title_spec(label@, *file),
{
    let mut s = concat(label, " · ");
    match &file.old_path {
        Some(o) => {
            if chars_of(o.as_str()).len() > 0 && file.status == Status::Renamed {
                push_str(&mut s, o.as_str());
                push_str(&mut s, " → ");
            }
        },
        None => {},
    }
    push_str(&mut s, file.path.as_str());
    proof {
        let label_v = label@;
        if file.old_path is Some && file.old_path.unwrap()@.len() > 0 && file.status == Status::Renamed {
            assert(s@ =~= pane_title_spec(label@, *file));
        } else {
            assert(s@ =~= pane_title_spec(label@, *file));
        }
    }
    s
}

/// The diff position shown in the header: the cursor's row and the row
/// count, then the hunk number and count when there are hunks; nothing for
/// an empty diff.
pub open spec fn diff_status_spec(cursor: usize, rows: nat, hunk_idx: usize, hunk_count: usize) -> Seq<char> {
    if rows == 0 {
        Seq::<char>::empty()
    } else {
        let line = "行 "@ + decimal((cursor + 1) as nat) + "/"@ + decimal(rows);
        if hunk_count > 0 {
            line + " hunk "@ + decimal(hunk_idx as nat) + "/"@ + decimal(hunk_count as nat)
        } else {
            line
        }
    }
}

/// The diff position shown in the header.
pub fn diff_status(ctrl: &Controller) -> (r: String)
    requires
        ctrl.diff_cursor < u64::MAX,
    ensures
        r@ == diff_status_spec(ctrl.diff_cursor, ctrl.diff_rows.len() as nat, ctrl.hunk_idx, ctrl.hunk_count),
{
    if ctrl.diff_rows.len() == 0 {
        return String::new();
    }
    let mut s = "行 ".to_owned();
    push_decimal(&mut s, ctrl.diff_cursor as u64 + 1);
    push_str(&mut s, "/");
    push_decimal(&mut s, ctrl.diff_rows.len() as u64);
    if ctrl.hunk_count > 0 {
        push_str(&mut s, " hunk ");
        push_decimal(&mut s, ctrl.hunk_idx as u64);
        push_str(&mut s, "/");
        push_decimal(&mut s, ctrl.hunk_count as u64);
    }
    proof {
        assert(s@ =~= diff_status_spec(ctrl.diff_cursor, ctrl.diff_rows.len() as nat, ctrl.hunk_idx, ctrl.hunk_count));
    }
    s
}

// ------------------------------------------------------------ cell widths

/// The display width that `unicode_width` gives a whole text.
pub uninterp spec fn str_width(s: Seq<char>) -> usize;

/// `UnicodeWidthStr::width`: the number of terminal columns a text takes.
/// Named by `str_width`; the width tables are not restated.
#[verifier::external_body]
fn text_width(s: &str) -> (w: usize)
    ensures
        w == str_width(s@),
{
    unicode_width::UnicodeWidthStr::width(s)
}

/// The display width that `unicode_width` gives a character on its own,
/// none for a control character.
pub uninterp spec fn cell_width(c: char) -> Option<usize>;

/// `UnicodeWidthChar::width`. Named by `cell_width`; the width tables are
/// not restated.
#[verifier::external_body]
fn char_cell_width(c: char) -> (w: Option<usize>)
    ensures
        w == cell_width(c),
{
    unicode_width::UnicodeWidthChar::width(c)
}

/// The longest prefix of `s` whose characters fit in `budget` columns.
pub open spec fn fit_prefix(s: Seq<char>, budget: int) -> Seq<char>
    decreases s.len(),
{
    if s.len() == 0 || char_width(s[0]) > budget {
        Seq::<char>::empty()
    } else {
        seq![s[0]] + fit_prefix(s.drop_first(), budget - char_width(s[0]))
    }
}

/// `s` cut to `max` columns: unchanged when it fits, else the prefix that
/// fits in one column less, followed by `…`.
pub open spec fn truncate_spec(s: Seq<char>, max: usize) -> Seq<char> {
    if str_width(s) <= max {
        s
    } else {
        fit_prefix(s, if max >= 1 { max - 1 } else { 0 }) + seq!['…']
    }
}

/// Cuts a text to `max` columns, marking the cut with `…`.
pub fn truncate(s: &str, max: usize) -> (r: String)
    ensures
        r@ == truncate_spec(s@, max),
{
    let w = text_width(s);
    if w <= max {
        return s.to_owned();
    }
    let v = chars_of(s);
    let limit: usize = if max >= 1 { max - 1 } else { 0 };
    let mut rem = limit;
    let mut out = String::new();
    let mut i: usize = 0;
    let mut stop = false;
    assert(s@.skip(0) =~= s@);
    assert(out@ + fit_prefix(s@, limit as int) =~= fit_prefix(s@, limit as int));
    while i < v.len() && !stop
        invariant
            v@ == s@,
            i <= v.len(),
            rem <= limit,
            fit_prefix(s@, limit as int) == out@ + if stop { Seq::<char>::empty() } else { fit_prefix(s@.skip(i as int), rem as int) },
        decreases v.len() - i + if stop { 0int } else { 1int },
    {
        assert(s@.skip(i as int).drop_first() =~= s@.skip(i + 1));
        assert(s@.skip(i as int)[0] == v@[i as int]);
        let cw = char_str_width(v[i]);
        if cw > rem {
            stop = true;
            assert(out@ + Seq::<char>::empty() =~= out@);
        } else {
            rem = rem - cw;
            let ghost before = out@;
            push_char(&mut out, v[i]);
            assert(before + (seq![v@[i as int]] + fit_prefix(s@.skip(i + 1), rem as int)) =~= out@ + fit_prefix(
                s@.skip(i + 1),
                rem as int,
            ));
            i += 1;
        }
    }
    if !stop {
        assert(s@.skip(i as int) =~= Seq::<char>::empty());
        assert(out@ + Seq::<char>::empty() =~= out@);
    }
    push_char(&mut out, '…');
    out
}

/// `s` padded with spaces on the right to `width` columns.
pub fn pad_right(s: &str, width: usize) -> (r: String)
    ensures
        r@ == if str_width(s@) >= width { s@ } else { s@ + spaces((width - str_width(s@)) as nat) },
{
    let w = text_width(s);
    let mut out = s.to_owned();
    if w < width {
        push_spaces(&mut out, width - w);
    }
    out
}

/// `s` padded with spaces on the left to `width` columns.
pub fn pad_left(s: &str, width: usize) -> (r: String)
    ensures
        r@ == if str_width(s@) >= width { s@ } else { spaces((width - str_width(s@)) as nat) + s@ },
{
    let w = text_width(s);
    if w >= width {
        return s.to_owned();
    }
    let mut out = String::new();
    push_spaces(&mut out, width - w);
    push_str(&mut out, s);
    assert(spaces((width - w) as nat) + s@ =~= out@) by {
        assert(Seq::<char>::empty() + spaces((width - w) as nat) =~= spaces((width - w) as nat));
    }
    out
}

/// What is left of `s` once its first `budget` columns are scrolled past: a
/// character that does not fit whole stays.
pub open spec fn drop_columns(s: Seq<char>, budget: int) -> Seq<char>
    decreases s.len(),
{
    if s.len() == 0 || char_width(s[0]) > budget {
        s
    } else {
        drop_columns(s.drop_first(), budget - char_width(s[0]))
    }
}

/// The part of a text from the first character that does not fit in
/// `width` columns on; all of it for width 0.
pub fn skip_columns(s: &str, width: usize) -> (r: String)
    ensures
        r@ == if width == 0 { s@ } else { drop_columns(s@, width as int) },
{
    if width == 0 {
        return s.to_owned();
    }
    let v = chars_of(s);
    let mut rem = width;
    let mut i: usize = 0;
    let mut stop = false;
    assert(s@.skip(0) =~= s@);
    while i < v.len() && !stop
        invariant
            v@ == s@,
            i <= v.len(),
            drop_columns(s@, width as int) == if stop { s@.skip(i as int) } else { drop_columns(s@.skip(i as int), rem as int) },
        decreases v.len() - i + if stop { 0int } else { 1int },
    {
        assert(s@.skip(i as int).drop_first() =~= s@.skip(i + 1));
        assert(s@.skip(i as int)[0] == v@[i as int]);
        let cw = char_str_width(v[i]);
        if cw > rem {
            stop = true;
        } else {
            rem = rem - cw;
            i += 1;
        }
    }
    if !stop {
        assert(s@.skip(i as int) =~= Seq::<char>::empty());
    }
    let r = string_of_range(&v, i, v.len());
    assert(v@.subrange(i as int, v.len() as int) =~= s@.skip(i as int));
    r
}

/// Whether a character is double width (two columns or more).
pub open spec fn is_wide(c: char) -> bool {
    match cell_width(c) {
        Some(w) => w > 1,
        None => false,
    }
}

/// Whether a text holds a double-width (CJK) character.
pub open spec fn has_wide(s: Seq<char>) -> bool {
    exists|i: int| 0 <= i < s.len() && is_wide(#[trigger] s[i])
}

/// Whether a text holds any double-width (CJK) character.
pub fn wide_str(s: &str) -> (r: bool)
    ensures
        r == has_wide(s@),
{
    let v = chars_of(s);
    let mut i: usize = 0;
    while i < v.len()
        invariant
            v@ == s@,
            i <= v.len(),
            forall|j: int| 0 <= j < i ==> !is_wide(#[trigger] s@[j]),
        decreases v.len() - i,
    {
        let w = char_cell_width(v[i]);
        match w {
            Some(x) => {
                if x > 1 {
                    assert(is_wide(s@[i as int]));
                    return true;
                }
            },
            None => {},
        }
        i += 1;
    }
    false
}

/// Whether any side of any diff row shows a double-width character.
pub open spec fn rows_have_wide(rows: Seq<AlignedRow>) -> bool {
    exists|i: int| {
        &&& 0 <= i < rows.len()
        &&& {
            ||| (#[trigger] rows[i]).original matches Some(c) && has_wide(c.text@)
            ||| rows[i].changed matches Some(c) && has_wide(c.text@)
        }
    }
}

/// Whether any side of any diff row shows a double-width character.
pub fn diff_has_wide(rows: &[AlignedRow]) -> (r: bool)
    ensures
        r == rows_have_wide(rows@),
{
    let mut i: usize = 0;
    while i < rows.len()
        invariant
            i <= rows.len(),
            forall|j: int| 0 <= j < i ==> !({
                ||| (#[trigger] rows@[j]).original matches Some(c) && has_wide(c.text@)
                ||| rows@[j].changed matches Some(c) && has_wide(c.text@)
            }),
        decreases rows.len() - i,
    {
        let a = match &rows[i].original {
            Some(c) => wide_str(c.text.as_str()),
            None => false,
        };
        let b = match &rows[i].changed {
            Some(c) => wide_str(c.text.as_str()),
            None => false,
        };
        if a || b {
            return true;
        }
        i += 1;
    }
    false
}

/// The name a list row shows: a file's path or a directory's path.
pub open spec fn row_name(r: VisibleRow) -> Seq<char> {
    match r {
        VisibleRow::File { file, .. } => file.path@,
        VisibleRow::Dir { path, .. } => path@,
    }
}

/// Whether any list row's name holds a double-width character.
pub fn list_has_wide(rows: &[VisibleRow]) -> (r: bool)
    ensures
        r == exists|i: int| 0 <= i < rows.len() && has_wide(row_name(#[trigger] rows@[i])),
{
    let mut i: usize = 0;
    while i < rows.len()
        invariant
            i <= rows.len(),
            forall|j: int| 0 <= j < i ==> !has_wide(row_name(#[trigger] rows@[j])),
        decreases rows.len() - i,
    {
        let w = match &rows[i] {
            VisibleRow::File { file, .. } => wide_str(file.path.as_str()),
            VisibleRow::Dir { path, .. } => wide_str(path.as_str()),
        };
        if w {
            return true;
        }
        i += 1;
    }
    false
}

// ------------------------------------------------------------ full redraws

/// What an overlay covers, to tell two frames apart: nothing, the help, or
/// the commit picker with its cursor and its commits' hashes and titles.
#[derive(Debug)]
pub enum OverlayKey {
    Closed,
    Help,
    Picker { cursor: usize, commits: Vec<(String, String)> },
}

/// The state a frame was drawn from, as far as it decides which regions of
/// the screen may have changed between two frames. A full terminal redraw
/// is only needed when a region holding wide (CJK) glyphs moved: the
/// terminal library's incremental update never clears the cell that trails
/// a double-width glyph, so only clearing the whole screen removes it, while
/// pure-ASCII scrolling needs no full redraw.
#[derive(Debug)]
pub struct NavKey {
    pub diff_file: Option<String>,
    pub cursor: usize,
    pub list_scroll: usize,
    pub diff_cursor: usize,
    pub diff_vscroll: usize,
    pub diff_hscroll: usize,
    pub diff_rows_len: usize,
    pub mode: ComparisonMode,
    pub selected_commit: Option<String>,
    pub files: Vec<ChangedFile>,
    pub collapsed: Vec<String>,
    pub sort: SortMode,
    pub filter: Option<String>,
    pub fold_unchanged: bool,
    pub hunk_idx: usize,
    pub hunk_count: usize,
    pub status: String,
    pub loading: bool,
    pub overlay: OverlayKey,
}

/// An overlay key as values.
pub open spec fn okey_v(o: OverlayKey) -> (int, usize, Seq<(Seq<char>, Seq<char>)>) {
    match o {
        OverlayKey::Closed => (0, 0, Seq::empty()),
        OverlayKey::Help => (1, 0, Seq::empty()),
        OverlayKey::Picker { cursor, commits } => (2, cursor, commits@.map_values(|p: (String, String)| (p.0@, p.1@))),
    }
}

/// The overlay of a controller as values.
pub open spec fn overlay_v(o: Option<Overlay>) -> (int, usize, Seq<(Seq<char>, Seq<char>)>) {
    match o {
        None => (0, 0, Seq::empty()),
        Some(Overlay::Help) => (1, 0, Seq::empty()),
        Some(Overlay::CommitPicker { commits, cursor }) => (
            2,
            cursor,
            commits@.map_values(|c: CommitEntry| (c.short_hash@, c.title@)),
        ),
    }
}

/// Whether two lists hold the same strings (as sets).
pub open spec fn same_elems(a: Seq<Seq<char>>, b: Seq<Seq<char>>) -> bool {
    forall|x: Seq<char>| a.contains(x) <==> b.contains(x)
}

/// Whether `k` records the state of `c`.
pub open spec fn records_frame(k: NavKey, c: Controller) -> bool {
    &&& opt_view(k.diff_file) == match c.diff_file {
        Some(f) => Some(f.path@),
        None => None,
    }
    &&& k.cursor == c.cursor
    &&& k.list_scroll == c.list_scroll
    &&& k.diff_cursor == c.diff_cursor
    &&& k.diff_vscroll == c.diff_vscroll
    &&& k.diff_hscroll == c.diff_hscroll
    &&& k.diff_rows_len == c.diff_rows.len()
    &&& k.mode == c.mode
    &&& opt_view(k.selected_commit) == opt_view(c.selected_commit)
    &&& files_v(k.files@) == files_v(c.files@)
    &&& strings_view(k.collapsed@) == strings_view(c.collapsed@)
    &&& k.sort == c.sort
    &&& opt_view(k.filter) == opt_view(c.filter)
    &&& k.fold_unchanged == c.fold_unchanged
    &&& k.hunk_idx == c.hunk_idx
    &&& k.hunk_count == c.hunk_count
    &&& k.status@ == c.status@
    &&& k.loading == c.loading
    &&& okey_v(k.overlay) == overlay_v(c.overlay)
}

/// Whether a full redraw is needed between a frame drawn from `b` and one
/// drawn from `c`: always when the overlay changed; when the diff moved, if
/// the diff shows a wide glyph or the header's numbers changed their digit
/// count or the hunk counter changed; when the list moved, if the list
/// shows a wide glyph; when the file, mode, file set or another shown
/// setting changed, if anything shown is wide.
pub open spec fn redraw_needed(b: NavKey, c: Controller) -> bool {
    if okey_v(b.overlay) != overlay_v(c.overlay) {
        true
    } else {
        let diff_moved = c.diff_cursor != b.diff_cursor || c.diff_vscroll != b.diff_vscroll || c.diff_hscroll != b.diff_hscroll
            || c.diff_rows.len() != b.diff_rows_len;
        let list_moved = c.cursor != b.cursor || c.list_scroll != b.list_scroll || !same_elems(
            strings_view(c.collapsed@),
            strings_view(b.collapsed@),
        ) || c.sort != b.sort || opt_view(c.filter) != opt_view(b.filter);
        let switched = match c.diff_file {
            Some(f) => Some(f.path@),
            None => None,
        } != opt_view(b.diff_file) || c.mode != b.mode || files_v(c.files@) != files_v(b.files@) || opt_view(c.selected_commit)
            != opt_view(b.selected_commit);
        let other_moved = c.fold_unchanged != b.fold_unchanged || c.status@ != b.status@ || c.loading != b.loading;
        let stats_shifted = decimal((c.diff_cursor + 1) as nat).len() != decimal((b.diff_cursor + 1) as nat).len() || decimal(
            c.diff_rows.len() as nat,
        ).len() != decimal(b.diff_rows_len as nat).len() || c.hunk_idx != b.hunk_idx || c.hunk_count != b.hunk_count;
        let diff_wide = rows_have_wide(c.diff_rows@);
        let list_wide = exists|i: int| 0 <= i < c.rows().len() && has_wide(row_path_of(#[trigger] c.rows()[i]));
        let any_wide = diff_wide || list_wide || match c.diff_file {
            Some(f) => has_wide(f.path@),
            None => false,
        };
        ||| diff_moved && (diff_wide || stats_shifted)
        ||| list_moved && list_wide
        ||| (switched || other_moved) && any_wide
    }
}

fn copy_opt(s: &Option<String>) -> (r: Option<String>)
    ensures
        opt_view(r) == opt_view(*s),
{
    crate::model::copy_opt_string(s)
}

fn opt_str_eq(a: &Option<String>, b: &Option<String>) -> (r: bool)
    ensures
        r == (opt_view(*a) == opt_view(*b)),
{
    match (a, b) {
        (Some(x), Some(y)) => str_eq(x.as_str(), y.as_str()),
        (None, None) => true,
        _ => false,
    }
}

fn files_eq(a: &Vec<ChangedFile>, b: &Vec<ChangedFile>) -> (r: bool)
    ensures
        r == (files_v(a@) == files_v(b@)),
{
    if a.len() != b.len() {
        assert(files_v(a@).len() != files_v(b@).len());
        return false;
    }
    let mut i: usize = 0;
    while i < a.len()
        invariant
            a.len() == b.len(),
            i <= a.len(),
            forall|j: int| 0 <= j < i ==> file_v(#[trigger] a@[j]) == file_v(b@[j]),
        decreases a.len() - i,
    {
        let x = &a[i];
        let y = &b[i];
        let same = x.status == y.status && str_eq(x.path.as_str(), y.path.as_str()) && opt_str_eq(&x.old_path, &y.old_path)
            && x.added == y.added && x.deleted == y.deleted && x.is_binary == y.is_binary;
        if !same {
            assert(files_v(a@)[i as int] != files_v(b@)[i as int]);
            return false;
        }
        i += 1;
    }
    assert(files_v(a@) =~= files_v(b@));
    true
}

fn same_strings(a: &Vec<String>, b: &Vec<String>) -> (r: bool)
    ensures
        r == same_elems(strings_view(a@), strings_view(b@)),
{
    let mut i: usize = 0;
    while i < a.len()
        invariant
            i <= a.len(),
            forall|j: int| 0 <= j < i ==> strings_view(b@).contains(#[trigger] strings_view(a@)[j]),
        decreases a.len() - i,
    {
        if !crate::tree::contains_str(b, a[i].as_str()) {
            assert(strings_view(a@).contains(strings_view(a@)[i as int]));
            return false;
        }
        i += 1;
    }
    let mut k: usize = 0;
    while k < b.len()
        invariant
            k <= b.len(),
            forall|j: int| 0 <= j < a.len() ==> strings_view(b@).contains(#[trigger] strings_view(a@)[j]),
            forall|j: int| 0 <= j < k ==> strings_view(a@).contains(#[trigger] strings_view(b@)[j]),
        decreases b.len() - k,
    {
        if !crate::tree::contains_str(a, b[k].as_str()) {
            assert(strings_view(b@).contains(strings_view(b@)[k as int]));
            return false;
        }
        k += 1;
    }
    assert forall|x: Seq<char>| strings_view(a@).contains(x) <==> strings_view(b@).contains(x) by {
        if strings_view(a@).contains(x) {
            let j = choose|j: int| 0 <= j < strings_view(a@).len() && strings_view(a@)[j] == x;
            assert(strings_view(b@).contains(strings_view(a@)[j]));
        }
        if strings_view(b@).contains(x) {
            let j = choose|j: int| 0 <= j < strings_view(b@).len() && strings_view(b@)[j] == x;
            assert(strings_view(a@).contains(strings_view(b@)[j]));
        }
    }
    true
}

fn copy_files(v: &Vec<ChangedFile>) -> (r: Vec<ChangedFile>)
    ensures
        r@ == v@,
{
    let mut r: Vec<ChangedFile> = Vec::new();
    let mut i: usize = 0;
    while i < v.len()
        invariant
            i <= v.len(),
            r@ == v@.take(i as int),
        decreases v.len() - i,
    {
        r.push(v[i].duplicate());
        assert(r@ =~= v@.take(i + 1));
        i += 1;
    }
    assert(v@.take(v.len() as int) =~= v@);
    r
}

fn overlay_key_of(o: &Option<Overlay>) -> (r: OverlayKey)
    ensures
        okey_v(r) == overlay_v(*o),
{
    match o {
        None => OverlayKey::Closed,
        Some(Overlay::Help) => OverlayKey::Help,
        Some(Overlay::CommitPicker { commits, cursor }) => {
            let mut v: Vec<(String, String)> = Vec::new();
            let mut i: usize = 0;
            while i < commits.len()
                invariant
                    i <= commits.len(),
                    v.len() == i,
                    forall|j: int| 0 <= j < i ==> (#[trigger] v@[j]).0@ == commits@[j].short_hash@ && v@[j].1@ == commits@[j].title@,
                decreases commits.len() - i,
            {
                v.push((commits[i].short_hash.clone(), commits[i].title.clone()));
                i += 1;
            }
            assert(okey_v(OverlayKey::Picker { cursor: *cursor, commits: v }).2 =~= overlay_v(*o).2);
            OverlayKey::Picker { cursor: *cursor, commits: v }
        },
    }
}

fn okey_eq(a: &OverlayKey, b: &Option<Overlay>) -> (r: bool)
    ensures
        r == (okey_v(*a) == overlay_v(*b)),
{
    match (a, b) {
        (OverlayKey::Closed, None) => true,
        (OverlayKey::Help, Some(Overlay::Help)) => true,
        (OverlayKey::Picker { cursor: c1, commits: v }, Some(Overlay::CommitPicker { commits, cursor })) => {
            if *c1 != *cursor || v.len() != commits.len() {
                assert(okey_v(*a).2.len() == v.len());
                return false;
            }
            let ghost av = okey_v(*a).2;
            let ghost bv = overlay_v(*b).2;
            assert(forall|j: int| 0 <= j < v.len() ==> #[trigger] av[j] == (v@[j].0@, v@[j].1@));
            assert(forall|j: int| 0 <= j < commits.len() ==> #[trigger] bv[j] == (commits@[j].short_hash@, commits@[j].title@));
            let mut i: usize = 0;
            while i < v.len()
                invariant
                    av == okey_v(*a).2,
                    bv == overlay_v(*b).2,
                    v.len() == commits.len(),
                    av.len() == v.len(),
                    bv.len() == commits.len(),
                    forall|j: int| 0 <= j < v.len() ==> #[trigger] av[j] == (v@[j].0@, v@[j].1@),
                    forall|j: int| 0 <= j < commits.len() ==> #[trigger] bv[j] == (commits@[j].short_hash@, commits@[j].title@),
                    i <= v.len(),
                    forall|j: int| 0 <= j < i ==> av[j] == #[trigger] bv[j],
                decreases v.len() - i,
            {
                if !(str_eq(v[i].0.as_str(), commits[i].short_hash.as_str()) && str_eq(v[i].1.as_str(), commits[i].title.as_str())) {
                    assert(av[i as int] != bv[i as int]);
                    return false;
                }
                i += 1;
            }
            assert(okey_v(*a).2 =~= overlay_v(*b).2);
            true
        },
        _ => false,
    }
}

/// The frame state of a controller.
pub fn nav_key(c: &Controller) -> (k: NavKey)
    ensures
        records_frame(k, *c),
{
    NavKey {
        diff_file: match &c.diff_file {
            Some(f) => Some(f.path.clone()),
            None => None,
        },
        cursor: c.cursor,
        list_scroll: c.list_scroll,
        diff_cursor: c.diff_cursor,
        diff_vscroll: c.diff_vscroll,
        diff_hscroll: c.diff_hscroll,
        diff_rows_len: c.diff_rows.len(),
        mode: c.mode,
        selected_commit: copy_opt(&c.selected_commit),
        files: copy_files(&c.files),
        collapsed: crate::controller::copy_strings(&c.collapsed),
        sort: c.sort,
        filter: copy_opt(&c.filter),
        fold_unchanged: c.fold_unchanged,
        hunk_idx: c.hunk_idx,
        hunk_count: c.hunk_count,
        status: c.status.clone(),
        loading: c.loading,
        overlay: overlay_key_of(&c.overlay),
    }
}

/// Whether the frame drawn from `c` must be a full redraw, given the key of
/// the frame drawn before (see `redraw_needed`).
pub fn full_redraw_needed(before: &NavKey, c: &Controller) -> (r: bool)
    requires
        before.diff_cursor < usize::MAX,
        c.diff_cursor < usize::MAX,
    ensures
        r == redraw_needed(*before, *c),
{
    if !okey_eq(&before.overlay, &c.overlay) {
        return true;
    }
    let diff_moved = c.diff_cursor != before.diff_cursor || c.diff_vscroll != before.diff_vscroll || c.diff_hscroll
        != before.diff_hscroll || c.diff_rows.len() != before.diff_rows_len;
    let list_moved = c.cursor != before.cursor || c.list_scroll != before.list_scroll || !same_strings(&c.collapsed, &before.collapsed)
        || c.sort != before.sort || !opt_str_eq(&c.filter, &before.filter);
    let now_file: Option<String> = match &c.diff_file {
        Some(f) => Some(f.path.clone()),
        None => None,
    };
    let switched = !opt_str_eq(&now_file, &before.diff_file) || c.mode != before.mode || !files_eq(&c.files, &before.files)
        || !opt_str_eq(&c.selected_commit, &before.selected_commit);
    let other_moved = c.fold_unchanged != before.fold_unchanged || !str_eq(c.status.as_str(), before.status.as_str()) || c.loading
        != before.loading;
    let stats_shifted = digits(c.diff_cursor + 1) != digits(before.diff_cursor + 1) || digits(c.diff_rows.len()) != digits(
        before.diff_rows_len,
    ) || c.hunk_idx != before.hunk_idx || c.hunk_count != before.hunk_count;
    let diff_wide = diff_has_wide(c.diff_rows.as_slice());
    let rows = c.visible_rows();
    let list_wide = list_has_wide(rows.as_slice());
    proof {
        assert forall|i: int| 0 <= i < rows.len() implies row_name(rows@[i]) == row_path_of(#[trigger] c.rows()[i]) by {
            assert(c.rows()[i] == vrow_v(rows@[i]));
        }
        if list_wide {
            let i = choose|i: int| 0 <= i < rows.len() && has_wide(row_name(#[trigger] rows@[i]));
            assert(has_wide(row_path_of(c.rows()[i])));
        }
        if exists|i: int| 0 <= i < c.rows().len() && has_wide(row_path_of(#[trigger] c.rows()[i])) {
            let i = choose|i: int| 0 <= i < c.rows().len() && has_wide(row_path_of(#[trigger] c.rows()[i]));
            assert(has_wide(row_name(rows@[i])));
        }
    }
    let file_wide = match &c.diff_file {
        Some(f) => wide_str(f.path.as_str()),
        None => false,
    };
    let any_wide = diff_wide || list_wide || file_wide;
    (diff_moved && (diff_wide || stats_shifted)) || (list_moved && list_wide) || ((switched || other_moved) && any_wide)
}

// ------------------------------------------------------------ diff panes

/// One line of a diff pane: a diff row, or the marker standing for the
/// hidden middle of a folded run of unchanged rows, with the number of rows
/// it hides.
#[derive(Clone, Copy, Debug, PartialEq, Eq, Structural)]
pub enum PaneLine {
    Row(usize),
    Folded(usize),
}

/// The first row of the run of unchanged rows that holds row `i`.
pub open spec fn run_start(rows: Seq<AlignedRow>, i: int) -> int
    decreases i,
{
    if i > 0 && i - 1 < rows.len() && row_is_unchanged(rows[i - 1]) {
        run_start(rows, i - 1)
    } else {
        i
    }
}

/// The row after the run of unchanged rows that holds row `i`.
pub open spec fn run_end(rows: Seq<AlignedRow>, i: int) -> int
    decreases rows.len() - i,
{
    if 0 <= i < rows.len() && row_is_unchanged(rows[i]) {
        run_end(rows, i + 1)
    } else {
        i
    }
}

/// Whether row `i` lies in a run of unchanged rows that folding hides: longer
/// than `FOLD_MIN` and not holding the cursor.
pub open spec fn folds_at(rows: Seq<AlignedRow>, i: int, cursor: int) -> bool {
    let s = run_start(rows, i);
    let e = run_end(rows, i);
    &&& row_is_unchanged(rows[i])
    &&& e - s > FOLD_MIN
    &&& !(s <= cursor < e)
}

/// The lines of a pane of `budget` lines showing rows from `at` on. With
/// folding, a long run of unchanged rows not holding the cursor shows as its
/// first row, a marker for the rows between, and its last row.
pub open spec fn pane_from(rows: Seq<AlignedRow>, at: int, budget: int, cursor: int, fold: bool) -> Seq<PaneLine>
    decreases budget,
{
    if budget <= 0 || at < 0 || at >= rows.len() {
        Seq::<PaneLine>::empty()
    } else if fold && folds_at(rows, at, cursor) {
        let s = run_start(rows, at);
        let e = run_end(rows, at);
        if budget == 1 {
            seq![PaneLine::Row(s as usize)]
        } else if budget == 2 {
            seq![PaneLine::Row(s as usize), PaneLine::Folded((e - s - 2) as usize)]
        } else {
            seq![PaneLine::Row(s as usize), PaneLine::Folded((e - s - 2) as usize), PaneLine::Row((e - 1) as usize)] + pane_from(
                rows,
                e,
                budget - 3,
                cursor,
                fold,
            )
        }
    } else {
        seq![PaneLine::Row(at as usize)] + pane_from(rows, at + 1, budget - 1, cursor, fold)
    }
}

proof fn lemma_run_bounds(rows: Seq<AlignedRow>, i: int)
    requires
        0 <= i < rows.len(),
    ensures
        0 <= run_start(rows, i) <= i,
        i <= run_end(rows, i) <= rows.len(),
        row_is_unchanged(rows[i]) ==> i < run_end(rows, i),
    decreases rows.len() - i,
{
    lemma_run_start_bounds(rows, i);
    if row_is_unchanged(rows[i]) {
        if i + 1 < rows.len() {
            lemma_run_bounds(rows, i + 1);
        } else {
            assert(run_end(rows, i + 1) == i + 1);
        }
    }
}

proof fn lemma_run_start_bounds(rows: Seq<AlignedRow>, i: int)
    requires
        0 <= i <= rows.len(),
    ensures
        0 <= run_start(rows, i) <= i,
    decreases i,
{
    if i > 0 && row_is_unchanged(rows[i - 1]) {
        lemma_run_start_bounds(rows, i - 1);
    }
}

/// A pane never holds more lines than its height, and every row it shows
/// is a row of the diff.
pub proof fn lemma_pane_fits(rows: Seq<AlignedRow>, at: int, budget: int, cursor: int, fold: bool)
    requires
        budget >= 0,
    ensures
        pane_from(rows, at, budget, cursor, fold).len() <= budget,
        forall|k: int|
            0 <= k < pane_from(rows, at, budget, cursor, fold).len() ==> (#[trigger] pane_from(rows, at, budget, cursor, fold)[k] matches PaneLine::Row(i)
                ==> i < rows.len()),
    decreases budget,
{
    if budget <= 0 || at < 0 || at >= rows.len() {
    } else if fold && folds_at(rows, at, cursor) {
        lemma_run_bounds(rows, at);
        let s = run_start(rows, at);
        let e = run_end(rows, at);
        if budget >= 3 {
            lemma_pane_fits(rows, e, budget - 3, cursor, fold);
            let head = seq![PaneLine::Row(s as usize), PaneLine::Folded((e - s - 2) as usize), PaneLine::Row((e - 1) as usize)];
            let tail = pane_from(rows, e, budget - 3, cursor, fold);
            assert forall|k: int| 0 <= k < (head + tail).len() implies (#[trigger] (head + tail)[k] matches PaneLine::Row(i) ==> i < rows.len()) by {
                if k >= 3 {
                    assert((head + tail)[k] == tail[k - 3]);
                }
            }
        }
    } else {
        lemma_pane_fits(rows, at + 1, budget - 1, cursor, fold);
        let tail = pane_from(rows, at + 1, budget - 1, cursor, fold);
        assert forall|k: int| 0 <= k < (seq![PaneLine::Row(at as usize)] + tail).len() implies (#[trigger] (seq![PaneLine::Row(at as usize)] + tail)[k] matches PaneLine::Row(i)
            ==> i < rows.len()) by {
            if k >= 1 {
                assert((seq![PaneLine::Row(at as usize)] + tail)[k] == tail[k - 1]);
            }
        }
    }
}

proof fn lemma_run_end_is(rows: Seq<AlignedRow>, i: int, e: int)
    requires
        0 <= i <= e <= rows.len(),
        forall|j: int| i <= j < e ==> row_is_unchanged(#[trigger] rows[j]),
        e == rows.len() || !row_is_unchanged(rows[e]),
    ensures
        run_end(rows, i) == e,
    decreases e - i,
{
    if i < e {
        lemma_run_end_is(rows, i + 1, e);
    }
}

proof fn lemma_run_end_before(rows: Seq<AlignedRow>, i: int, j: int)
    requires
        0 <= i <= j < rows.len(),
        !row_is_unchanged(rows[j]),
    ensures
        run_end(rows, i) <= j,
    decreases j - i,
{
    if i < j && row_is_unchanged(rows[i]) {
        lemma_run_end_before(rows, i + 1, j);
    }
}

/// The walk from `at` reaches the run `s..e` and folds it.
proof fn lemma_pane_reaches_run(rows: Seq<AlignedRow>, at: int, budget: int, cursor: int, s: int, e: int)
    requires
        0 <= at <= s < e <= rows.len(),
        forall|j: int| s <= j < e ==> row_is_unchanged(#[trigger] rows[j]),
        e == rows.len() || !row_is_unchanged(rows[e]),
        s == 0 || !row_is_unchanged(rows[s - 1]),
        e - s > FOLD_MIN,
        cursor < s || cursor >= e,
        budget >= s - at + 3,
        (0 < at < rows.len() && row_is_unchanged(rows[at - 1]) && row_is_unchanged(rows[at])) ==> !folds_at(rows, at, cursor),
    ensures
        exists|k: int|
            0 <= k && k + 2 < pane_from(rows, at, budget, cursor, true).len() && #[trigger] pane_from(rows, at, budget, cursor, true)[k]
                == PaneLine::Row(s as usize) && pane_from(rows, at, budget, cursor, true)[k + 1] == PaneLine::Folded((e - s - 2) as usize)
                && pane_from(rows, at, budget, cursor, true)[k + 2] == PaneLine::Row((e - 1) as usize),
    decreases s - at,
{
    let pane = pane_from(rows, at, budget, cursor, true);
    if at == s {
        assert(run_start(rows, s) == s);
        lemma_run_end_is(rows, s, e);
        assert(row_is_unchanged(rows[s]));
        assert(folds_at(rows, s, cursor));
        assert(pane[0] == PaneLine::Row(s as usize));
    } else if folds_at(rows, at, cursor) {
        assert(run_start(rows, at) == at);
        lemma_run_end_before(rows, at, s - 1);
        let e2 = run_end(rows, at);
        lemma_run_bounds(rows, at);
        lemma_run_end_to(rows, at);
        lemma_pane_reaches_run(rows, e2, budget - 3, cursor, s, e);
        let tail = pane_from(rows, e2, budget - 3, cursor, true);
        let k = choose|k: int|
            0 <= k && k + 2 < tail.len() && #[trigger] tail[k] == PaneLine::Row(s as usize) && tail[k + 1] == PaneLine::Folded(
                (e - s - 2) as usize,
            ) && tail[k + 2] == PaneLine::Row((e - 1) as usize);
        let head = seq![PaneLine::Row(at as usize), PaneLine::Folded((e2 - at - 2) as usize), PaneLine::Row((e2 - 1) as usize)];
        assert(pane == head + tail);
        assert(pane[k + 3] == tail[k]);
        assert(pane[k + 4] == tail[k + 1]);
        assert(pane[k + 5] == tail[k + 2]);
    } else {
        if 0 < at + 1 < rows.len() && row_is_unchanged(rows[at]) && row_is_unchanged(rows[at + 1]) {
            assert(run_start(rows, at + 1) == run_start(rows, at));
            assert(run_end(rows, at) == run_end(rows, at + 1));
        }
        lemma_pane_reaches_run(rows, at + 1, budget - 1, cursor, s, e);
        let tail = pane_from(rows, at + 1, budget - 1, cursor, true);
        let k = choose|k: int|
            0 <= k && k + 2 < tail.len() && #[trigger] tail[k] == PaneLine::Row(s as usize) && tail[k + 1] == PaneLine::Folded(
                (e - s - 2) as usize,
            ) && tail[k + 2] == PaneLine::Row((e - 1) as usize);
        assert(pane == seq![PaneLine::Row(at as usize)] + tail);
        assert(pane[k + 1] == tail[k]);
        assert(pane[k + 2] == tail[k + 1]);
        assert(pane[k + 3] == tail[k + 2]);
    }
}

/// `run_end` lands past the run: on a changed row, or at the end.
proof fn lemma_run_end_to(rows: Seq<AlignedRow>, i: int)
    requires
        0 <= i <= rows.len(),
    ensures
        run_end(rows, i) == rows.len() || !row_is_unchanged(rows[run_end(rows, i)]),
        i <= run_end(rows, i) <= rows.len(),
    decreases rows.len() - i,
{
    if i < rows.len() && row_is_unchanged(rows[i]) {
        lemma_run_end_to(rows, i + 1);
    }
}

/// Whether the row shows a line on each side and both are unchanged.
pub open spec fn shows_unchanged(r: AlignedRow) -> bool {
    &&& r.original matches Some(c) && c.kind == LineKind::Equal
    &&& r.changed matches Some(c) && c.kind == LineKind::Equal
}

/// Folding a diff pane: a run of more than `FOLD_MIN` unchanged rows `s..e`
/// (rows `s - 1` and `e` changed, or the ends of the diff) that starts at or
/// after the first row shown and does not hold the cursor shows as its first
/// row, a marker for the `e - s - 2` rows between, and its last row, when
/// the pane has room for the rows before it and these three lines.
pub proof fn lemma_pane_folds_runs(rows: Seq<AlignedRow>, vscroll: int, height: int, cursor: int, s: int, e: int)
    requires
        0 <= vscroll <= s < e <= rows.len(),
        forall|j: int| s <= j < e ==> shows_unchanged(#[trigger] rows[j]),
        e == rows.len() || !shows_unchanged(rows[e]),
        s == 0 || !shows_unchanged(rows[s - 1]),
        e - s > FOLD_MIN,
        cursor < s || cursor >= e,
        height >= s - vscroll + 5,
    ensures
        exists|k: int|
            0 <= k && k + 2 < pane_from(rows, vscroll, height, cursor, true).len() && #[trigger] pane_from(
                rows,
                vscroll,
                height,
                cursor,
                true,
            )[k] == PaneLine::Row(s as usize) && pane_from(rows, vscroll, height, cursor, true)[k + 1] == PaneLine::Folded(
                (e - s - 2) as usize,
            ) && pane_from(rows, vscroll, height, cursor, true)[k + 2] == PaneLine::Row((e - 1) as usize),
{
    assert forall|j: int| s <= j < e implies row_is_unchanged(#[trigger] rows[j]) by {
        assert(shows_unchanged(rows[j]));
    }
    let at = vscroll;
    if 0 < at < rows.len() && row_is_unchanged(rows[at - 1]) && row_is_unchanged(rows[at]) && folds_at(rows, at, cursor) {
        // the first row shown lies inside a folded run that started above
        let e2 = run_end(rows, at);
        lemma_run_bounds(rows, at);
        lemma_run_end_to(rows, at);
        assert(at < s) by {
            if at == s {
                assert(!row_is_unchanged(rows[s - 1]));
            }
        }
        lemma_run_end_before(rows, at, s - 1);
        lemma_pane_reaches_run(rows, e2, height - 3, cursor, s, e);
        let pane = pane_from(rows, at, height, cursor, true);
        let tail = pane_from(rows, e2, height - 3, cursor, true);
        let k = choose|k: int|
            0 <= k && k + 2 < tail.len() && #[trigger] tail[k] == PaneLine::Row(s as usize) && tail[k + 1] == PaneLine::Folded(
                (e - s - 2) as usize,
            ) && tail[k + 2] == PaneLine::Row((e - 1) as usize);
        let st = run_start(rows, at);
        let head = seq![PaneLine::Row(st as usize), PaneLine::Folded((e2 - st - 2) as usize), PaneLine::Row((e2 - 1) as usize)];
        assert(pane == head + tail);
        assert(pane[k + 3] == tail[k]);
        assert(pane[k + 4] == tail[k + 1]);
        assert(pane[k + 5] == tail[k + 2]);
    } else {
        lemma_pane_reaches_run(rows, at, height, cursor, s, e);
    }
}

proof fn lemma_run_start_is(rows: Seq<AlignedRow>, i: int, s: int)
    requires
        0 <= s <= i <= rows.len(),
        forall|j: int| s <= j < i ==> row_is_unchanged(#[trigger] rows[j]),
        s == 0 || !row_is_unchanged(rows[s - 1]),
    ensures
        run_start(rows, i) == s,
    decreases i - s,
{
    if i > s {
        assert(row_is_unchanged(rows[i - 1]));
        lemma_run_start_is(rows, i - 1, s);
    }
}

/// Folding leaves the other rows alone: a changed row, or a row of a run of
/// unchanged rows `s..e` that holds the cursor or has at most `FOLD_MIN`
/// rows, shows as itself, and the pane goes on with the next row.
pub proof fn lemma_pane_keeps_row(rows: Seq<AlignedRow>, at: int, budget: int, cursor: int, s: int, e: int)
    requires
        0 <= s <= at < e <= rows.len(),
        budget >= 1,
        !shows_unchanged(rows[at]) || ({
            &&& forall|j: int| s <= j < e ==> shows_unchanged(#[trigger] rows[j])
            &&& e == rows.len() || !shows_unchanged(rows[e])
            &&& s == 0 || !shows_unchanged(rows[s - 1])
            &&& (s <= cursor < e || e - s <= FOLD_MIN)
        }),
    ensures
        pane_from(rows, at, budget, cursor, true) == seq![PaneLine::Row(at as usize)] + pane_from(rows, at + 1, budget - 1, cursor, true),
{
    if shows_unchanged(rows[at]) {
        assert forall|j: int| s <= j < e implies row_is_unchanged(#[trigger] rows[j]) by {
            assert(shows_unchanged(rows[j]));
        }
        lemma_run_start_is(rows, at, s);
        lemma_run_end_is(rows, at, e);
    }
    assert(!folds_at(rows, at, cursor));
}

fn run_start_exec(rows: &[AlignedRow], i: usize) -> (r: usize)
    requires
        i < rows.len(),
    ensures
        r == run_start(rows@, i as int),
{
    let mut s = i;
    while s > 0 && is_unchanged(&rows[s - 1])
        invariant
            s <= i < rows.len(),
            run_start(rows@, i as int) == run_start(rows@, s as int),
        decreases s,
    {
        s -= 1;
    }
    s
}

fn run_end_exec(rows: &[AlignedRow], i: usize) -> (r: usize)
    requires
        i < rows.len(),
    ensures
        r == run_end(rows@, i as int),
{
    let mut e = i;
    while e < rows.len() && is_unchanged(&rows[e])
        invariant
            i <= e <= rows.len(),
            run_end(rows@, i as int) == run_end(rows@, e as int),
        decreases rows.len() - e,
    {
        e += 1;
    }
    e
}

/// The lines a diff pane of `height` lines shows from row `vscroll` on (see
/// `pane_from`).
pub fn pane_lines(rows: &[AlignedRow], vscroll: usize, cursor: usize, fold: bool, height: usize) -> (r: Vec<PaneLine>)
    ensures
        r@ == pane_from(rows@, vscroll as int, height as int, cursor as int, fold),
{
    let mut out: Vec<PaneLine> = Vec::new();
    let mut at = vscroll;
    let mut left = height;
    assert(out@ + pane_from(rows@, vscroll as int, height as int, cursor as int, fold) =~= pane_from(
        rows@,
        vscroll as int,
        height as int,
        cursor as int,
        fold,
    ));
    while left > 0 && at < rows.len()
        invariant
            out@ + pane_from(rows@, at as int, left as int, cursor as int, fold) == pane_from(
                rows@,
                vscroll as int,
                height as int,
                cursor as int,
                fold,
            ),
        decreases left,
    {
        let ghost before = out@;
        let mut folded = false;
        if fold && is_unchanged(&rows[at]) {
            let start = run_start_exec(rows, at);
            let end = run_end_exec(rows, at);
            proof {
                lemma_run_bounds(rows@, at as int);
            }
            let cursor_in_run = cursor >= start && cursor < end;
            if end - start > FOLD_MIN && !cursor_in_run {
                folded = true;
                out.push(PaneLine::Row(start));
                if left == 1 {
                    left = 0;
                    assert(out@ + Seq::<PaneLine>::empty() =~= before + seq![PaneLine::Row(start)]);
                } else {
                    out.push(PaneLine::Folded(end - start - 2));
                    if left == 2 {
                        left = 0;
                        assert(out@ + Seq::<PaneLine>::empty() =~= before + seq![
                            PaneLine::Row(start),
                            PaneLine::Folded((end - start - 2) as usize),
                        ]);
                    } else {
                        out.push(PaneLine::Row(end - 1));
                        left = left - 3;
                        assert(before + (seq![
                            PaneLine::Row(start),
                            PaneLine::Folded((end - start - 2) as usize),
                            PaneLine::Row((end - 1) as usize),
                        ] + pane_from(rows@, end as int, left as int, cursor as int, fold)) =~= out@ + pane_from(
                            rows@,
                            end as int,
                            left as int,
                            cursor as int,
                            fold,
                        ));
                        at = end;
                    }
                }
            }
        }
        if !folded {
            out.push(PaneLine::Row(at));
            assert(before + (seq![PaneLine::Row(at)] + pane_from(rows@, at + 1, left - 1, cursor as int, fold)) =~= out@
                + pane_from(rows@, at + 1, left - 1, cursor as int, fold));
            left = left - 1;
            at = at + 1;
        }
    }
    proof {
        assert(pane_from(rows@, at as int, left as int, cursor as int, fold) =~= Seq::<PaneLine>::empty());
        assert(out@ + Seq::<PaneLine>::empty() =~= out@);
    }
    out
}

/// A piece of a diff cell as drawn: its text, whether the inline diff
/// marks it as changed, and whether it is the trailing blank run of the line.
#[derive(Debug)]
pub struct Fragment {
    pub text: String,
    pub emphasized: bool,
    pub trailing_space: bool,
}

/// The fragments of a cell: its inline fragments, or its whole text.
pub open spec fn cell_frags(c: Cell) -> Seq<(bool, Seq<char>)> {
    match c.inline {
        Some(v) => v@.map_values(|p: (bool, String)| (p.0, p.1@)),
        None => seq![(false, c.text@)],
    }
}

/// The fragments shown in `avail` columns once `skip` columns are
/// scrolled past, `used` columns being taken already: whole fragments
/// scrolled past are dropped, the first shown one loses its scrolled part,
/// and the one that does not fit is cut (see `truncate_spec`) and ends the
/// line.
pub open spec fn fit_frags(frags: Seq<(bool, Seq<char>)>, skip: int, used: int, avail: int) -> Seq<(bool, Seq<char>)>
    decreases frags.len(),
{
    if frags.len() == 0 {
        Seq::empty()
    } else {
        let e = frags[0].0;
        let t = frags[0].1;
        let tw = str_width(t);
        if tw <= skip {
            fit_frags(frags.drop_first(), skip - tw, used, avail)
        } else {
            let seg = if skip <= 0 { t } else { drop_columns(t, skip) };
            let sw = str_width(seg);
            let rem = if avail > used { avail - used } else { 0 };
            if sw > rem {
                seq![(e, truncate_spec(seg, rem as usize))]
            } else if used + sw >= avail {
                seq![(e, seg)]
            } else {
                seq![(e, seg)] + fit_frags(frags.drop_first(), 0, used + sw, avail)
            }
        }
    }
}

/// `s` without its trailing spaces and tabs.
pub open spec fn trim_blank_end(s: Seq<char>) -> Seq<char>
    decreases s.len(),
{
    if s.len() > 0 && (s.last() == ' ' || s.last() == '\t') {
        trim_blank_end(s.drop_last())
    } else {
        s
    }
}

/// The pieces drawn for fitted fragments: the same, except that a trailing
/// run of spaces and tabs of the last one is split off and marked.
pub open spec fn mark_trailing(f: Seq<(bool, Seq<char>)>) -> Seq<(bool, bool, Seq<char>)> {
    let plain = f.map_values(|p: (bool, Seq<char>)| (p.0, false, p.1));
    if f.len() == 0 {
        plain
    } else {
        let last = f.last();
        let clean = trim_blank_end(last.1);
        if clean.len() < last.1.len() {
            plain.drop_last() + seq![(last.0, false, clean), (last.0, true, last.1.skip(clean.len() as int))]
        } else {
            plain
        }
    }
}

/// A fragment as values.
pub open spec fn fragment_v(f: Fragment) -> (bool, bool, Seq<char>) {
    (f.emphasized, f.trailing_space, f.text@)
}

fn trim_blank_end_len(v: &Vec<char>) -> (r: usize)
    ensures
        r == trim_blank_end(v@).len(),
        v@.take(r as int) == trim_blank_end(v@),
        r <= v.len(),
{
    let mut n = v.len();
    assert(v@.take(n as int) =~= v@);
    while n > 0 && (v[n - 1] == ' ' || v[n - 1] == '\t')
        invariant
            n <= v.len(),
            trim_blank_end(v@) == trim_blank_end(v@.take(n as int)),
        decreases n,
    {
        assert(v@.take(n as int).drop_last() =~= v@.take(n - 1));
        n -= 1;
    }
    n
}

/// The pieces of a diff cell drawn in `avail` columns, scrolled `hscroll`
/// columns to the right (see `fit_frags` and `mark_trailing`).
pub fn visible_fragments(cell: &Cell, avail: usize, hscroll: usize) -> (r: Vec<Fragment>)
    ensures
        r@.map_values(|f: Fragment| fragment_v(f)) == mark_trailing(fit_frags(cell_frags(*cell), hscroll as int, 0, avail as int)),
{
    let mut frags: Vec<(bool, String)> = Vec::new();
    match &cell.inline {
        Some(v) => {
            let mut i: usize = 0;
            while i < v.len()
                invariant
                    i <= v.len(),
                    frags.len() == i,
                    forall|j: int| 0 <= j < i ==> (#[trigger] frags@[j]).0 == v@[j].0 && frags@[j].1@ == v@[j].1@,
                decreases v.len() - i,
            {
                frags.push((v[i].0, v[i].1.clone()));
                i += 1;
            }
        },
        None => {
            frags.push((false, cell.text.clone()));
        },
    }
    let ghost fr = cell_frags(*cell);
    assert(frags@.map_values(|p: (bool, String)| (p.0, p.1@)) =~= fr);
    let mut out: Vec<(bool, String)> = Vec::new();
    let mut skip = hscroll;
    let mut used: usize = 0;
    let mut i: usize = 0;
    let mut stop = false;
    assert(fr.skip(0) =~= fr);
    assert(out@.map_values(|p: (bool, String)| (p.0, p.1@)) + fit_frags(fr, hscroll as int, 0, avail as int) =~= fit_frags(
        fr,
        hscroll as int,
        0,
        avail as int,
    ));
    while i < frags.len() && !stop
        invariant
            fr == frags@.map_values(|p: (bool, String)| (p.0, p.1@)),
            i <= frags.len(),
            used <= avail,
            out@.map_values(|p: (bool, String)| (p.0, p.1@)) + (if stop { Seq::empty() } else { fit_frags(
                fr.skip(i as int),
                skip as int,
                used as int,
                avail as int,
            ) }) == fit_frags(fr, hscroll as int, 0, avail as int),
        decreases frags.len() - i + if stop { 0int } else { 1int },
    {
        let ghost before = out@.map_values(|p: (bool, String)| (p.0, p.1@));
        assert(fr.skip(i as int)[0] == (frags@[i as int].0, frags@[i as int].1@));
        assert(fr.skip(i as int).drop_first() =~= fr.skip(i + 1));
        let e = frags[i].0;
        let tw = text_width(frags[i].1.as_str());
        if tw <= skip {
            skip = skip - tw;
        } else {
            let seg = skip_columns(frags[i].1.as_str(), skip);
            skip = 0;
            let sw = text_width(seg.as_str());
            let rem = avail - used;
            if sw > rem {
                let t = truncate(seg.as_str(), rem);
                out.push((e, t));
                stop = true;
                assert(out@.map_values(|p: (bool, String)| (p.0, p.1@)) =~= before.push((e, t@)));
                assert(before + seq![(e, t@)] =~= before.push((e, t@)));
                assert(out@.map_values(|p: (bool, String)| (p.0, p.1@)) + Seq::empty() =~= out@.map_values(
                    |p: (bool, String)| (p.0, p.1@),
                ));
            } else {
                used = used + sw;
                out.push((e, seg));
                assert(out@.map_values(|p: (bool, String)| (p.0, p.1@)) =~= before.push((e, seg@)));
                if used >= avail {
                    stop = true;
                    assert(before + seq![(e, seg@)] =~= before.push((e, seg@)));
                    assert(out@.map_values(|p: (bool, String)| (p.0, p.1@)) + Seq::empty() =~= out@.map_values(
                        |p: (bool, String)| (p.0, p.1@),
                    ));
                } else {
                    assert(before + (seq![(e, seg@)] + fit_frags(fr.skip(i + 1), 0, used as int, avail as int)) =~= out@.map_values(
                        |p: (bool, String)| (p.0, p.1@),
                    ) + fit_frags(fr.skip(i + 1), 0, used as int, avail as int));
                }
            }
        }
        i += 1;
    }
    if !stop {
        assert(fr.skip(i as int) =~= Seq::<(bool, Seq<char>)>::empty());
        assert(out@.map_values(|p: (bool, String)| (p.0, p.1@)) + Seq::empty() =~= out@.map_values(|p: (bool, String)| (p.0, p.1@)));
    }
    let ghost fitted = out@.map_values(|p: (bool, String)| (p.0, p.1@));
    let mut pieces: Vec<Fragment> = Vec::new();
    let n = out.len();
    let mut k: usize = 0;
    while k + 1 < n
        invariant
            n == out.len(),
            fitted == out@.map_values(|p: (bool, String)| (p.0, p.1@)),
            k <= n,
            n > 0 ==> k < n,
            pieces.len() == k,
            forall|j: int| 0 <= j < k ==> fragment_v(#[trigger] pieces@[j]) == (fitted[j].0, false, fitted[j].1),
        decreases n - k,
    {
        pieces.push(Fragment { text: out[k].1.clone(), emphasized: out[k].0, trailing_space: false });
        k += 1;
    }
    if n > 0 {
        let last = &out[n - 1];
        let v = chars_of(last.1.as_str());
        let cut = trim_blank_end_len(&v);
        if cut < v.len() {
            pieces.push(Fragment { text: string_of_range(&v, 0, cut), emphasized: last.0, trailing_space: false });
            pieces.push(Fragment { text: string_of_range(&v, cut, v.len()), emphasized: last.0, trailing_space: true });
            proof {
                assert(v@.subrange(0, cut as int) =~= v@.take(cut as int));
                assert(v@.subrange(cut as int, v.len() as int) =~= v@.skip(cut as int));
            }
        } else {
            pieces.push(Fragment { text: last.1.clone(), emphasized: last.0, trailing_space: false });
        }
    }
    assert(pieces@.map_values(|f: Fragment| fragment_v(f)) =~= mark_trailing(fitted));
    pieces
}

/// The texts of a line of pieces fitted to `avail` columns, `used` being
/// taken: whole pieces while they fit, then the first that does not, cut
/// with `…`.
pub open spec fn fit_texts_spec(ts: Seq<Seq<char>>, used: int, avail: int) -> Seq<Seq<char>>
    decreases ts.len(),
{
    if ts.len() == 0 || used >= avail {
        Seq::empty()
    } else if used + str_width(ts[0]) <= avail {
        seq![ts[0]] + fit_texts_spec(ts.drop_first(), used + str_width(ts[0]), avail)
    } else {
        seq![truncate_spec(ts[0], (avail - used) as usize)]
    }
}

/// Fits the texts of a line of pieces into `avail` columns; the result has
/// one text per piece kept, in order.
pub fn fit_texts(texts: &Vec<String>, avail: usize) -> (r: Vec<String>)
    ensures
        strings_view(r@) == fit_texts_spec(strings_view(texts@), 0, avail as int),
{
    let ghost ts = strings_view(texts@);
    let mut out: Vec<String> = Vec::new();
    let mut used: usize = 0;
    let mut i: usize = 0;
    let mut stop = false;
    assert(ts.skip(0) =~= ts);
    assert(strings_view(out@) + fit_texts_spec(ts, 0, avail as int) =~= fit_texts_spec(ts, 0, avail as int));
    while i < texts.len() && !stop
        invariant
            ts == strings_view(texts@),
            i <= texts.len(),
            used <= avail,
            strings_view(out@) + (if stop { Seq::empty() } else { fit_texts_spec(ts.skip(i as int), used as int, avail as int) })
                == fit_texts_spec(ts, 0, avail as int),
        decreases texts.len() - i + if stop { 0int } else { 1int },
    {
        let ghost before = strings_view(out@);
        assert(ts.skip(i as int)[0] == texts@[i as int]@);
        assert(ts.skip(i as int).drop_first() =~= ts.skip(i + 1));
        if used >= avail {
            stop = true;
            assert(before + Seq::empty() =~= before);
        } else {
            let tw = text_width(texts[i].as_str());
            if tw <= avail - used {
                out.push(texts[i].clone());
                assert(strings_view(out@) =~= before.push(texts@[i as int]@));
                assert(before + (seq![texts@[i as int]@] + fit_texts_spec(ts.skip(i + 1), used + tw, avail as int)) =~= strings_view(
                    out@,
                ) + fit_texts_spec(ts.skip(i + 1), used + tw, avail as int));
                used = used + tw;
                i += 1;
            } else {
                let t = truncate(texts[i].as_str(), avail - used);
                out.push(t);
                stop = true;
                assert(strings_view(out@) =~= before.push(t@));
                assert(before + seq![t@] =~= strings_view(out@));
                assert(strings_view(out@) + Seq::empty() =~= strings_view(out@));
            }
        }
    }
    if !stop {
        assert(ts.skip(i as int) =~= Seq::<Seq<char>>::empty());
        assert(strings_view(out@) + Seq::empty() =~= strings_view(out@));
    }
    out
}

/// The text a diff row is measured by: its original side, else its
/// changed side.
pub open spec fn row_text(r: AlignedRow) -> Option<Seq<char>> {
    match r.original {
        Some(c) => Some(c.text@),
        None => match r.changed {
            Some(c) => Some(c.text@),
            None => None,
        },
    }
}

/// The widest row text among the first `n` rows (0 for none).
pub open spec fn max_width_upto(rows: Seq<AlignedRow>, n: int) -> nat
    decreases n,
{
    if n <= 0 {
        0
    } else {
        let w: nat = match row_text(rows[n - 1]) {
            Some(t) => str_width(t) as nat,
            None => 0,
        };
        let m = max_width_upto(rows, n - 1);
        if w > m { w } else { m }
    }
}

/// The width of the widest line of a diff, measured on each row's original
/// side, else its changed side.
pub fn max_line_width(rows: &[AlignedRow]) -> (r: usize)
    ensures
        r == max_width_upto(rows@, rows.len() as int),
{
    let mut m: usize = 0;
    let mut i: usize = 0;
    while i < rows.len()
        invariant
            i <= rows.len(),
            m == max_width_upto(rows@, i as int),
        decreases rows.len() - i,
    {
        let w = match &rows[i].original {
            Some(c) => text_width(c.text.as_str()),
            None => match &rows[i].changed {
                Some(c) => text_width(c.text.as_str()),
                None => 0,
            },
        };
        if w > m {
            m = w;
        }
        i += 1;
    }
    m
}

// ------------------------------------------------------------ commit list

/// The first row of a list of `len` rows drawn in `visible` rows so that
/// row `cursor` is the last one shown, or as near the top as the end of the
/// list allows.
pub open spec fn window_start_spec(cursor: usize, visible: usize, len: usize) -> int {
    let back: int = if visible >= 1 { visible - 1 } else { 0 };
    let want: int = if cursor >= back { cursor - back } else { 0 };
    let max_start: int = if len >= visible { len - visible } else { 0 };
    if want < max_start { want } else { max_start }
}

/// The first commit drawn when `visible` rows of the picker show a list of
/// `len` commits with `cursor` selected. A selected commit inside the list
/// is always among the rows drawn.
pub fn commit_window_start(cursor: usize, visible: usize, len: usize) -> (start: usize)
    ensures
        start == window_start_spec(cursor, visible, len),
        cursor < len && visible > 0 ==> start <= cursor < start + visible,
{
    let want = cursor.saturating_sub(visible.saturating_sub(1));
    let max_start = len.saturating_sub(visible);
    if want < max_start { want } else { max_start }
}

/// The widest of the first `n` texts (0 for none).
pub open spec fn widest_upto(ts: Seq<Seq<char>>, n: int) -> nat
    decreases n,
{
    if n <= 0 {
        0
    } else {
        let w = str_width(ts[n - 1]) as nat;
        let m = widest_upto(ts, n - 1);
        if w > m { w } else { m }
    }
}

/// The titles of a list of commits.
pub open spec fn titles_of(commits: Seq<CommitEntry>) -> Seq<Seq<char>> {
    commits.map_values(|c: CommitEntry| c.title@)
}

/// The author names of a list of commits.
pub open spec fn authors_of(commits: Seq<CommitEntry>) -> Seq<Seq<char>> {
    commits.map_values(|c: CommitEntry| c.author@)
}

/// The column widths of the commit picker: the widest title, and the widest
/// author name but at most `author_cap` columns.
pub fn commit_column_widths(commits: &[CommitEntry], author_cap: usize) -> (r: (usize, usize))
    ensures
        r.0 == widest_upto(titles_of(commits@), commits.len() as int),
        r.1 == if widest_upto(authors_of(commits@), commits.len() as int) <= author_cap {
            widest_upto(authors_of(commits@), commits.len() as int)
        } else {
            author_cap as nat
        },
{
    let mut title_w: usize = 0;
    let mut author_w: usize = 0;
    let mut i: usize = 0;
    while i < commits.len()
        invariant
            i <= commits.len(),
            title_w == widest_upto(titles_of(commits@), i as int),
            author_w == widest_upto(authors_of(commits@), i as int),
        decreases commits.len() - i,
    {
        let tw = text_width(commits[i].title.as_str());
        let aw = text_width(commits[i].author.as_str());
        assert(titles_of(commits@)[i as int] == commits@[i as int].title@);
        assert(authors_of(commits@)[i as int] == commits@[i as int].author@);
        if tw > title_w {
            title_w = tw;
        }
        if aw > author_w {
            author_w = aw;
        }
        i += 1;
    }
    (title_w, if author_w <= author_cap { author_w } else { author_cap })
}

// ------------------------------------------------------------ wrapping

/// The lines a text wraps into, one character at a time, when the line
/// being filled holds `cur`, `cur_w` columns wide: a character that would
/// push a started line past `width` columns begins the next line. A last
/// line of no width is dropped.
pub open spec fn wrap_from(s: Seq<char>, width: int, cur: Seq<char>, cur_w: int) -> Seq<Seq<char>>
    decreases s.len(),
{
    if s.len() == 0 {
        if cur_w > 0 { seq![cur] } else { Seq::empty() }
    } else if cur_w > 0 && cur_w + char_width(s[0]) > width {
        seq![cur] + wrap_from(s.drop_first(), width, seq![s[0]], char_width(s[0]) as int)
    } else {
        wrap_from(s.drop_first(), width, cur.push(s[0]), cur_w + char_width(s[0]))
    }
}

/// A text wrapped to `width` columns; for width 0, the text as one line.
pub open spec fn wrap_spec(s: Seq<char>, width: usize) -> Seq<Seq<char>> {
    if width == 0 {
        seq![s]
    } else {
        wrap_from(s, width as int, Seq::empty(), 0)
    }
}

/// Wraps a line to a display width, character by character, so that a wide
/// glyph is never split.
pub fn wrap_line(s: &str, width: usize) -> (r: Vec<String>)
    ensures
        strings_view(r@) == wrap_spec(s@, width),
{
    if width == 0 {
        let r = vec![s.to_owned()];
        assert(strings_view(r@) =~= seq![s@]);
        return r;
    }
    let v = chars_of(s);
    let mut out: Vec<String> = Vec::new();
    let mut cur = String::new();
    let mut cur_w: usize = 0;
    let mut i: usize = 0;
    assert(s@.skip(0) =~= s@);
    assert(strings_view(out@) =~= Seq::<Seq<char>>::empty());
    while i < v.len()
        invariant
            v@ == s@,
            i <= v.len(),
            width > 0,
            strings_view(out@) + wrap_from(s@.skip(i as int), width as int, cur@, cur_w as int)
                == wrap_spec(s@, width),
        decreases v.len() - i,
    {
        let c = v[i];
        let cw = char_str_width(c);
        let ghost before = strings_view(out@);
        assert(s@.skip(i as int)[0] == c);
        assert(s@.skip(i as int).drop_first() =~= s@.skip(i + 1));
        let breaks = cur_w > 0 && (cur_w > width || cw > width - cur_w);
        if breaks {
            let line = cur;
            out.push(line);
            assert(strings_view(out@) =~= before.push(line@));
            assert(before + (seq![line@] + wrap_from(s@.skip(i + 1), width as int, seq![c], cw as int)) =~= strings_view(
                out@,
            ) + wrap_from(s@.skip(i + 1), width as int, seq![c], cw as int));
            cur = String::new();
            push_char(&mut cur, c);
            assert(cur@ =~= seq![c]);
            cur_w = cw;
        } else {
            push_char(&mut cur, c);
            cur_w = cur_w + cw;
        }
        i += 1;
    }
    assert(s@.skip(i as int) =~= Seq::<char>::empty());
    if cur_w > 0 {
        let ghost before = strings_view(out@);
        out.push(cur);
        assert(strings_view(out@) =~= before + seq![cur@]);
    } else {
        assert(strings_view(out@) + Seq::empty() =~= strings_view(out@));
    }
    out
}

/// The columns a text takes, character by character.
pub open spec fn columns(s: Seq<char>) -> int
    decreases s.len(),
{
    if s.len() == 0 {
        0
    } else {
        columns(s.drop_last()) + char_width(s.last())
    }
}

/// Whether a wrapped line fits `width` columns, or else ends in the one
/// glyph wider than `width` with nothing of any width before it.
pub open spec fn line_fits(l: Seq<char>, width: int) -> bool {
    columns(l) <= width || (l.len() > 0 && columns(l.drop_last()) == 0)
}

proof fn lemma_columns_one(c: char)
    ensures
        columns(seq![c]) == char_width(c),
        seq![c].drop_last() =~= Seq::<char>::empty(),
{
    assert(seq![c].drop_last() =~= Seq::<char>::empty());
    assert(columns(Seq::<char>::empty()) == 0);
}

proof fn lemma_columns_push(cur: Seq<char>, c: char)
    ensures
        columns(cur.push(c)) == columns(cur) + char_width(c),
        cur.push(c).drop_last() =~= cur,
{
    assert(cur.push(c).drop_last() =~= cur);
}

proof fn lemma_wrap_from_keeps(s: Seq<char>, width: int, cur: Seq<char>, cur_w: int) -> (t: Seq<char>)
    requires
        cur_w == columns(cur),
        cur_w >= 0,
    ensures
        wrap_from(s, width, cur, cur_w).flatten() + t == cur + s,
        columns(t) == 0,
    decreases s.len(),
{
    if s.len() == 0 {
        if cur_w > 0 {
            seq![cur].lemma_flatten_one_element();
            assert(seq![cur].flatten() + Seq::<char>::empty() =~= cur + s);
            assert(columns(Seq::<char>::empty()) == 0);
            Seq::empty()
        } else {
            assert(Seq::<Seq<char>>::empty().flatten() + cur =~= cur + s);
            cur
        }
    } else {
        let c = s[0];
        let cw = char_width(c) as int;
        if cur_w > 0 && cur_w + cw > width {
            lemma_columns_one(c);
            let t = lemma_wrap_from_keeps(s.drop_first(), width, seq![c], cw);
            let rest = wrap_from(s.drop_first(), width, seq![c], cw);
            assert((seq![cur] + rest).drop_first() =~= rest);
            assert((seq![cur] + rest).first() == cur);
            assert((seq![cur] + rest).flatten() + t =~= cur + (rest.flatten() + t));
            assert(cur + (seq![c] + s.drop_first()) =~= cur + s);
            t
        } else {
            lemma_columns_push(cur, c);
            let t = lemma_wrap_from_keeps(s.drop_first(), width, cur.push(c), cur_w + cw);
            assert(cur.push(c) + s.drop_first() =~= cur + s);
            t
        }
    }
}

/// Wrapping loses no text that takes any room: the lines, read one after
/// the other, are the text itself, less at most a tail of zero-width
/// characters.
pub proof fn lemma_wrap_keeps_text(s: Seq<char>, width: usize)
    ensures
        ({
            let kept = wrap_spec(s, width).flatten();
            &&& kept.len() <= s.len()
            &&& kept == s.take(kept.len() as int)
            &&& columns(s.skip(kept.len() as int)) == 0
        }),
{
    if width == 0 {
        seq![s].lemma_flatten_one_element();
        assert(s.take(s.len() as int) =~= s);
        assert(s.skip(s.len() as int) =~= Seq::<char>::empty());
    } else {
        let t = lemma_wrap_from_keeps(s, width as int, Seq::empty(), 0);
        let kept = wrap_spec(s, width).flatten();
        assert(Seq::<char>::empty() + s =~= s);
        assert(kept + t == s);
        assert(kept =~= s.take(kept.len() as int));
        assert(t =~= s.skip(kept.len() as int));
    }
}

proof fn lemma_wrap_from_fits(s: Seq<char>, width: int, cur: Seq<char>, cur_w: int)
    requires
        cur_w == columns(cur),
        cur_w >= 0,
        line_fits(cur, width),
        cur_w > 0 ==> cur.len() > 0,
    ensures
        forall|j: int| 0 <= j < wrap_from(s, width, cur, cur_w).len() ==> line_fits(#[trigger] wrap_from(s, width, cur, cur_w)[j], width),
    decreases s.len(),
{
    if s.len() == 0 {
        if cur_w > 0 {
            assert(wrap_from(s, width, cur, cur_w) == seq![cur]);
            assert(seq![cur][0] == cur);
        }
    } else {
        let c = s[0];
        let cw = char_width(c) as int;
        if cur_w > 0 && cur_w + cw > width {
            lemma_columns_one(c);
            lemma_wrap_from_fits(s.drop_first(), width, seq![c], cw);
            let rest = wrap_from(s.drop_first(), width, seq![c], cw);
            assert(wrap_from(s, width, cur, cur_w) == seq![cur] + rest);
            assert forall|j: int| 0 <= j < (seq![cur] + rest).len() implies line_fits(#[trigger] (seq![cur] + rest)[j], width) by {
                if j > 0 {
                    assert((seq![cur] + rest)[j] == rest[j - 1]);
                }
            }
        } else {
            lemma_columns_push(cur, c);
            lemma_wrap_from_fits(s.drop_first(), width, cur.push(c), cur_w + cw);
            assert(wrap_from(s, width, cur, cur_w) == wrap_from(s.drop_first(), width, cur.push(c), cur_w + cw));
        }
    }
}

/// Every line of a wrap to a positive width fits the width, but for a line
/// that ends in a single glyph wider than the width.
pub proof fn lemma_wrap_lines_fit(s: Seq<char>, width: usize)
    requires
        width > 0,
    ensures
        forall|j: int| 0 <= j < wrap_spec(s, width).len() ==> line_fits(#[trigger] wrap_spec(s, width)[j], width as int),
{
    assert(columns(Seq::<char>::empty()) == 0);
    lemma_wrap_from_fits(s, width as int, Seq::empty(), 0);
}


// ------------------------------------------------------------ status line

/// What a piece of the status line shows; the front end styles it.
#[derive(Clone, Copy, Debug, PartialEq, Eq, Structural)]
pub enum StatusRole {
    /// The mode tag.
    Mode,
    /// A plain space.
    Space,
    /// The loading notice.
    Loading,
    /// A status message (an error or a notice).
    Message,
    /// The shown file's path.
    FilePath,
    /// The shown file's line counts.
    Counts,
    /// A separator between pieces.
    Separator,
    /// The folding flag.
    Fold,
    /// The sort order.
    Sort,
    /// The filter being typed.
    Filter,
    /// A key in the hints.
    Key,
    /// Quiet text: what a key does, or the hint to pick a file.
    Dim,
}

/// A piece of text with its role.
pub type StatusPiece = (String, StatusRole);

/// A piece as values.
pub open spec fn piece_v(p: StatusPiece) -> (Seq<char>, StatusRole) {
    (p.0@, p.1)
}

pub open spec fn pieces_v(ps: Seq<StatusPiece>) -> Seq<(Seq<char>, StatusRole)> {
    ps.map_values(|p: StatusPiece| piece_v(p))
}

/// The texts of pieces.
pub open spec fn piece_texts(ps: Seq<(Seq<char>, StatusRole)>) -> Seq<Seq<char>> {
    ps.map_values(|p: (Seq<char>, StatusRole)| p.0)
}

/// The roles of pieces.
pub open spec fn piece_roles(ps: Seq<(Seq<char>, StatusRole)>) -> Seq<StatusRole> {
    ps.map_values(|p: (Seq<char>, StatusRole)| p.1)
}

/// The status line: the left pieces fitted beside the hints, the spaces
/// that fill the gap, and the hints anchored at the right edge.
pub struct StatusLine {
    pub left: Vec<StatusPiece>,
    pub pad: usize,
    pub right: Vec<StatusPiece>,
}

/// The tag of a mode in the status line.
pub open spec fn mode_tag(m: ComparisonMode) -> Seq<char> {
    match m {
        ComparisonMode::WorkingVsHead => "[模式A]"@,
        ComparisonMode::StagedVsHead => "[模式B]"@,
        ComparisonMode::StagedVsWorking => "[模式C]"@,
        ComparisonMode::CommitVsHead => "[模式D]"@,
    }
}

/// The separator between status pieces.
pub open spec fn status_sep() -> (Seq<char>, StatusRole) {
    (" │ "@, StatusRole::Separator)
}

/// The pieces about the shown file: its path and counts, then the folding
/// flag and the sort order when they are not the defaults.
pub open spec fn file_pieces(f: ChangedFile, fold: bool, sort: SortMode) -> Seq<(Seq<char>, StatusRole)> {
    let base = seq![
        (f.path@ + "  "@, StatusRole::FilePath),
        ("+"@ + decimal(f.added as nat) + " -"@ + decimal(f.deleted as nat), StatusRole::Counts),
    ];
    let with_fold = if fold {
        base + seq![status_sep(), ("折叠"@, StatusRole::Fold)]
    } else {
        base
    };
    match sort {
        SortMode::Path => with_fold,
        SortMode::Status => with_fold + seq![status_sep(), ("排序: 按状态"@, StatusRole::Sort)],
        SortMode::Added => with_fold + seq![status_sep(), ("排序: 按增行"@, StatusRole::Sort)],
    }
}

/// The left pieces of the status line: the mode tag, then the loading
/// notice, else the status message, else the shown file, else a hint to
/// pick one; and the filter being typed after them.
pub open spec fn status_pieces(c: &Controller) -> Seq<(Seq<char>, StatusRole)> {
    let head = seq![(mode_tag(c.mode), StatusRole::Mode), (" "@, StatusRole::Space)];
    let body = if c.loading {
        seq![("loading..."@, StatusRole::Loading)]
    } else if c.status@.len() > 0 {
        seq![(c.status@, StatusRole::Message)]
    } else {
        match c.diff_file {
            Some(f) => file_pieces(f, c.fold_unchanged, c.sort),
            None => seq![("select a file"@, StatusRole::Dim)],
        }
    };
    match c.filter {
        Some(f) => head + body + seq![status_sep(), ("/ "@ + f@, StatusRole::Filter)],
        None => head + body,
    }
}

/// The hints at the right of the status line: how to leave the filter
/// while one is typed, else the main keys.
pub open spec fn hint_pieces(filtering: bool) -> Seq<(Seq<char>, StatusRole)> {
    if filtering {
        seq![("│ [Esc]"@, StatusRole::Key), ("取消"@, StatusRole::Dim)]
    } else {
        seq![
            ("[Tab]"@, StatusRole::Key),
            ("焦点"@, StatusRole::Dim),
            ("[1-4]"@, StatusRole::Key),
            ("模式"@, StatusRole::Dim),
            ("[↑↓]"@, StatusRole::Key),
            ("移动"@, StatusRole::Dim),
            ("[Pg]"@, StatusRole::Key),
            ("翻页"@, StatusRole::Dim),
            ("[s]"@, StatusRole::Key),
            ("排序"@, StatusRole::Dim),
            ("[n/m]"@, StatusRole::Key),
            ("hunk"@, StatusRole::Dim),
            ("[z]"@, StatusRole::Key),
            ("折叠"@, StatusRole::Dim),
            ("[?]"@, StatusRole::Key),
            ("帮助"@, StatusRole::Dim),
            ("[q]"@, StatusRole::Key),
            ("退出"@, StatusRole::Dim),
        ]
    }
}

/// The total width of texts.
pub open spec fn texts_width(ts: Seq<Seq<char>>) -> int
    decreases ts.len(),
{
    if ts.len() == 0 {
        0
    } else {
        texts_width(ts.drop_last()) + str_width(ts.last())
    }
}

/// `a - b`, or 0 when `b` is larger.
pub open spec fn sat_diff(a: int, b: int) -> int {
    if a >= b {
        a - b
    } else {
        0
    }
}

/// The columns left for the left pieces on a line of `width` columns whose
/// hints take `hints` columns: the hints start one column before the
/// right edge (and not before the second column), and one column is kept
/// free before them.
pub open spec fn left_avail(width: int, hints: int) -> int {
    sat_diff(width, hints + 2)
}

/// `from` less the total width of `texts`, or 0 when they are wider.
fn width_left(texts: &Vec<String>, from: usize) -> (r: usize)
    ensures
        r == sat_diff(from as int, texts_width(strings_view(texts@))),
{
    let ghost ts = strings_view(texts@);
    let mut left = from;
    let mut i: usize = 0;
    while i < texts.len()
        invariant
            ts == strings_view(texts@),
            i <= texts.len(),
            left == sat_diff(from as int, texts_width(ts.take(i as int))),
        decreases texts.len() - i,
    {
        let tw = text_width(texts[i].as_str());
        assert(ts.take(i + 1).drop_last() =~= ts.take(i as int));
        assert(ts.take(i + 1).last() == texts@[i as int]@);
        left = if left >= tw { left - tw } else { 0 };
        i += 1;
    }
    assert(ts.take(i as int) =~= ts);
    left
}

/// The texts of pieces, in order.
fn texts_of(ps: &Vec<StatusPiece>) -> (r: Vec<String>)
    ensures
        strings_view(r@) == piece_texts(pieces_v(ps@)),
{
    let mut r: Vec<String> = Vec::new();
    let mut i: usize = 0;
    while i < ps.len()
        invariant
            i <= ps.len(),
            strings_view(r@) == piece_texts(pieces_v(ps@)).take(i as int),
        decreases ps.len() - i,
    {
        r.push(ps[i].0.clone());
        assert(piece_texts(pieces_v(ps@)).take(i + 1) =~= piece_texts(pieces_v(ps@)).take(i as int).push(ps@[i as int].0@));
        assert(strings_view(r@) =~= strings_view(r@.drop_last()).push(r@.last()@));
        i += 1;
    }
    assert(piece_texts(pieces_v(ps@)).take(i as int) =~= piece_texts(pieces_v(ps@)));
    r
}

/// Whether `p` is the piece `(t, role)`.
fn piece(t: &str, role: StatusRole) -> (r: StatusPiece)
    ensures
        piece_v(r) == (t@, role),
{
    (t.to_owned(), role)
}

/// The left pieces of the status line (see `status_pieces`).
fn left_pieces(c: &Controller) -> (r: Vec<StatusPiece>)
    ensures
        pieces_v(r@) == status_pieces(c),
{
    let mut r: Vec<StatusPiece> = Vec::new();
    let tag = match c.mode {
        ComparisonMode::WorkingVsHead => "[模式A]",
        ComparisonMode::StagedVsHead => "[模式B]",
        ComparisonMode::StagedVsWorking => "[模式C]",
        ComparisonMode::CommitVsHead => "[模式D]",
    };
    r.push(piece(tag, StatusRole::Mode));
    r.push(piece(" ", StatusRole::Space));
    let ghost head = pieces_v(r@);
    if c.loading {
        r.push(piece("loading...", StatusRole::Loading));
    } else if c.status.as_str().unicode_len() > 0 {
        r.push((c.status.clone(), StatusRole::Message));
    } else {
        match &c.diff_file {
            Some(f) => {
                r.push((concat(f.path.as_str(), "  "), StatusRole::FilePath));
                let mut counts = "+".to_owned();
                push_decimal(&mut counts, f.added);
                push_str(&mut counts, " -");
                push_decimal(&mut counts, f.deleted);
                r.push((counts, StatusRole::Counts));
                if c.fold_unchanged {
                    r.push(piece(" │ ", StatusRole::Separator));
                    r.push(piece("折叠", StatusRole::Fold));
                }
                match c.sort {
                    SortMode::Path => {},
                    SortMode::Status => {
                        r.push(piece(" │ ", StatusRole::Separator));
                        r.push(piece("排序: 按状态", StatusRole::Sort));
                    },
                    SortMode::Added => {
                        r.push(piece(" │ ", StatusRole::Separator));
                        r.push(piece("排序: 按增行", StatusRole::Sort));
                    },
                }
            },
            None => {
                r.push(piece("select a file", StatusRole::Dim));
            },
        }
    }
    match &c.filter {
        Some(f) => {
            r.push(piece(" │ ", StatusRole::Separator));
            r.push((concat("/ ", f.as_str()), StatusRole::Filter));
        },
        None => {},
    }
    assert(pieces_v(r@) =~= status_pieces(c));
    r
}

/// The hint pieces (see `hint_pieces`).
fn right_pieces(filtering: bool) -> (r: Vec<StatusPiece>)
    ensures
        pieces_v(r@) == hint_pieces(filtering),
{
    let mut r: Vec<StatusPiece> = Vec::new();
    if filtering {
        r.push(piece("│ [Esc]", StatusRole::Key));
        r.push(piece("取消", StatusRole::Dim));
    } else {
        r.push(piece("[Tab]", StatusRole::Key));
        r.push(piece("焦点", StatusRole::Dim));
        r.push(piece("[1-4]", StatusRole::Key));
        r.push(piece("模式", StatusRole::Dim));
        r.push(piece("[↑↓]", StatusRole::Key));
        r.push(piece("移动", StatusRole::Dim));
        r.push(piece("[Pg]", StatusRole::Key));
        r.push(piece("翻页", StatusRole::Dim));
        r.push(piece("[s]", StatusRole::Key));
        r.push(piece("排序", StatusRole::Dim));
        r.push(piece("[n/m]", StatusRole::Key));
        r.push(piece("hunk", StatusRole::Dim));
        r.push(piece("[z]", StatusRole::Key));
        r.push(piece("折叠", StatusRole::Dim));
        r.push(piece("[?]", StatusRole::Key));
        r.push(piece("帮助", StatusRole::Dim));
        r.push(piece("[q]", StatusRole::Key));
        r.push(piece("退出", StatusRole::Dim));
    }
    assert(pieces_v(r@) =~= hint_pieces(filtering));
    r
}

/// At most one fitted text per text.
proof fn lemma_fit_texts_len(ts: Seq<Seq<char>>, used: int, avail: int)
    ensures
        fit_texts_spec(ts, used, avail).len() <= ts.len(),
    decreases ts.len(),
{
    if ts.len() > 0 && used < avail && used + str_width(ts[0]) <= avail {
        lemma_fit_texts_len(ts.drop_first(), used + str_width(ts[0]), avail);
    }
}

/// The status line of a terminal `width` columns wide: the hints for the
/// current state anchored at the right edge; the left pieces (see
/// `status_pieces`) fitted into the columns left beside them (see
/// `left_avail` and `fit_texts`), each keeping its role; and the spaces
/// between them.
pub fn status_line(c: &Controller, width: usize) -> (r: StatusLine)
    ensures
        pieces_v(r.right@) == hint_pieces(c.filter is Some),
        ({
            let avail = left_avail(width as int, texts_width(piece_texts(hint_pieces(c.filter is Some))));
            let fitted = fit_texts_spec(piece_texts(status_pieces(c)), 0, avail);
            &&& piece_texts(pieces_v(r.left@)) == fitted
            &&& piece_roles(pieces_v(r.left@)) == piece_roles(status_pieces(c)).take(fitted.len() as int)
            &&& r.pad == sat_diff(avail, texts_width(fitted))
        }),
{
    let right = right_pieces(c.filter.is_some());
    let rtexts = texts_of(&right);
    let room = width_left(&rtexts, width);
    let avail: usize = if room >= 2 { room - 2 } else { 0 };
    let left = left_pieces(c);
    let ltexts = texts_of(&left);
    let fitted = fit_texts(&ltexts, avail);
    let ghost all = pieces_v(left@);
    proof {
        lemma_fit_texts_len(piece_texts(all), 0, avail as int);
    }
    let mut out: Vec<StatusPiece> = Vec::new();
    let mut i: usize = 0;
    while i < fitted.len()
        invariant
            all == pieces_v(left@),
            fitted.len() <= left.len(),
            i <= fitted.len(),
            piece_texts(pieces_v(out@)) == strings_view(fitted@).take(i as int),
            piece_roles(pieces_v(out@)) == piece_roles(all).take(i as int),
        decreases fitted.len() - i,
    {
        let ghost before = out@;
        let t = fitted[i].clone();
        out.push((t, left[i].1));
        assert(out@ =~= before.push((t, left@[i as int].1)));
        assert(pieces_v(out@) =~= pieces_v(before).push((fitted@[i as int]@, left@[i as int].1)));
        assert(piece_texts(pieces_v(out@)) =~= piece_texts(pieces_v(before)).push(fitted@[i as int]@));
        assert(strings_view(fitted@).take(i + 1) =~= strings_view(fitted@).take(i as int).push(fitted@[i as int]@));
        assert(piece_texts(pieces_v(out@)) =~= strings_view(fitted@).take(i + 1));
        assert(piece_roles(pieces_v(out@)) =~= piece_roles(all).take(i + 1));
        i += 1;
    }
    assert(strings_view(fitted@).take(i as int) =~= strings_view(fitted@));
    let pad = width_left(&fitted, avail);
    StatusLine { left: out, pad, right }
}


// ------------------------------------------------------------ help panel

/// A line of the help panel: a group title, a key with what it does, or a
/// blank line between groups.
pub enum HelpLine {
    Title(String),
    Key(String, String),
    Blank,
}

/// A help line as values.
pub enum HelpLineV {
    Title(Seq<char>),
    Key(Seq<char>, Seq<char>),
    Blank,
}

pub open spec fn help_line_v(l: HelpLine) -> HelpLineV {
    match l {
        HelpLine::Title(t) => HelpLineV::Title(t@),
        HelpLine::Key(k, d) => HelpLineV::Key(k@, d@),
        HelpLine::Blank => HelpLineV::Blank,
    }
}

pub open spec fn help_lines_v(ls: Seq<HelpLine>) -> Seq<HelpLineV> {
    ls.map_values(|l: HelpLine| help_line_v(l))
}

/// The help panel's lines: the general keys, the file list's and the diff
/// pane's, each group under its title and a blank line between groups.
pub open spec fn help_lines_spec() -> Seq<HelpLineV> {
    seq![
        HelpLineV::Title("通用"@),
        HelpLineV::Key("Tab"@, "切换焦点（文件列表 / 对比区）"@),
        HelpLineV::Key("4"@, "进入模式D（上次 commit 对比 / 选择 commit）"@),
        HelpLineV::Key("1 / 2 / 3 / 4"@, "切换比较模式 A/B/C/D"@),
        HelpLineV::Key("r"@, "刷新"@),
        HelpLineV::Key("?"@, "本帮助"@),
        HelpLineV::Key("q / Ctrl+C"@, "退出"@),
        HelpLineV::Blank,
        HelpLineV::Title("文件列表"@),
        HelpLineV::Key("↑↓"@, "移动光标"@),
        HelpLineV::Key("Enter"@, "查看选中文件对比"@),
        HelpLineV::Key("→ / ←"@, "展开 / 折叠目录"@),
        HelpLineV::Key("PgUp/PgDn"@, "列表翻页"@),
        HelpLineV::Key("[ / ]"@, "折叠 / 展开全部目录"@),
        HelpLineV::Key("s"@, "切换排序（路径 / 状态 / 增行数）"@),
        HelpLineV::Key("/"@, "过滤（! 前缀反向匹配）"@),
        HelpLineV::Blank,
        HelpLineV::Title("对比区"@),
        HelpLineV::Key("↑↓"@, "移动当前行"@),
        HelpLineV::Key("PgUp/PgDn"@, "按页滚动"@),
        HelpLineV::Key("→ / ←"@, "水平滚动"@),
        HelpLineV::Key("n / m"@, "跳转下一个/上一个 hunk"@),
        HelpLineV::Key("z"@, "折叠/展开未改动段"@),
    ]
}

fn key_line(k: &str, d: &str) -> (r: HelpLine)
    ensures
        help_line_v(r) == HelpLineV::Key(k@, d@),
{
    HelpLine::Key(k.to_owned(), d.to_owned())
}

fn title_line(t: &str) -> (r: HelpLine)
    ensures
        help_line_v(r) == HelpLineV::Title(t@),
{
    HelpLine::Title(t.to_owned())
}

/// The lines of the help panel (see `help_lines_spec`).
pub fn help_lines() -> (r: Vec<HelpLine>)
    ensures
        help_lines_v(r@) == help_lines_spec(),
{
    let mut r: Vec<HelpLine> = Vec::new();
    r.push(title_line("通用"));
    r.push(key_line("Tab", "切换焦点（文件列表 / 对比区）"));
    r.push(key_line("4", "进入模式D（上次 commit 对比 / 选择 commit）"));
    r.push(key_line("1 / 2 / 3 / 4", "切换比较模式 A/B/C/D"));
    r.push(key_line("r", "刷新"));
    r.push(key_line("?", "本帮助"));
    r.push(key_line("q / Ctrl+C", "退出"));
    r.push(HelpLine::Blank);
    r.push(title_line("文件列表"));
    r.push(key_line("↑↓", "移动光标"));
    r.push(key_line("Enter", "查看选中文件对比"));
    r.push(key_line("→ / ←", "展开 / 折叠目录"));
    r.push(key_line("PgUp/PgDn", "列表翻页"));
    r.push(key_line("[ / ]", "折叠 / 展开全部目录"));
    r.push(key_line("s", "切换排序（路径 / 状态 / 增行数）"));
    r.push(key_line("/", "过滤（! 前缀反向匹配）"));
    r.push(HelpLine::Blank);
    r.push(title_line("对比区"));
    r.push(key_line("↑↓", "移动当前行"));
    r.push(key_line("PgUp/PgDn", "按页滚动"));
    r.push(key_line("→ / ←", "水平滚动"));
    r.push(key_line("n / m", "跳转下一个/上一个 hunk"));
    r.push(key_line("z", "折叠/展开未改动段"));
    assert(help_lines_v(r@) =~= help_lines_spec());
    r
}

/// The widest key among the lines (0 when there is none).
pub open spec fn max_key_width(ls: Seq<HelpLineV>) -> int
    decreases ls.len(),
{
    if ls.len() == 0 {
        0
    } else {
        let m = max_key_width(ls.drop_last());
        match ls.last() {
            HelpLineV::Key(k, _) => if str_width(k) > m { str_width(k) as int } else { m },
            _ => m,
        }
    }
}

/// The widest description among the lines (0 when there is none).
pub open spec fn max_desc_width(ls: Seq<HelpLineV>) -> int
    decreases ls.len(),
{
    if ls.len() == 0 {
        0
    } else {
        let m = max_desc_width(ls.drop_last());
        match ls.last() {
            HelpLineV::Key(_, d) => if str_width(d) > m { str_width(d) as int } else { m },
            _ => m,
        }
    }
}

/// The columns the keys are padded to: the widest key and a gap of six.
pub open spec fn help_key_cols(ls: Seq<HelpLineV>) -> int {
    max_key_width(ls) + 6
}

/// The width of a key line: an indent of two, the padded key and the
/// widest description.
pub open spec fn help_row_width(ls: Seq<HelpLineV>) -> int {
    2 + help_key_cols(ls) + max_desc_width(ls)
}

/// The size of the help panel in an area `area_w` by `area_h`: the row
/// width with two columns of padding and a border on each side (but
/// within the area less four columns, and at least 34), and a line per
/// help line with a border and a blank line above and below (within the
/// area less two lines).
pub open spec fn help_panel_size(ls: Seq<HelpLineV>, area_w: u16, area_h: u16) -> (int, int) {
    let cap_w = sat_diff(area_w as int, 4);
    let w0 = if help_row_width(ls) + 8 <= cap_w { help_row_width(ls) + 8 } else { cap_w };
    let cap_h = sat_diff(area_h as int, 2);
    (if w0 >= 34 { w0 } else { 34 }, if ls.len() + 4 <= cap_h { ls.len() + 4int } else { cap_h })
}

/// The help panel's layout: its size, the columns keys are padded to, and
/// the width of a key line (both capped at `usize::MAX`).
pub struct HelpPanel {
    pub width: u16,
    pub height: u16,
    pub key_cols: usize,
    pub row_width: usize,
}

/// `n` capped at `usize::MAX`.
pub open spec fn cap_usize(n: int) -> usize {
    if n <= usize::MAX { n as usize } else { usize::MAX }
}

/// Lays out a help panel of `lines` in an area `area_w` by `area_h` (see
/// `help_panel_size`). Where the area leaves room, every line fits: the
/// panel shows `row_width` columns inside its borders and padding, and all
/// the lines.
pub fn help_panel_for(lines: &Vec<HelpLine>, area_w: u16, area_h: u16) -> (r: HelpPanel)
    ensures
        ({
            let ls = help_lines_v(lines@);
            let size = help_panel_size(ls, area_w, area_h);
            &&& r.width == size.0
            &&& r.height == size.1
            &&& r.key_cols == cap_usize(help_key_cols(ls))
            &&& r.row_width == cap_usize(help_row_width(ls))
            &&& area_w as int >= help_row_width(ls) + 12 ==> help_row_width(ls) + 4 <= r.width
            &&& area_h as int >= ls.len() + 6 ==> r.height == ls.len() + 4
        }),
{
    let ghost ls = help_lines_v(lines@);
    let mut kmax: usize = 0;
    let mut dmax: usize = 0;
    let mut i: usize = 0;
    while i < lines.len()
        invariant
            ls == help_lines_v(lines@),
            i <= lines.len(),
            kmax == max_key_width(ls.take(i as int)),
            dmax == max_desc_width(ls.take(i as int)),
        decreases lines.len() - i,
    {
        assert(ls.take(i + 1).drop_last() =~= ls.take(i as int));
        assert(ls.take(i + 1).last() == help_line_v(lines@[i as int]));
        match &lines[i] {
            HelpLine::Key(k, d) => {
                let kw = text_width(k.as_str());
                let dw = text_width(d.as_str());
                if kw > kmax {
                    kmax = kw;
                }
                if dw > dmax {
                    dmax = dw;
                }
            },
            _ => {},
        }
        i += 1;
    }
    assert(ls.take(i as int) =~= ls);
    let row: u128 = 8 + kmax as u128 + dmax as u128;
    let cap_w: u16 = if area_w >= 4 { area_w - 4 } else { 0 };
    let w0: u16 = if row + 8 <= cap_w as u128 { (row + 8) as u16 } else { cap_w };
    let width: u16 = if w0 >= 34 { w0 } else { 34 };
    let cap_h: u16 = if area_h >= 2 { area_h - 2 } else { 0 };
    let n = lines.len();
    let height: u16 = if n < cap_h as usize && cap_h as usize - n >= 4 { (n + 4) as u16 } else { cap_h };
    let key_cols: usize = if kmax <= usize::MAX - 6 { kmax + 6 } else { usize::MAX };
    let row_width: usize = if row <= usize::MAX as u128 { row as usize } else { usize::MAX };
    HelpPanel { width, height, key_cols, row_width }
}

/// The layout of the help panel in an area `area_w` by `area_h` (see
/// `help_panel_for` over `help_lines`).
pub fn help_panel(area_w: u16, area_h: u16) -> (r: HelpPanel)
    ensures
        ({
            let ls = help_lines_spec();
            let size = help_panel_size(ls, area_w, area_h);
            &&& r.width == size.0
            &&& r.height == size.1
            &&& r.key_cols == cap_usize(help_key_cols(ls))
            &&& r.row_width == cap_usize(help_row_width(ls))
            &&& area_w as int >= help_row_width(ls) + 12 ==> help_row_width(ls) + 4 <= r.width
            &&& area_h as int >= ls.len() + 6 ==> r.height == ls.len() + 4
        }),
{
    let lines = help_lines();
    help_panel_for(&lines, area_w, area_h)
}


// ------------------------------------------------------------ list rows

/// `s` padded with spaces on the right to `width` columns (unchanged when
/// at least that wide).
pub open spec fn pad_right_spec(s: Seq<char>, width: usize) -> Seq<char> {
    if str_width(s) >= width {
        s
    } else {
        s + spaces((width - str_width(s)) as nat)
    }
}

/// `s` padded with spaces on the left to `width` columns (unchanged when at
/// least that wide).
pub open spec fn pad_left_spec(s: Seq<char>, width: usize) -> Seq<char> {
    if str_width(s) >= width {
        s
    } else {
        spaces((width - str_width(s)) as nat) + s
    }
}

/// The texts of a file list row, left to right: the selection marker, the
/// tree guide, the name (a directory's with its icon) fitted to its column,
/// the added and deleted counts, and the status letter (none for a
/// directory), each count and the letter right-aligned in its column.
pub struct ListRowText {
    pub marker: String,
    pub guide: String,
    pub name: String,
    pub added: String,
    pub deleted: String,
    pub status: String,
}

/// The icon before a directory's name: a folder at the top level, else an
/// arrow that points down when it is open.
pub open spec fn dir_icon(depth: usize, collapsed: bool) -> Seq<char> {
    if depth == 0 {
        "📁 "@
    } else if collapsed {
        "▸ "@
    } else {
        "▾ "@
    }
}

/// The name column of a row: the name fitted to what the guide leaves of
/// `name_w` columns, padded to it.
pub open spec fn name_cell(name: Seq<char>, guide: Seq<char>, name_w: usize) -> Seq<char> {
    let avail = sat_diff(name_w as int, str_width(guide) as int) as usize;
    pad_right_spec(truncate_spec(name, avail), avail)
}

/// What `list_row_text` gives for a row.
pub open spec fn list_row_spec(row: RowV, selected: bool, name_w: usize) -> (Seq<char>, Seq<char>, Seq<char>, Seq<char>, Seq<char>, Seq<char>) {
    let marker = if selected { "▌ "@ } else { "  "@ };
    match row {
        RowV::Dir { path, depth, collapsed, added, deleted, guide } => (
            marker,
            guide,
            name_cell(dir_icon(depth, collapsed) + last_segment(path), guide, name_w),
            pad_left_spec("+"@ + decimal(added as nat), 4),
            pad_left_spec("-"@ + decimal(deleted as nat), 4),
            pad_left_spec(seq![], 6),
        ),
        RowV::File { file, guide, .. } => (
            marker,
            guide,
            name_cell(last_segment(file.path@), guide, name_w),
            pad_left_spec("+"@ + decimal(file.added as nat), 4),
            pad_left_spec("-"@ + decimal(file.deleted as nat), 4),
            pad_left_spec(status_letter(file.status), 6),
        ),
    }
}

fn count_text(sign: &str, n: u64) -> (r: String)
    ensures
        r@ == pad_left_spec(sign@ + decimal(n as nat), 4),
{
    let mut s = sign.to_owned();
    push_decimal(&mut s, n);
    pad_left(s.as_str(), 4)
}

fn name_text(name: &str, guide: &str, name_w: usize) -> (r: String)
    ensures
        r@ == name_cell(name@, guide@, name_w),
{
    let gw = text_width(guide);
    let avail = if name_w >= gw { name_w - gw } else { 0 };
    let t = truncate(name, avail);
    pad_right(t.as_str(), avail)
}

/// The texts of a row of the file list, `selected` when the cursor is on
/// it, with `name_w` columns for the guide and the name (see
/// `list_row_spec`).
pub fn list_row_text(row: &VisibleRow, selected: bool, name_w: usize) -> (r: ListRowText)
    ensures
        (r.marker@, r.guide@, r.name@, r.added@, r.deleted@, r.status@) == list_row_spec(vrow_v(*row), selected, name_w),
{
    let marker = if selected { "▌ ".to_owned() } else { "  ".to_owned() };
    match row {
        VisibleRow::Dir { path, depth, collapsed, added, deleted, guide } => {
            let icon = if *depth == 0 {
                "📁 "
            } else if *collapsed {
                "▸ "
            } else {
                "▾ "
            };
            let short = short_name(path.as_str());
            let name = concat(icon, short.as_str());
            let empty = "";
            proof {
                reveal_strlit("");
                assert(empty@ =~= Seq::<char>::empty());
            }
            ListRowText {
                marker,
                guide: guide.clone(),
                name: name_text(name.as_str(), guide.as_str(), name_w),
                added: count_text("+", *added),
                deleted: count_text("-", *deleted),
                status: pad_left(empty, 6),
            }
        },
        VisibleRow::File { file, guide, .. } => {
            let short = short_name(file.path.as_str());
            ListRowText {
                marker,
                guide: guide.clone(),
                name: name_text(short.as_str(), guide.as_str(), name_w),
                added: count_text("+", file.added),
                deleted: count_text("-", file.deleted),
                status: pad_left(file.status.letter(), 6),
            }
        },
    }
}

} // verus!

