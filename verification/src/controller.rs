//! The viewer's navigation state machine: which file list is shown, which
//! row is selected, which diff is loaded, and how each key changes that.
//! Rendering reads this state; it never changes it.
use vstd::prelude::*;
use crate::align::{align_rows, hunk_index, hunk_starts, increasing, is_hunk_start, is_unchanged, plain_rows, row_is_unchanged, strings_view, AlignedRow};
use crate::git::{is_blank, mode_pair, opt_view, side_bytes, sides_fit, trim_spec, GitError, GitFacade};
use crate::model::{ChangedFile, CommitEntry, ComparisonMode, FileSides, SidePair, SideRef};
use crate::text::{chars_of, concat, contains_str, drop_last_char, is_substring, lowercase, push_char, str_eq, string_of_range, to_lowercase};
use crate::tree::{
    build_tree, build_tree_spec, files_at, files_sum, filt_at, filtered_rows, forest_v, vrow_v, vrows_v, walk_at, wrap_root,
    RowV, SortMode, TreeNode, TreeV, VisibleRow,
};

verus! {

/// Contents with more lines than this are shown without a diff.
pub const LINE_LIMIT: usize = 50000;

/// The shortest run of unchanged rows that folding hides.
pub const FOLD_MIN: usize = 10;

/// Which panel receives the navigation keys.
#[derive(Clone, Copy, PartialEq, Eq, Debug, Structural)]
pub enum Focus {
    FileList,
    Diff,
}

/// A panel drawn over the others.
pub enum Overlay {
    CommitPicker { commits: Vec<CommitEntry>, cursor: usize },
    Help,
}

/// A key, as the terminal reports it.
#[derive(Clone, Copy, PartialEq, Eq, Debug, Structural)]
pub enum KeyCode {
    Char(char),
    Enter,
    Esc,
    Backspace,
    Tab,
    Up,
    Down,
    Left,
    Right,
    PageUp,
    PageDown,
    /// Any key the viewer does not bind.
    Other,
}

/// The modifier keys held with a key: none, exactly Control, or any other
/// combination.
#[derive(Clone, Copy, PartialEq, Eq, Debug, Structural)]
pub enum KeyModifiers {
    Plain,
    Control,
    Other,
}

/// A key press.
#[derive(Clone, Copy, PartialEq, Eq, Debug, Structural)]
pub struct KeyEvent {
    pub code: KeyCode,
    pub modifiers: KeyModifiers,
}

impl KeyEvent {
    pub fn new(code: KeyCode, modifiers: KeyModifiers) -> (r: KeyEvent)
        ensures
            r.code == code,
            r.modifiers == modifiers,
    {
        KeyEvent { code, modifiers }
    }
}

// ------------------------------------------------------------ the filter

/// Whether a file path passes a filter: a case-insensitive substring match
/// of the pattern, inverted by a leading `!`.
pub open spec fn path_matches(path: Seq<char>, filter: Seq<char>) -> bool {
    let negate = filter.len() > 0 && filter[0] == '!';
    let pat = if negate { filter.drop_first() } else { filter };
    is_substring(lowercase(pat), lowercase(path)) != negate
}

/// The marks of a filter over files in walk order.
pub open spec fn keep_marks(files: Seq<ChangedFile>, filter: Seq<char>) -> Seq<bool> {
    files.map_values(|f: ChangedFile| path_matches(f.path@, filter))
}

/// The rows of the file list: the walk of the tree with the collapsed
/// directories folded; while a filter is open nothing is folded, and a
/// non-blank filter keeps the matching files and the directories above them.
pub open spec fn list_rows(tree: Seq<TreeV>, collapsed: Seq<Seq<char>>, filter: Option<Seq<char>>) -> Seq<RowV> {
    match filter {
        None => walk_at(tree, 0, collapsed, seq![], seq![], 0),
        Some(f) => if trim_spec(f).len() == 0 {
            walk_at(tree, 0, seq![], seq![], seq![], 0)
        } else {
            filt_at(tree, 0, keep_marks(files_at(tree, 0), f), 0, seq![], seq![], 0)
        },
    }
}

/// The file of a row, if it is a file row.
pub open spec fn row_file(r: RowV) -> Option<ChangedFile> {
    match r {
        RowV::File { file, .. } => Some(file),
        RowV::Dir { .. } => None,
    }
}

/// The file at `cursor` of a row list, none on a directory or past the end.
pub open spec fn file_at(rows: Seq<RowV>, cursor: usize) -> Option<ChangedFile> {
    if cursor < rows.len() {
        row_file(rows[cursor as int])
    } else {
        None
    }
}

/// `(negate, pattern)` of a filter text.
fn split_filter(f: &str) -> (r: (bool, String))
    ensures
        r.0 == (f@.len() > 0 && f@[0] == '!'),
        r.1@ == if r.0 { f@.drop_first() } else { f@ },
{
    let v = chars_of(f);
    if v.len() > 0 && v[0] == '!' {
        let rest = string_of_range(&v, 1, v.len());
        assert(v@.subrange(1, v.len() as int) =~= v@.drop_first());
        (true, rest)
    } else {
        (false, string_of_range(&v, 0, v.len()))
    }
}

// ------------------------------------------------------------ per-mode state

/// Per-mode navigation snapshot: what a mode's list and diff looked like
/// when the viewer left it.
pub struct ModeState {
    /// Path of the selected row (file or directory). Indexes are meaningless
    /// across modes since the file sets differ.
    pub selected_path: Option<String>,
    pub list_scroll: usize,
    pub collapsed: Vec<String>,
    pub selected_commit: Option<String>,
    pub diff_vscroll: usize,
    pub diff_hscroll: usize,
    pub diff_cursor: usize,
}

/// The path of a row.
pub open spec fn row_path_of(r: RowV) -> Seq<char> {
    match r {
        RowV::Dir { path, .. } => path,
        RowV::File { file, .. } => file.path@,
    }
}

/// The first index of a row with path `p`, if any.
pub open spec fn first_row_with_path(rows: Seq<RowV>, p: Seq<char>, from: int) -> Option<int>
    decreases rows.len() - from,
{
    if from < 0 || from >= rows.len() {
        None
    } else if row_path_of(rows[from]) == p {
        Some(from)
    } else {
        first_row_with_path(rows, p, from + 1)
    }
}

impl ModeState {
    /// Equal field by field, the collapsed paths by their contents.
    pub open spec fn same_as(self, other: ModeState) -> bool {
        &&& self.selected_path == other.selected_path
        &&& self.list_scroll == other.list_scroll
        &&& self.collapsed@ == other.collapsed@
        &&& self.selected_commit == other.selected_commit
        &&& self.diff_vscroll == other.diff_vscroll
        &&& self.diff_hscroll == other.diff_hscroll
        &&& self.diff_cursor == other.diff_cursor
    }

    /// The state of a mode never visited.
    pub fn empty() -> (r: ModeState)
        ensures
            r.selected_path is None,
            r.list_scroll == 0,
            r.collapsed@.len() == 0,
            r.selected_commit is None,
            r.diff_vscroll == 0,
            r.diff_hscroll == 0,
            r.diff_cursor == 0,
    {
        ModeState {
            selected_path: None,
            list_scroll: 0,
            collapsed: Vec::new(),
            selected_commit: None,
            diff_vscroll: 0,
            diff_hscroll: 0,
            diff_cursor: 0,
        }
    }

    /// An equal copy.
    pub fn duplicate(&self) -> (r: ModeState)
        ensures
            r.same_as(*self),
    {
        ModeState {
            selected_path: crate::model::copy_opt_string(&self.selected_path),
            list_scroll: self.list_scroll,
            collapsed: copy_strings(&self.collapsed),
            selected_commit: crate::model::copy_opt_string(&self.selected_commit),
            diff_vscroll: self.diff_vscroll,
            diff_hscroll: self.diff_hscroll,
            diff_cursor: self.diff_cursor,
        }
    }
}

/// An equal copy of a list of strings.
pub fn copy_strings(v: &Vec<String>) -> (r: Vec<String>)
    ensures
        r@ == v@,
{
    let mut r: Vec<String> = Vec::new();
    let mut i: usize = 0;
    while i < v.len()
        invariant
            i <= v.len(),
            r@ == v@.take(i as int),
        decreases v.len() - i,
    {
        r.push(v[i].clone());
        assert(r@ =~= v@.take(i + 1));
        i += 1;
    }
    assert(v@.take(v.len() as int) =~= v@);
    r
}

// ------------------------------------------------------------ the controller

/// The viewer's state. Rendering only reads it; every change goes through
/// the methods below.
pub struct Controller<'a> {
    pub facade: GitFacade<'a>,
    pub repo_path: std::path::PathBuf,
    pub has_commits: bool,
    pub mode: ComparisonMode,
    pub selected_commit: Option<String>,
    /// One snapshot per mode, in the order of `mode_index`.
    pub mode_state: Vec<ModeState>,
    pub files: Vec<ChangedFile>,
    /// The file tree, rebuilt only when `files` or the sort changes.
    pub tree_cache: Vec<TreeNode>,
    pub collapsed: Vec<String>,
    pub cursor: usize,
    pub list_scroll: usize,
    pub diff_rows: Vec<AlignedRow>,
    pub diff_file: Option<ChangedFile>,
    pub diff_vscroll: usize,
    pub diff_hscroll: usize,
    pub diff_cursor: usize,
    pub fold_unchanged: bool,
    pub hunk_idx: usize,
    pub hunk_count: usize,
    pub filter: Option<String>,
    /// Sibling ordering for the file list.
    pub sort: SortMode,
    pub overlay: Option<Overlay>,
    pub focus: Focus,
    pub diff_viewport: usize,
    pub diff_hviewport: usize,
    pub diff_max_line_w: usize,
    pub list_viewport: usize,
    pub loading: bool,
    pub status: String,
}

/// Whether `s` lists the hunk starts of `rows`: increasing, each a hunk
/// start, and every hunk start among them.
pub open spec fn hunk_list(rows: Seq<AlignedRow>, s: Seq<usize>) -> bool {
    &&& increasing(s)
    &&& forall|k: int| 0 <= k < s.len() ==> is_hunk_start(rows, #[trigger] s[k] as int)
    &&& forall|i: int| is_hunk_start(rows, i) ==> s.contains(i as usize)
}

/// Whether `r` is the 1-based number of the hunk holding row `c`: the number
/// of starts at or above it.
pub open spec fn hunk_number(s: Seq<usize>, c: usize, r: usize) -> bool {
    &&& r <= s.len()
    &&& r > 0 ==> s[r - 1] <= c
    &&& forall|j: int| r <= j < s.len() ==> s[j] > c
}

/// Whether a content has more lines than the diff is computed for.
pub open spec fn too_long(c: Option<Seq<u8>>) -> bool {
    match c {
        Some(b) => newline_count(b) + 1 > LINE_LIMIT,
        None => false,
    }
}

/// The number of `\n` bytes in `b`.
pub open spec fn newline_count(b: Seq<u8>) -> nat
    decreases b.len(),
{
    if b.len() == 0 {
        0
    } else {
        newline_count(b.drop_last()) + if b.last() == 10u8 { 1nat } else { 0nat }
    }
}

/// The number of lines of a content, counted as its `\n` bytes plus one
/// (saturating at `usize::MAX`, which no slice reaches).
pub fn line_count(content: &[u8]) -> (r: usize)
    ensures
        r == if newline_count(content@) + 1 <= usize::MAX { newline_count(content@) + 1 } else { usize::MAX as nat },
{
    let mut n: usize = 0;
    let mut i: usize = 0;
    while i < content.len()
        invariant
            i <= content.len(),
            n == newline_count(content@.take(i as int)),
            n <= i,
        decreases content.len() - i,
    {
        assert(content@.take(i + 1).drop_last() =~= content@.take(i as int));
        if content[i] == 10u8 {
            n += 1;
        }
        i += 1;
    }
    assert(content@.take(content.len() as int) =~= content@);
    n.saturating_add(1)
}

proof fn lemma_segments_within_lines(c: Seq<u8>, n: int)
    requires
        0 <= n <= c.len(),
    ensures
        crate::git::segments_before(c, n) <= newline_count(c.take(n)) + if n >= 1 && c[n - 1] != 10u8 { 1int } else { 0int },
    decreases n,
{
    if n > 0 {
        lemma_segments_within_lines(c, n - 1);
        assert(c.take(n).drop_last() =~= c.take(n - 1));
        assert(c.take(n).last() == c[n - 1]);
    }
}

/// A content never has more non-empty lines (`count_lines`) than lines
/// (`line_count`): each non-empty line but the first starts after a `\n`.
pub proof fn lemma_count_lines_within_line_count(c: Seq<u8>)
    ensures
        crate::git::segments_before(c, c.len() as int) <= newline_count(c) + 1,
{
    lemma_segments_within_lines(c, c.len() as int);
    assert(c.take(c.len() as int) =~= c);
}

/// The rows shown for a text file with the given sides: the aligned rows,
/// or the unaligned lines when a side is longer than `LINE_LIMIT` or the
/// line diff does not cover the lines shown (see `align_rows`).
pub open spec fn shown_rows(original: Option<Seq<u8>>, changed: Option<Seq<u8>>) -> Seq<crate::align::RowView> {
    let old = crate::align::content_lines(original);
    let new = crate::align::content_lines(changed);
    let ops = crate::align::align_ops(original, changed, false);
    if too_long(original) || too_long(changed) || !crate::align::ops_cover(ops, old.len() as int, new.len() as int) {
        crate::align::plain_rows_spec(old, new)
    } else {
        crate::align::rows_of_ops(ops, old, new)
    }
}

/// The rows are what the diff of `f` shows in `mode` (with `commit` in mode
/// D): those of two sides that reading the file as the mode's pair of sides
/// can give (see `GitFacade::file_sides`).
pub open spec fn rows_of_file(rows: Seq<crate::align::RowView>, mode: ComparisonMode, commit: Option<Seq<char>>, f: ChangedFile) -> bool {
    exists|pair: SidePair, s: FileSides|
        #![trigger mode_pair(pair, mode, commit), sides_fit(pair, f, s)]
        mode_pair(pair, mode, commit) && sides_fit(pair, f, s) && rows == shown_rows(side_bytes(s.original), side_bytes(s.changed))
}

fn side_too_long(c: &Option<Vec<u8>>) -> (r: bool)
    ensures
        r == too_long(match *c { Some(v) => Some(v@), None => None }),
{
    match c {
        Some(v) => line_count(v.as_slice()) > LINE_LIMIT,
        None => false,
    }
}

fn side_slice(c: &Option<Vec<u8>>) -> (r: Option<&[u8]>)
    ensures
        crate::align::content_view(r) == match *c { Some(v) => Some(v@), None => None },
{
    match c {
        Some(v) => Some(v.as_slice()),
        None => None,
    }
}

impl<'a> Controller<'a> {
    /// The file tree shown.
    pub open spec fn tree(&self) -> Seq<TreeV> {
        forest_v(self.tree_cache@)
    }

    /// The saved per-mode snapshots, in the order of `mode_index`.
    pub open spec fn saved(&self) -> Seq<ModeState> {
        self.mode_state@
    }

    /// The rows of the file list.
    pub open spec fn rows(&self) -> Seq<RowV> {
        list_rows(self.tree(), strings_view(self.collapsed@), opt_view(self.filter))
    }

    /// The selected row is a directory whose path an earlier directory row
    /// of the list has too.
    pub open spec fn dir_path_repeats_above(&self) -> bool {
        &&& self.cursor < self.rows().len()
        &&& self.rows()[self.cursor as int] matches RowV::Dir { path, .. }
        &&& first_dir_row(self.rows(), path, 0) != Some(self.cursor as int)
    }

    /// Every file path has non-empty directory parts (no leading `/`, no
    /// `//`), as git writes paths.
    pub open spec fn files_clean(&self) -> bool {
        forall|i: int| 0 <= i < self.files.len() ==> crate::tree::clean_path(#[trigger] self.files@[i].path@)
    }

    /// The file on the selected row, none on a directory or past the end.
    pub open spec fn selected_file(&self) -> Option<ChangedFile> {
        file_at(self.rows(), self.cursor)
    }

    /// The loaded rows are what a diff of the shown file gives: for a text
    /// file, the rows of some two sides of it (see `shown_rows`); and only a
    /// deleted line paired with an inserted one carries inline fragments,
    /// which read as the line.
    pub open spec fn diff_matches_file(&self) -> bool {
        &&& forall|q: int| 0 <= q < self.diff_rows@.len() ==> crate::align::row_inline_ok(#[trigger] self.diff_rows@[q])
        &&& self.diff_file matches Some(f) ==> (!f.is_binary ==> rows_of_file(
            crate::align::rows_view(self.diff_rows@),
            self.mode,
            opt_view(self.selected_commit),
            f,
        ))
    }

    /// The diff panel shows the file highlighted in the list, or nothing
    /// when no file is highlighted.
    pub open spec fn diff_follows_selection(&self) -> bool {
        self.diff_file == self.selected_file()
    }

    /// The controller's invariant: a snapshot for each of the four modes, and
    /// per-file counts whose totals fit the tree's `u64` sums.
    pub open spec fn wf(&self) -> bool {
        &&& self.saved().len() == 4
        &&& files_sum(self.files@, false) <= u64::MAX
        &&& files_sum(self.files@, true) <= u64::MAX
    }

    /// No filter is open while an overlay is shown.
    pub open spec fn no_filter_under_overlay(&self) -> bool {
        self.overlay is Some ==> self.filter is None
    }

    /// The file tree is the tree of `files` under `sort`, wrapped in one root
    /// directory that carries the totals.
    pub open spec fn tree_shows_files(&self) -> bool {
        &&& self.tree().len() == 1
        &&& self.tree()[0] matches TreeV::Dir { children, added, deleted, .. }
        &&& children == build_tree_spec(self.files@, self.sort)
        &&& added as nat == files_sum(self.files@, false)
        &&& deleted as nat == files_sum(self.files@, true)
    }

    /// The rows of the file list.
    pub fn visible_rows(&self) -> (r: Vec<VisibleRow>)
        ensures
            vrows_v(r@) == self.rows(),
    {
        match &self.filter {
            None => crate::tree::visible_rows(self.tree_cache.as_slice(), &self.collapsed),
            Some(f) => {
                if is_blank(f.as_str()) {
                    let none: Vec<String> = Vec::new();
                    assert(strings_view(none@) =~= Seq::<Seq<char>>::empty());
                    crate::tree::visible_rows(self.tree_cache.as_slice(), &none)
                } else {
                    let (negate, raw) = split_filter(f.as_str());
                    let pat = to_lowercase(raw.as_str());
                    let ghost fv = f@;
                    let pred = |file: &ChangedFile| -> (b: bool)
                        ensures
                            b == (is_substring(pat@, lowercase(file.path@)) != negate),
                        {
                            let lp = to_lowercase(file.path.as_str());
                            let m = contains_str(lp.as_str(), pat.as_str());
                            if negate {
                                !m
                            } else {
                                m
                            }
                        };
                    let rows = filtered_rows(self.tree_cache.as_slice(), &pred);
                    proof {
                        let files = files_at(forest_v(self.tree_cache@), 0);
                        let keep = choose|keep: Seq<bool>| {
                            &&& keep.len() == files.len()
                            &&& (forall|k: int| 0 <= k < keep.len() ==> #[trigger] pred.ensures((&files[k],), keep[k]))
                            &&& vrows_v(rows@) == filt_at(forest_v(self.tree_cache@), 0, keep, 0, seq![], seq![], 0)
                        };
                        assert forall|k: int| 0 <= k < keep.len() implies keep[k] == keep_marks(files, fv)[k] by {
                            assert(pred.ensures((&files[k],), keep[k]));
                        }
                        assert(keep =~= keep_marks(files, fv));
                    }
                    rows
                }
            },
        }
    }
}

impl<'a> Controller<'a> {
    /// The state that decides the file list and what the diff panel loads is
    /// the same in both.
    pub open spec fn same_list(&self, other: &Self) -> bool {
        &&& self.tree_cache@ == other.tree_cache@
        &&& self.collapsed@ == other.collapsed@
        &&& self.filter == other.filter
        &&& self.cursor == other.cursor
        &&& self.files@ == other.files@
        &&& self.sort == other.sort
        &&& self.mode == other.mode
        &&& self.selected_commit == other.selected_commit
        &&& self.has_commits == other.has_commits
        &&& self.mode_state@ == other.mode_state@
        &&& self.facade == other.facade
        &&& self.repo_path == other.repo_path
    }

    /// The scroll, focus, overlay and viewport state is the same in both.
    pub open spec fn same_view(&self, other: &Self) -> bool {
        &&& self.list_scroll == other.list_scroll
        &&& self.focus == other.focus
        &&& self.overlay == other.overlay
        &&& self.loading == other.loading
        &&& self.fold_unchanged == other.fold_unchanged
        &&& self.diff_viewport == other.diff_viewport
        &&& self.diff_hviewport == other.diff_hviewport
        &&& self.diff_max_line_w == other.diff_max_line_w
        &&& self.list_viewport == other.list_viewport
    }

    /// The loaded diff and its navigation are the same in both.
    pub open spec fn same_diff(&self, other: &Self) -> bool {
        &&& self.diff_rows@ == other.diff_rows@
        &&& self.diff_file == other.diff_file
        &&& self.diff_vscroll == other.diff_vscroll
        &&& self.diff_hscroll == other.diff_hscroll
        &&& self.diff_cursor == other.diff_cursor
        &&& self.hunk_idx == other.hunk_idx
        &&& self.hunk_count == other.hunk_count
        &&& self.status@ == other.status@
    }

    /// The hunk counter matches the diff: `hunk_count` hunks, the cursor in
    /// hunk number `hunk_idx`.
    pub open spec fn hunks_synced(&self) -> bool {
        exists|s: Seq<usize>| {
            &&& hunk_list(self.diff_rows@, s)
            &&& self.hunk_count == s.len()
            &&& hunk_number(s, self.diff_cursor, self.hunk_idx)
        }
    }

    fn sync_hunk_idx(&mut self)
        ensures
            final(self).same_list(old(self)),
            final(self).same_view(old(self)),
            final(self).diff_rows@ == old(self).diff_rows@,
            final(self).diff_file == old(self).diff_file,
            final(self).diff_vscroll == old(self).diff_vscroll,
            final(self).diff_hscroll == old(self).diff_hscroll,
            final(self).diff_cursor == old(self).diff_cursor,
            final(self).status@ == old(self).status@,
            final(self).hunks_synced(),
    {
        let starts = hunk_starts(self.diff_rows.as_slice());
        self.hunk_count = starts.len();
        self.hunk_idx = hunk_index(starts.as_slice(), self.diff_cursor);
        assert(hunk_list(self.diff_rows@, starts@));
    }

    /// Loads the diff of the selected file: its two sides from git, aligned
    /// line by line (nothing for a binary file, unaligned lines when a side
    /// is longer than `LINE_LIMIT`), scrolled to the top.
    fn load_diff(&mut self)
        ensures
            final(self).same_list(old(self)),
            final(self).same_view(old(self)),
            final(self).diff_file == old(self).selected_file(),
            old(self).selected_file() is None ==> {
                &&& final(self).diff_rows@.len() == 0
                &&& final(self).diff_vscroll == old(self).diff_vscroll
                &&& final(self).diff_hscroll == old(self).diff_hscroll
                &&& final(self).diff_cursor == old(self).diff_cursor
                &&& final(self).hunk_idx == old(self).hunk_idx
                &&& final(self).hunk_count == old(self).hunk_count
                &&& final(self).status@ == old(self).status@
            },
            old(self).selected_file() matches Some(f) ==> {
                &&& final(self).diff_vscroll == 0
                &&& final(self).diff_hscroll == 0
                &&& final(self).diff_cursor == 0
                &&& final(self).hunks_synced()
                &&& final(self).status@ == old(self).status@
                &&& f.is_binary ==> final(self).diff_rows@.len() == 0
                &&& !f.is_binary ==> rows_of_file(
                    crate::align::rows_view(final(self).diff_rows@),
                    old(self).mode,
                    opt_view(old(self).selected_commit),
                    f,
                )
                &&& forall|q: int| 0 <= q < final(self).diff_rows@.len() ==> crate::align::row_inline_ok(
                    #[trigger] final(self).diff_rows@[q],
                )
            },
            final(self).diff_matches_file(),
    {
        let rows = self.visible_rows();
        let file: Option<ChangedFile> = if self.cursor < rows.len() {
            match &rows[self.cursor] {
                VisibleRow::File { file, .. } => Some(file.duplicate()),
                VisibleRow::Dir { .. } => None,
            }
        } else {
            None
        };
        assert(self.cursor < rows.len() ==> vrow_v(rows@[self.cursor as int]) == self.rows()[self.cursor as int]);
        match file {
            Some(file) => {
                let sides = match self.mode {
                    ComparisonMode::CommitVsHead => match &self.selected_commit {
                        Some(c) => self.facade.file_sides_between(c.as_str(), &file),
                        None => Ok(FileSides { original: None, changed: None }),
                    },
                    _ => self.facade.file_sides(self.mode, &file),
                };
                match sides {
                    Ok(sides) => {
                        let big = side_too_long(&sides.original) || side_too_long(&sides.changed);
                        let original = side_slice(&sides.original);
                        let changed = side_slice(&sides.changed);
                        let ghost ov = crate::align::content_view(original);
                        let ghost cv = crate::align::content_view(changed);
                        self.diff_rows = if file.is_binary {
                            Vec::new()
                        } else if big {
                            plain_rows(original, changed)
                        } else {
                            align_rows(original, changed, false)
                        };
                        proof {
                            if !file.is_binary {
                                assert(crate::align::rows_view(self.diff_rows@) == shown_rows(ov, cv));
                                let commit = opt_view(self.selected_commit);
                                let pair = if self.mode != ComparisonMode::CommitVsHead {
                                    choose|pair: SidePair| mode_pair(pair, self.mode, None) && sides_fit(pair, file, sides)
                                } else if commit is None {
                                    SidePair { original: SideRef::Commit(vstd::pervasive::arbitrary()), changed: SideRef::Head }
                                } else {
                                    choose|pair: SidePair| mode_pair(pair, self.mode, commit) && sides_fit(pair, file, sides)
                                };
                                assert(mode_pair(pair, self.mode, commit));
                                assert(sides_fit(pair, file, sides));
                                assert(ov == side_bytes(sides.original) && cv == side_bytes(sides.changed));
                            }
                            assert forall|q: int| 0 <= q < self.diff_rows@.len() implies crate::align::row_inline_ok(
                                #[trigger] self.diff_rows@[q],
                            ) by {
                                if big && !file.is_binary {
                                    assert(self.diff_rows@[q].original matches Some(c) ==> c.inline is None);
                                }
                            }
                        }
                        self.diff_file = Some(file);
                        self.diff_vscroll = 0;
                        self.diff_hscroll = 0;
                        self.diff_cursor = 0;
                        self.sync_hunk_idx();
                    },
                    Err(e) => {
                        self.status = concat("加载对比失败: ", e.message().as_str());
                        self.diff_file = None;
                    },
                }
            },
            None => {
                self.diff_file = None;
                self.diff_rows = Vec::new();
            },
        }
    }
}

/// `cur` moved `amount` steps forward or back, kept within `0..len`.
pub open spec fn clamp_step(cur: int, forward: bool, amount: int, len: int) -> int {
    let t = if forward { cur + amount } else { cur - amount };
    if t < 0 {
        0
    } else if t > len - 1 {
        len - 1
    } else {
        t
    }
}

/// The first row shown so that row `cursor` is within a window of
/// `viewport` rows (at least one) starting at `vscroll`, moving the window
/// as little as possible.
pub open spec fn scroll_to_show(cursor: usize, vscroll: usize, viewport: usize) -> usize {
    let v = if viewport == 0 { 1 } else { viewport };
    if cursor < vscroll {
        cursor
    } else if cursor - vscroll >= v {
        (cursor + 1 - v) as usize
    } else {
        vscroll
    }
}

/// The largest horizontal scroll: the longest line's width past the pane
/// width (each at least one column).
pub open spec fn max_hscroll(max_line_w: usize, hviewport: usize) -> int {
    let w = if hviewport == 0 { 1 } else { hviewport };
    let m = if max_line_w > w { max_line_w } else { w };
    m - w
}

/// The row a hunk jump lands on: the nearest hunk start after `cur`
/// (before it, going back), or `cur` when there is none.
pub open spec fn hunk_jump(rows: Seq<AlignedRow>, cur: usize, forward: bool, t: usize) -> bool {
    if forward {
        ||| (is_hunk_start(rows, t as int) && t > cur && forall|i: int| cur < i < t ==> !is_hunk_start(rows, i))
        ||| (t == cur && forall|i: int| i > cur ==> !is_hunk_start(rows, i))
    } else {
        ||| (is_hunk_start(rows, t as int) && t < cur && forall|i: int| t < i < cur ==> !is_hunk_start(rows, i))
        ||| (t == cur && forall|i: int| i < cur ==> !is_hunk_start(rows, i))
    }
}

/// The first element of an increasing list above `cur`, or `cur`.
fn next_start(starts: &Vec<usize>, cur: usize) -> (r: usize)
    requires
        increasing(starts@),
    ensures
        (starts@.contains(r) && r > cur && forall|k: int| 0 <= k < starts.len() && starts@[k] > cur ==> starts@[k] >= r)
            || (r == cur && forall|k: int| 0 <= k < starts.len() ==> starts@[k] <= cur),
{
    let mut k: usize = 0;
    while k < starts.len()
        invariant
            increasing(starts@),
            k <= starts.len(),
            forall|j: int| 0 <= j < k ==> starts@[j] <= cur,
        decreases starts.len() - k,
    {
        if starts[k] > cur {
            assert(starts@.contains(starts@[k as int]));
            assert forall|q: int| 0 <= q < starts.len() && #[trigger] starts@[q] > cur implies starts@[q] >= starts@[k as int] by {
                if q < k {
                } else if q > k {
                    assert(starts@[k as int] < starts@[q]);
                }
            }
            return starts[k];
        }
        k += 1;
    }
    cur
}

/// The last element of an increasing list below `cur`, or `cur`.
fn prev_start(starts: &Vec<usize>, cur: usize) -> (r: usize)
    requires
        increasing(starts@),
    ensures
        (starts@.contains(r) && r < cur && forall|k: int| 0 <= k < starts.len() && starts@[k] < cur ==> starts@[k] <= r)
            || (r == cur && forall|k: int| 0 <= k < starts.len() ==> starts@[k] >= cur),
{
    let mut k: usize = starts.len();
    while k > 0
        invariant
            increasing(starts@),
            k <= starts.len(),
            forall|j: int| k <= j < starts.len() ==> starts@[j] >= cur,
        decreases k,
    {
        if starts[k - 1] < cur {
            assert(starts@.contains(starts@[k - 1]));
            assert forall|q: int| 0 <= q < starts.len() && #[trigger] starts@[q] < cur implies starts@[q] <= starts@[k - 1] by {
                if q >= k {
                } else if q < k - 1 {
                    assert(starts@[q] < starts@[k - 1]);
                }
            }
            return starts[k - 1];
        }
        k -= 1;
    }
    cur
}

impl<'a> Controller<'a> {
    /// Everything but the diff navigation (cursor, scroll, hunk counter and
    /// focus) is the same in both.
    pub open spec fn same_but_diff_nav(&self, other: &Self) -> bool {
        &&& self.same_list(other)
        &&& self.list_scroll == other.list_scroll
        &&& self.overlay == other.overlay
        &&& self.loading == other.loading
        &&& self.fold_unchanged == other.fold_unchanged
        &&& self.diff_viewport == other.diff_viewport
        &&& self.diff_hviewport == other.diff_hviewport
        &&& self.diff_max_line_w == other.diff_max_line_w
        &&& self.list_viewport == other.list_viewport
        &&& self.diff_rows@ == other.diff_rows@
        &&& self.diff_file == other.diff_file
        &&& self.status@ == other.status@
    }

    fn keep_cursor_visible(&mut self)
        ensures
            final(self).same_but_diff_nav(old(self)),
            final(self).focus == old(self).focus,
            final(self).diff_cursor == old(self).diff_cursor,
            final(self).diff_hscroll == old(self).diff_hscroll,
            final(self).hunk_idx == old(self).hunk_idx,
            final(self).hunk_count == old(self).hunk_count,
            final(self).diff_vscroll == scroll_to_show(old(self).diff_cursor, old(self).diff_vscroll, old(self).diff_viewport),
    {
        let viewport = if self.diff_viewport == 0 { 1 } else { self.diff_viewport };
        if self.diff_cursor < self.diff_vscroll {
            self.diff_vscroll = self.diff_cursor;
        } else if self.diff_cursor - self.diff_vscroll >= viewport {
            self.diff_vscroll = self.diff_cursor - (viewport - 1);
        }
    }

    /// Moves the diff cursor `amount` rows down (or up), within the rows,
    /// and scrolls so that it stays in view.
    fn move_diff_cursor(&mut self, forward: bool, amount: usize)
        ensures
            final(self).same_but_diff_nav(old(self)),
            final(self).focus == old(self).focus,
            final(self).diff_hscroll == old(self).diff_hscroll,
            old(self).diff_rows.len() == 0 ==> final(self).diff_cursor == old(self).diff_cursor
                && final(self).diff_vscroll == old(self).diff_vscroll && final(self).hunk_idx == old(self).hunk_idx
                && final(self).hunk_count == old(self).hunk_count,
            old(self).diff_rows.len() > 0 ==> {
                &&& final(self).diff_cursor == clamp_step(old(self).diff_cursor as int, forward, amount as int, old(self).diff_rows.len() as int)
                &&& final(self).diff_vscroll == scroll_to_show(final(self).diff_cursor, old(self).diff_vscroll, old(self).diff_viewport)
                &&& final(self).hunks_synced()
            },
    {
        if self.diff_rows.len() == 0 {
            return;
        }
        let last = self.diff_rows.len() - 1;
        let new = if forward {
            if amount > last || self.diff_cursor > last - amount {
                last
            } else {
                self.diff_cursor + amount
            }
        } else {
            if amount > self.diff_cursor {
                0
            } else if self.diff_cursor - amount > last {
                last
            } else {
                self.diff_cursor - amount
            }
        };
        self.diff_cursor = new;
        self.keep_cursor_visible();
        self.sync_hunk_idx();
    }

    /// Scrolls the diff panes eight columns right (or left), within the
    /// longest line.
    fn scroll_horizontal(&mut self, forward: bool)
        ensures
            final(self).same_but_diff_nav(old(self)),
            final(self).focus == old(self).focus,
            final(self).diff_cursor == old(self).diff_cursor,
            final(self).diff_vscroll == old(self).diff_vscroll,
            final(self).hunk_idx == old(self).hunk_idx,
            final(self).hunk_count == old(self).hunk_count,
            final(self).diff_hscroll == clamp_step(
                old(self).diff_hscroll as int,
                forward,
                8,
                max_hscroll(old(self).diff_max_line_w, old(self).diff_hviewport) + 1,
            ),
    {
        let viewport_w = if self.diff_hviewport == 0 { 1 } else { self.diff_hviewport };
        let max_w = if self.diff_max_line_w > viewport_w { self.diff_max_line_w } else { viewport_w };
        let max = max_w - viewport_w;
        let new = if forward {
            if self.diff_hscroll >= max || max - self.diff_hscroll < 8 {
                max
            } else {
                self.diff_hscroll + 8
            }
        } else {
            if self.diff_hscroll < 8 {
                0
            } else if self.diff_hscroll - 8 > max {
                max
            } else {
                self.diff_hscroll - 8
            }
        };
        self.diff_hscroll = new;
    }

    /// Jumps the diff cursor to the next (or previous) hunk and focuses the
    /// diff panel; nothing happens in a diff without hunks.
    fn jump_hunk(&mut self, forward: bool)
        ensures
            final(self).same_but_diff_nav(old(self)),
            final(self).diff_hscroll == old(self).diff_hscroll,
            (forall|i: int| !is_hunk_start(old(self).diff_rows@, i)) ==> final(self).focus == old(self).focus
                && final(self).diff_cursor == old(self).diff_cursor && final(self).diff_vscroll == old(self).diff_vscroll
                && final(self).hunk_idx == old(self).hunk_idx && final(self).hunk_count == old(self).hunk_count,
            (exists|i: int| is_hunk_start(old(self).diff_rows@, i)) ==> {
                &&& final(self).focus == Focus::Diff
                &&& hunk_jump(old(self).diff_rows@, old(self).diff_cursor, forward, final(self).diff_cursor)
                &&& final(self).diff_cursor != old(self).diff_cursor ==> final(self).diff_vscroll == scroll_to_show(
                    final(self).diff_cursor,
                    old(self).diff_vscroll,
                    old(self).diff_viewport,
                ) && final(self).hunks_synced()
                &&& final(self).diff_cursor == old(self).diff_cursor ==> final(self).diff_vscroll == old(self).diff_vscroll
                    && final(self).hunk_idx == old(self).hunk_idx && final(self).hunk_count == old(self).hunk_count
            },
    {
        let starts = hunk_starts(self.diff_rows.as_slice());
        let ghost rows = self.diff_rows@;
        assert(rows.len() == self.diff_rows.len());
        if starts.len() == 0 {
            assert forall|i: int| !is_hunk_start(rows, i) by {
                if is_hunk_start(rows, i) {
                    assert(starts@.contains(i as usize));
                }
            }
            return;
        }
        assert(is_hunk_start(rows, starts@[0] as int));
        let cur = self.diff_cursor;
        let target = if forward {
            next_start(&starts, cur)
        } else {
            prev_start(&starts, cur)
        };
        proof {
            if forward {
                if target > cur {
                    assert forall|i: int| cur < i < target implies !is_hunk_start(rows, i) by {
                        if is_hunk_start(rows, i) {
                            assert(starts@.contains(i as usize));
                            let j = choose|j: int| 0 <= j < starts.len() && starts@[j] == i as usize;
                            assert(starts@[j] as int == i);
                        }
                    }
                } else {
                    assert forall|i: int| i > cur implies !is_hunk_start(rows, i) by {
                        if is_hunk_start(rows, i) {
                            assert(starts@.contains(i as usize));
                            let j = choose|j: int| 0 <= j < starts.len() && starts@[j] == i as usize;
                            assert(starts@[j] as int == i);
                        }
                    }
                }
            } else {
                if target < cur {
                    assert forall|i: int| target < i < cur implies !is_hunk_start(rows, i) by {
                        if is_hunk_start(rows, i) {
                            assert(starts@.contains(i as usize));
                            let j = choose|j: int| 0 <= j < starts.len() && starts@[j] == i as usize;
                            assert(starts@[j] as int == i);
                        }
                    }
                } else {
                    assert forall|i: int| i < cur implies !is_hunk_start(rows, i) by {
                        if is_hunk_start(rows, i) {
                            assert(starts@.contains(i as usize));
                            let j = choose|j: int| 0 <= j < starts.len() && starts@[j] == i as usize;
                            assert(starts@[j] as int == i);
                        }
                    }
                }
            }
            if target != cur {
                let j = choose|j: int| 0 <= j < starts.len() && starts@[j] == target;
            }
        }
        self.focus = Focus::Diff;
        if target != cur {
            self.diff_cursor = target;
            self.keep_cursor_visible();
            self.sync_hunk_idx();
        }
    }
}

// ------------------------------------------------------------ collapsed set

/// Adds `s` to a list of strings used as a set (nothing when present).
pub fn insert_path(v: &mut Vec<String>, s: &str)
    ensures
        strings_view(old(v)@).contains(s@) ==> final(v)@ == old(v)@,
        !strings_view(old(v)@).contains(s@) ==> strings_view(final(v)@) == strings_view(old(v)@).push(s@),
{
    if !crate::tree::contains_str(v, s) {
        v.push(s.to_owned());
        assert(strings_view(v@) =~= strings_view(old(v)@).push(s@));
    }
}

/// Removes every copy of `s` from a list of strings used as a set.
pub fn remove_path(v: &mut Vec<String>, s: &str)
    ensures
        forall|p: Seq<char>| #[trigger] strings_view(final(v)@).contains(p) <==> (strings_view(old(v)@).contains(p) && p != s@),
{
    let mut out: Vec<String> = Vec::new();
    let mut i: usize = 0;
    assert(strings_view(out@) =~= Seq::<Seq<char>>::empty());
    assert(strings_view(v@.take(0)) =~= Seq::<Seq<char>>::empty());
    while i < v.len()
        invariant
            i <= v.len(),
            forall|p: Seq<char>| #[trigger] strings_view(out@).contains(p) <==> (strings_view(v@.take(i as int)).contains(p) && p != s@),
        decreases v.len() - i,
    {
        broadcast use vstd::seq_lib::lemma_seq_contains_after_push;
        let ghost before = strings_view(out@);
        let ghost x = v@[i as int]@;
        assert(strings_view(v@.take(i + 1)) =~= strings_view(v@.take(i as int)).push(x));
        if !str_eq(v[i].as_str(), s) {
            out.push(v[i].clone());
            assert(strings_view(out@) =~= before.push(x));
        }
        i += 1;
    }
    assert(v@.take(v.len() as int) =~= v@);
    *v = out;
}

/// The part of a path before its last `/`, if it has one.
pub open spec fn parent_dir(p: Seq<char>) -> Option<Seq<char>> {
    if exists|i: int| 0 <= i < p.len() && p[i] == '/' {
        let i = choose|i: int| 0 <= i < p.len() && p[i] == '/' && forall|j: int| i < j < p.len() ==> p[j] != '/';
        Some(p.take(i))
    } else {
        None
    }
}

/// `str::rsplit_once('/')`, the part before the separator.
fn parent_dir_exec(p: &str) -> (r: Option<String>)
    ensures
        opt_view(r) == parent_dir(p@),
{
    let v = chars_of(p);
    let mut i = v.len();
    while i > 0
        invariant
            v@ == p@,
            i <= v.len(),
            forall|j: int| i <= j < v.len() ==> v@[j] != '/',
        decreases i,
    {
        if v[i - 1] == '/' {
            let r = string_of_range(&v, 0, i - 1);
            proof {
                let k = (i - 1) as int;
                let c = choose|c: int| 0 <= c < p@.len() && p@[c] == '/' && forall|j: int| c < j < p@.len() ==> p@[j] != '/';
                if c < k {
                    assert(p@[k] != '/');
                }
                if c > k {
                    assert(p@[c] != '/');
                }
                assert(v@.subrange(0, k) =~= p@.take(k));
            }
            return Some(r);
        }
        i -= 1;
    }
    None
}

/// The first index at or after `from` of a directory row with path `p`.
pub open spec fn first_dir_row(rows: Seq<RowV>, p: Seq<char>, from: int) -> Option<int>
    decreases rows.len() - from,
{
    if from < 0 || from >= rows.len() {
        None
    } else if rows[from] matches RowV::Dir { path, .. } && path == p {
        Some(from)
    } else {
        first_dir_row(rows, p, from + 1)
    }
}

fn find_dir_row(rows: &Vec<VisibleRow>, p: &str) -> (r: Option<usize>)
    ensures
        match r {
            Some(i) => first_dir_row(vrows_v(rows@), p@, 0) == Some(i as int),
            None => first_dir_row(vrows_v(rows@), p@, 0) is None,
        },
{
    let mut i: usize = 0;
    while i < rows.len()
        invariant
            i <= rows.len(),
            first_dir_row(vrows_v(rows@), p@, 0) == first_dir_row(vrows_v(rows@), p@, i as int),
        decreases rows.len() - i,
    {
        assert(vrows_v(rows@)[i as int] == vrow_v(rows@[i as int]));
        match &rows[i] {
            VisibleRow::Dir { path, .. } => {
                if str_eq(path.as_str(), p) {
                    return Some(i);
                }
            },
            VisibleRow::File { .. } => {},
        }
        i += 1;
    }
    None
}

/// The first index of a file row whose path is `p`.
pub open spec fn first_file_row(rows: Seq<RowV>, p: Seq<char>, from: int) -> Option<int>
    decreases rows.len() - from,
{
    if from < 0 || from >= rows.len() {
        None
    } else if rows[from] matches RowV::File { file, .. } && file.path@ == p {
        Some(from)
    } else {
        first_file_row(rows, p, from + 1)
    }
}

fn find_file_row(rows: &Vec<VisibleRow>, p: &str) -> (r: Option<usize>)
    ensures
        match r {
            Some(i) => first_file_row(vrows_v(rows@), p@, 0) == Some(i as int),
            None => first_file_row(vrows_v(rows@), p@, 0) is None,
        },
{
    let mut i: usize = 0;
    while i < rows.len()
        invariant
            i <= rows.len(),
            first_file_row(vrows_v(rows@), p@, 0) == first_file_row(vrows_v(rows@), p@, i as int),
        decreases rows.len() - i,
    {
        assert(vrows_v(rows@)[i as int] == vrow_v(rows@[i as int]));
        match &rows[i] {
            VisibleRow::File { file, .. } => {
                if str_eq(file.path.as_str(), p) {
                    return Some(i);
                }
            },
            VisibleRow::Dir { .. } => {},
        }
        i += 1;
    }
    None
}

/// The first index of a row (file or directory) whose path is `p`.
fn find_row(rows: &Vec<VisibleRow>, p: &str) -> (r: Option<usize>)
    ensures
        match r {
            Some(i) => first_row_with_path(vrows_v(rows@), p@, 0) == Some(i as int),
            None => first_row_with_path(vrows_v(rows@), p@, 0) is None,
        },
{
    let mut i: usize = 0;
    while i < rows.len()
        invariant
            i <= rows.len(),
            first_row_with_path(vrows_v(rows@), p@, 0) == first_row_with_path(vrows_v(rows@), p@, i as int),
        decreases rows.len() - i,
    {
        assert(vrows_v(rows@)[i as int] == vrow_v(rows@[i as int]));
        let same = match &rows[i] {
            VisibleRow::File { file, .. } => str_eq(file.path.as_str(), p),
            VisibleRow::Dir { path, .. } => str_eq(path.as_str(), p),
        };
        if same {
            return Some(i);
        }
        i += 1;
    }
    None
}

/// The next sort mode: path, status, added lines, and back to path.
pub open spec fn next_sort(s: SortMode) -> SortMode {
    match s {
        SortMode::Path => SortMode::Status,
        SortMode::Status => SortMode::Added,
        SortMode::Added => SortMode::Path,
    }
}

/// The status line shown after the sort changed.
pub open spec fn sort_status(s: SortMode) -> Seq<char> {
    match s {
        SortMode::Path => "排序: 路径"@,
        SortMode::Status => "排序: 状态"@,
        SortMode::Added => "排序: 增行数"@,
    }
}

/// The last segment of a path (`Path::file_name`, lossily decoded), if it
/// has one. What the segment is, is not stated here.
#[verifier::external_body]
fn file_name_text(p: &std::path::PathBuf) -> Option<String> {
    p.file_name().map(|n| n.to_string_lossy().into_owned())
}

/// A path as `Path::display` shows it. What the text is, is not stated
/// here.
#[verifier::external_body]
fn display_text(p: &std::path::PathBuf) -> String {
    p.display().to_string()
}

impl<'a> Controller<'a> {
    /// The settings and data that only loading and mode changes touch are
    /// the same in both.
    pub open spec fn same_data(&self, other: &Self) -> bool {
        &&& self.files@ == other.files@
        &&& self.sort == other.sort
        &&& self.mode == other.mode
        &&& self.selected_commit == other.selected_commit
        &&& self.has_commits == other.has_commits
        &&& self.mode_state@ == other.mode_state@
        &&& self.facade == other.facade
        &&& self.repo_path == other.repo_path
    }

    /// Moves the list cursor `amount` rows down (or up), within the rows,
    /// loading the diff of the new row when it moved.
    fn move_cursor(&mut self, forward: bool, amount: usize)
        ensures
            final(self).same_data(old(self)),
            final(self).same_view(old(self)),
            final(self).tree_cache@ == old(self).tree_cache@,
            final(self).collapsed@ == old(self).collapsed@,
            final(self).filter == old(self).filter,
            old(self).rows().len() == 0 ==> final(self).cursor == old(self).cursor,
            old(self).rows().len() > 0 ==> final(self).cursor == clamp_step(old(self).cursor as int, forward, amount as int, old(self).rows().len() as int),
            final(self).cursor == old(self).cursor ==> final(self).same_diff(old(self)),
            final(self).cursor != old(self).cursor ==> final(self).diff_follows_selection(),
            old(self).diff_matches_file() ==> final(self).diff_matches_file(),
    {
        let rows = self.visible_rows();
        if rows.len() == 0 {
            return;
        }
        let last = rows.len() - 1;
        let new = if forward {
            if amount > last || self.cursor > last - amount {
                last
            } else {
                self.cursor + amount
            }
        } else {
            if amount > self.cursor {
                0
            } else if self.cursor - amount > last {
                last
            } else {
                self.cursor - amount
            }
        };
        if new != self.cursor {
            self.cursor = new;
            self.load_diff();
        }
    }

    /// Unfolds the directory on the selected row.
    fn expand_dir(&mut self)
        ensures
            final(self).same_data(old(self)),
            final(self).same_view(old(self)),
            old(self).filter is Some || !old(self).dir_path_repeats_above() ==> final(self).same_diff(old(self)),
            final(self).status@ == old(self).status@,
            final(self).tree_cache@ == old(self).tree_cache@,
            final(self).filter == old(self).filter,
            final(self).cursor == old(self).cursor,
            expand_effect(old(self), final(self)),
            old(self).diff_follows_selection() ==> final(self).diff_follows_selection(),
            old(self).diff_matches_file() ==> final(self).diff_matches_file(),
    {
        let rows = self.visible_rows();
        if self.cursor < rows.len() {
            assert(vrow_v(rows@[self.cursor as int]) == self.rows()[self.cursor as int]);
            match &rows[self.cursor] {
                VisibleRow::Dir { path, .. } => {
                    let ghost before = *self;
                    let first = find_dir_row(&rows, path.as_str());
                    remove_path(&mut self.collapsed, path.as_str());
                    if self.filter.is_none() && first != Some(self.cursor) {
                        self.load_diff();
                    }
                    proof {
                        if self.filter is None {
                            lemma_unfold_keeps_prefix(
                                self.tree(),
                                0,
                                strings_view(before.collapsed@),
                                strings_view(self.collapsed@),
                                path@,
                                seq![],
                                seq![],
                                0,
                            );
                            if before.diff_follows_selection() && !before.dir_path_repeats_above() {
                                assert(first_dir_row(before.rows(), path@, 0) == Some(self.cursor as int));
                                assert(self.rows()[self.cursor as int] is Dir);
                            }
                        } else {
                            assert(self.rows() == before.rows());
                        }
                    }
                },
                VisibleRow::File { .. } => {},
            }
        }
    }

    /// Folds the directory on the selected row, or the directory holding
    /// the selected file, and selects that directory's row.
    fn collapse_dir(&mut self)
        ensures
            final(self).same_data(old(self)),
            final(self).same_view(old(self)),
            final(self).tree_cache@ == old(self).tree_cache@,
            final(self).filter == old(self).filter,
            collapse_effect(old(self), final(self)),
            old(self).diff_matches_file() ==> final(self).diff_matches_file(),
    {
        let rows = self.visible_rows();
        let target: Option<String> = if self.cursor < rows.len() {
            assert(vrow_v(rows@[self.cursor as int]) == self.rows()[self.cursor as int]);
            match &rows[self.cursor] {
                VisibleRow::Dir { path, .. } => Some(path.clone()),
                VisibleRow::File { file, .. } => parent_dir_exec(file.path.as_str()),
            }
        } else {
            None
        };
        match target {
            Some(path) => {
                insert_path(&mut self.collapsed, path.as_str());
                let rows = self.visible_rows();
                match find_dir_row(&rows, path.as_str()) {
                    Some(idx) => {
                        self.cursor = idx;
                        self.load_diff();
                    },
                    None => {
                        proof {
                            lemma_first_dir_none(self.rows(), path@, 0);
                            if self.filter is None && !strings_view(old(self).collapsed@).contains(path@) {
                                crate::tree::lemma_fold_unseen_dir(
                                    self.tree(),
                                    0,
                                    strings_view(old(self).collapsed@),
                                    path@,
                                    seq![],
                                    seq![],
                                    0,
                                );
                            }
                            assert(self.rows() == old(self).rows());
                        }
                    },
                }
            },
            None => {},
        }
    }

    fn toggle_focus(&mut self)
        ensures
            final(self).same_data(old(self)),
            final(self).same_diff(old(self)),
            final(self).tree_cache@ == old(self).tree_cache@,
            final(self).collapsed@ == old(self).collapsed@,
            final(self).filter == old(self).filter,
            final(self).cursor == old(self).cursor,
            final(self).list_scroll == old(self).list_scroll,
            final(self).overlay == old(self).overlay,
            final(self).focus == match old(self).focus {
                Focus::FileList => Focus::Diff,
                Focus::Diff => Focus::FileList,
            },
    {
        self.focus = match self.focus {
            Focus::FileList => Focus::Diff,
            Focus::Diff => Focus::FileList,
        };
    }

    /// The name of the repository's own directory, or the whole path when it
    /// has no last segment.
    fn repo_root_name(&self) -> String {
        match file_name_text(&self.repo_path) {
            Some(n) => n,
            None => display_text(&self.repo_path),
        }
    }

    /// Rebuilds the cached tree from the current files, wrapped under a root
    /// directory named after the repository's directory.
    fn rebuild_tree(&mut self)
        requires
            files_sum(old(self).files@, false) <= u64::MAX,
            files_sum(old(self).files@, true) <= u64::MAX,
        ensures
            final(self).same_data(old(self)),
            final(self).same_view(old(self)),
            final(self).same_diff(old(self)),
            final(self).collapsed@ == old(self).collapsed@,
            final(self).filter == old(self).filter,
            final(self).cursor == old(self).cursor,
            final(self).tree_shows_files(),
    {
        let children = build_tree(self.files.as_slice(), self.sort);
        proof {
            crate::tree::lemma_build_tree_totals(self.files@, self.sort);
        }
        let name = self.repo_root_name();
        let root = wrap_root(children, name);
        let mut t: Vec<TreeNode> = Vec::new();
        t.push(root);
        self.tree_cache = t;
        proof {
            crate::tree::lemma_forest_v_pointwise(self.tree_cache@);
        }
    }

    /// Switches to the next sort mode and rebuilds the tree.
    fn cycle_sort(&mut self)
        requires
            old(self).wf(),
        ensures
            final(self).wf(),
            final(self).sort == next_sort(old(self).sort),
            final(self).status@ == sort_status(final(self).sort),
            final(self).tree_shows_files(),
            final(self).files@ == old(self).files@,
            final(self).mode == old(self).mode,
            final(self).selected_commit == old(self).selected_commit,
            final(self).has_commits == old(self).has_commits,
            final(self).mode_state@ == old(self).mode_state@,
            final(self).facade == old(self).facade,
            final(self).repo_path == old(self).repo_path,
            final(self).same_view(old(self)),
            final(self).collapsed@ == old(self).collapsed@,
            final(self).filter == old(self).filter,
            final(self).cursor == old(self).cursor,
            final(self).diff_rows@ == old(self).diff_rows@,
            final(self).diff_file == old(self).diff_file,
            final(self).diff_vscroll == old(self).diff_vscroll,
            final(self).diff_hscroll == old(self).diff_hscroll,
            final(self).diff_cursor == old(self).diff_cursor,
    {
        self.sort = match self.sort {
            SortMode::Path => SortMode::Status,
            SortMode::Status => SortMode::Added,
            SortMode::Added => SortMode::Path,
        };
        self.rebuild_tree();
        self.status = match self.sort {
            SortMode::Path => "排序: 路径".to_owned(),
            SortMode::Status => "排序: 状态".to_owned(),
            SortMode::Added => "排序: 增行数".to_owned(),
        };
    }

    /// Folds every directory of the tree and reloads the diff of the
    /// selected row.
    fn collapse_all_dirs(&mut self)
        ensures
            final(self).same_data(old(self)),
            final(self).same_view(old(self)),
            final(self).tree_cache@ == old(self).tree_cache@,
            final(self).filter == old(self).filter,
            final(self).cursor == old(self).cursor,
            forall|p: Seq<char>| #[trigger] strings_view(final(self).collapsed@).contains(p) <==> (strings_view(old(self).collapsed@).contains(p)
                || crate::tree::dirs_at(old(self).tree(), 0, seq![]).contains(p)),
            final(self).diff_follows_selection(),
            old(self).diff_matches_file() ==> final(self).diff_matches_file(),
    {
        let paths = crate::tree::all_dir_paths(self.tree_cache.as_slice());
        let ghost start = strings_view(self.collapsed@);
        let ghost dirs = strings_view(paths@);
        let mut c = copy_strings(&self.collapsed);
        let mut i: usize = 0;
        assert(dirs.take(0) =~= Seq::<Seq<char>>::empty());
        while i < paths.len()
            invariant
                i <= paths.len(),
                dirs == strings_view(paths@),
                forall|p: Seq<char>| #[trigger] strings_view(c@).contains(p) <==> (start.contains(p) || dirs.take(i as int).contains(p)),
            decreases paths.len() - i,
        {
            broadcast use vstd::seq_lib::lemma_seq_contains_after_push;
            insert_path(&mut c, paths[i].as_str());
            assert(dirs.take(i + 1) =~= dirs.take(i as int).push(paths@[i as int]@));
            i += 1;
        }
        assert(dirs.take(paths.len() as int) =~= dirs);
        self.collapsed = c;
        self.load_diff();
    }

    /// Unfolds every directory and reloads the diff of the selected row.
    fn expand_all_dirs(&mut self)
        ensures
            final(self).same_data(old(self)),
            final(self).same_view(old(self)),
            final(self).tree_cache@ == old(self).tree_cache@,
            final(self).filter == old(self).filter,
            final(self).cursor == old(self).cursor,
            final(self).collapsed@.len() == 0,
            final(self).diff_follows_selection(),
            old(self).diff_matches_file() ==> final(self).diff_matches_file(),
    {
        self.collapsed = Vec::new();
        self.load_diff();
    }
}

/// Whether the totals of `added` and of `deleted` over the files fit in
/// `u64`.
pub fn sums_fit(files: &Vec<ChangedFile>) -> (r: bool)
    ensures
        r == (files_sum(files@, false) <= u64::MAX && files_sum(files@, true) <= u64::MAX),
{
    let mut a: u64 = 0;
    let mut d: u64 = 0;
    let mut i: usize = 0;
    while i < files.len()
        invariant
            i <= files.len(),
            a == files_sum(files@.take(i as int), false),
            d == files_sum(files@.take(i as int), true),
        decreases files.len() - i,
    {
        assert(files@.take(i + 1).drop_last() =~= files@.take(i as int));
        match a.checked_add(files[i].added) {
            Some(x) => a = x,
            None => {
                proof {
                    lemma_files_sum_prefix(files@, i + 1, false);
                }
                return false;
            },
        }
        match d.checked_add(files[i].deleted) {
            Some(x) => d = x,
            None => {
                proof {
                    lemma_files_sum_prefix(files@, i + 1, true);
                }
                return false;
            },
        }
        i += 1;
    }
    assert(files@.take(files.len() as int) =~= files@);
    true
}

/// A prefix's total is at most the whole total.
proof fn lemma_files_sum_prefix(files: Seq<ChangedFile>, i: int, del: bool)
    requires
        0 <= i <= files.len(),
    ensures
        files_sum(files.take(i), del) <= files_sum(files, del),
    decreases files.len() - i,
{
    if i < files.len() {
        lemma_files_sum_prefix(files, i + 1, del);
        assert(files.take(i + 1).drop_last() =~= files.take(i));
    } else {
        assert(files.take(i) =~= files);
    }
}

/// The index of a mode's snapshot.
pub open spec fn mode_slot(mode: ComparisonMode) -> int {
    match mode {
        ComparisonMode::WorkingVsHead => 0,
        ComparisonMode::StagedVsHead => 1,
        ComparisonMode::StagedVsWorking => 2,
        ComparisonMode::CommitVsHead => 3,
    }
}

/// The path of the row at `cursor`, if there is one.
pub open spec fn path_at(rows: Seq<RowV>, cursor: usize) -> Option<Seq<char>> {
    if cursor < rows.len() {
        Some(row_path_of(rows[cursor as int]))
    } else {
        None
    }
}

impl ModeState {
    /// Whether this snapshot records the navigation of `c`.
    pub open spec fn records(self, c: &Controller) -> bool {
        &&& opt_view(self.selected_path) == path_at(c.rows(), c.cursor)
        &&& self.list_scroll == c.list_scroll
        &&& self.collapsed@ == c.collapsed@
        &&& self.selected_commit == c.selected_commit
        &&& self.diff_vscroll == c.diff_vscroll
        &&& self.diff_hscroll == c.diff_hscroll
        &&& self.diff_cursor == c.diff_cursor
    }

    /// A snapshot of the navigation of `ctrl`.
    fn capture(ctrl: &Controller) -> (r: ModeState)
        ensures
            r.records(ctrl),
    {
        let rows = ctrl.visible_rows();
        let selected_path = if ctrl.cursor < rows.len() {
            assert(vrow_v(rows@[ctrl.cursor as int]) == ctrl.rows()[ctrl.cursor as int]);
            match &rows[ctrl.cursor] {
                VisibleRow::File { file, .. } => Some(file.path.clone()),
                VisibleRow::Dir { path, .. } => Some(path.clone()),
            }
        } else {
            None
        };
        ModeState {
            selected_path,
            list_scroll: ctrl.list_scroll,
            collapsed: copy_strings(&ctrl.collapsed),
            selected_commit: crate::model::copy_opt_string(&ctrl.selected_commit),
            diff_vscroll: ctrl.diff_vscroll,
            diff_hscroll: ctrl.diff_hscroll,
            diff_cursor: ctrl.diff_cursor,
        }
    }

    /// Puts this snapshot's navigation back on `ctrl`: its folded
    /// directories, the first row with the saved path (and the list scroll
    /// with it) when that path is listed, and the diff scroll and cursor.
    fn apply(&self, ctrl: &mut Controller)
        ensures
            final(ctrl).same_data(old(ctrl)),
            final(ctrl).tree_cache@ == old(ctrl).tree_cache@,
            final(ctrl).filter == old(ctrl).filter,
            final(ctrl).collapsed@ == self.collapsed@,
            ({
                let found = match opt_view(self.selected_path) {
                    Some(p) => first_row_with_path(final(ctrl).rows(), p, 0),
                    None => None,
                };
                match found {
                    Some(i) => final(ctrl).cursor == i && final(ctrl).list_scroll == self.list_scroll,
                    None => final(ctrl).cursor == old(ctrl).cursor && final(ctrl).list_scroll == old(ctrl).list_scroll,
                }
            }),
            final(ctrl).diff_vscroll == self.diff_vscroll,
            final(ctrl).diff_hscroll == self.diff_hscroll,
            final(ctrl).diff_cursor == self.diff_cursor,
            final(ctrl).diff_rows@ == old(ctrl).diff_rows@,
            final(ctrl).diff_file == old(ctrl).diff_file,
            final(ctrl).hunk_idx == old(ctrl).hunk_idx,
            final(ctrl).hunk_count == old(ctrl).hunk_count,
            final(ctrl).status@ == old(ctrl).status@,
            final(ctrl).focus == old(ctrl).focus,
            final(ctrl).overlay == old(ctrl).overlay,
            final(ctrl).loading == old(ctrl).loading,
            final(ctrl).fold_unchanged == old(ctrl).fold_unchanged,
            final(ctrl).diff_viewport == old(ctrl).diff_viewport,
            final(ctrl).diff_hviewport == old(ctrl).diff_hviewport,
            final(ctrl).diff_max_line_w == old(ctrl).diff_max_line_w,
            final(ctrl).list_viewport == old(ctrl).list_viewport,
    {
        ctrl.collapsed = copy_strings(&self.collapsed);
        match &self.selected_path {
            Some(path) => {
                let rows = ctrl.visible_rows();
                match find_row(&rows, path.as_str()) {
                    Some(ri) => {
                        ctrl.cursor = ri;
                        ctrl.list_scroll = self.list_scroll;
                    },
                    None => {},
                }
            },
            None => {},
        }
        ctrl.diff_vscroll = self.diff_vscroll;
        ctrl.diff_hscroll = self.diff_hscroll;
        ctrl.diff_cursor = self.diff_cursor;
    }
}

/// The status line of a failed reload.
pub open spec fn reload_failed(msg: Seq<char>) -> Seq<char> {
    "刷新失败: "@ + msg
}

impl<'a> Controller<'a> {
    /// The index of a mode's snapshot.
    fn mode_index(&self, mode: ComparisonMode) -> (r: usize)
        ensures
            r == mode_slot(mode),
    {
        match mode {
            ComparisonMode::WorkingVsHead => 0,
            ComparisonMode::StagedVsHead => 1,
            ComparisonMode::StagedVsWorking => 2,
            ComparisonMode::CommitVsHead => 3,
        }
    }

    /// Saves the current mode's navigation in its snapshot.
    fn save_mode_state(&mut self)
        requires
            old(self).wf(),
        ensures
            final(self).wf(),
            final(self).same_list_but_saved(old(self)),
            final(self).same_view(old(self)),
            final(self).same_diff(old(self)),
            final(self).saved() == old(self).saved().update(mode_slot(old(self).mode), final(self).saved()[mode_slot(old(self).mode)]),
            final(self).saved()[mode_slot(old(self).mode)].records(old(self)),
    {
        let idx = self.mode_index(self.mode);
        let snap = ModeState::capture(self);
        self.mode_state.set(idx, snap);
    }

    /// All but the snapshots is the same in both.
    pub open spec fn same_list_but_saved(&self, other: &Self) -> bool {
        &&& self.tree_cache@ == other.tree_cache@
        &&& self.collapsed@ == other.collapsed@
        &&& self.filter == other.filter
        &&& self.cursor == other.cursor
        &&& self.files@ == other.files@
        &&& self.sort == other.sort
        &&& self.mode == other.mode
        &&& self.selected_commit == other.selected_commit
        &&& self.has_commits == other.has_commits
        &&& self.facade == other.facade
        &&& self.repo_path == other.repo_path
    }

    /// The index into `files` of the file on the selected row, 0 when the
    /// row is no file or the file is not listed.
    fn cursor_index_into_files(&self) -> (r: usize)
        ensures
            match self.selected_file() {
                Some(f) => (exists|i: int| 0 <= i < self.files.len() && #[trigger] self.files@[i].path@ == f.path@)
                    ==> r < self.files.len() && self.files@[r as int].path@ == f.path@
                        && forall|i: int| 0 <= i < r ==> #[trigger] self.files@[i].path@ != f.path@,
                None => r == 0,
            },
            (forall|i: int| 0 <= i < self.files.len() ==> match self.selected_file() {
                Some(f) => #[trigger] self.files@[i].path@ != f.path@,
                None => true,
            }) ==> r == 0,
    {
        let rows = self.visible_rows();
        if self.cursor < rows.len() {
            assert(vrow_v(rows@[self.cursor as int]) == self.rows()[self.cursor as int]);
            match &rows[self.cursor] {
                VisibleRow::File { file, .. } => {
                    assert(self.selected_file() == Some(*file));
                    let mut i: usize = 0;
                    while i < self.files.len()
                        invariant
                            i <= self.files.len(),
                            self.selected_file() == Some(*file),
                            forall|j: int| 0 <= j < i ==> #[trigger] self.files@[j].path@ != file.path@,
                        decreases self.files.len() - i,
                    {
                        if str_eq(self.files[i].path.as_str(), file.path.as_str()) {
                            return i;
                        }
                        i += 1;
                    }
                    0
                },
                VisibleRow::Dir { .. } => 0,
            }
        } else {
            0
        }
    }

    /// Puts the cursor on the first row of the file at `prev` (scrolled so
    /// that up to ten rows show above it), or at the top when there is none.
    fn restore_cursor(&mut self, prev: Option<&str>)
        ensures
            final(self).same_data(old(self)),
            final(self).same_diff(old(self)),
            final(self).tree_cache@ == old(self).tree_cache@,
            final(self).collapsed@ == old(self).collapsed@,
            final(self).filter == old(self).filter,
            final(self).focus == old(self).focus,
            final(self).overlay == old(self).overlay,
            final(self).loading == old(self).loading,
            final(self).fold_unchanged == old(self).fold_unchanged,
            final(self).diff_viewport == old(self).diff_viewport,
            final(self).diff_hviewport == old(self).diff_hviewport,
            final(self).diff_max_line_w == old(self).diff_max_line_w,
            final(self).list_viewport == old(self).list_viewport,
            match (match prev { Some(p) => first_file_row(old(self).rows(), p@, 0), None => None }) {
                Some(i) => final(self).cursor == i && final(self).list_scroll == if i >= 10 { i - 10 } else { 0 },
                None => final(self).cursor == 0 && final(self).list_scroll == 0,
            },
    {
        match prev {
            None => {
                self.cursor = 0;
                self.list_scroll = 0;
            },
            Some(p) => {
                let rows = self.visible_rows();
                match find_file_row(&rows, p) {
                    Some(idx) => {
                        self.cursor = idx;
                        self.list_scroll = idx.saturating_sub(10);
                    },
                    None => {
                        self.cursor = 0;
                        self.list_scroll = 0;
                    },
                }
            },
        }
    }
}

impl<'a> Controller<'a> {
    /// The mode, its commit, the snapshots and the view settings are the same
    /// in both.
    pub open spec fn same_settings(&self, other: &Self) -> bool {
        &&& self.mode == other.mode
        &&& self.selected_commit == other.selected_commit
        &&& self.has_commits == other.has_commits
        &&& self.sort == other.sort
        &&& self.mode_state@ == other.mode_state@
        &&& self.facade == other.facade
        &&& self.repo_path == other.repo_path
        &&& self.filter == other.filter
        &&& self.focus == other.focus
        &&& self.overlay == other.overlay
        &&& self.fold_unchanged == other.fold_unchanged
        &&& self.diff_viewport == other.diff_viewport
        &&& self.diff_hviewport == other.diff_hviewport
        &&& self.diff_max_line_w == other.diff_max_line_w
        &&& self.list_viewport == other.list_viewport
    }

    /// The file list, its navigation and the loaded diff are the same in
    /// both (the status line aside).
    pub open spec fn same_content(&self, other: &Self) -> bool {
        &&& self.files@ == other.files@
        &&& self.tree_cache@ == other.tree_cache@
        &&& self.collapsed@ == other.collapsed@
        &&& self.cursor == other.cursor
        &&& self.list_scroll == other.list_scroll
        &&& self.diff_rows@ == other.diff_rows@
        &&& self.diff_file == other.diff_file
        &&& self.diff_vscroll == other.diff_vscroll
        &&& self.diff_hscroll == other.diff_hscroll
        &&& self.diff_cursor == other.diff_cursor
        &&& self.hunk_idx == other.hunk_idx
        &&& self.hunk_count == other.hunk_count
    }

    /// A reload that took a new file list: the tree shows it, the diff
    /// follows the selection, the status line is cleared; without
    /// `keep_state` the list is back at the top with nothing folded, with it
    /// the cursor is on the row of the file selected before.
    pub open spec fn reloaded_from(&self, old: &Self, keep_state: bool, prev: Option<Seq<char>>) -> bool {
        &&& listed_files(old.mode, old.has_commits, opt_view(old.selected_commit), crate::git::files_v(self.files@))
        &&& self.tree_shows_files()
        &&& self.diff_follows_selection()
        &&& self.status@.len() == 0
        &&& !self.loading
        &&& !keep_state ==> self.cursor == 0 && self.list_scroll == 0 && self.collapsed@.len() == 0
        &&& keep_state ==> self.collapsed@ == old.collapsed@ && match (match prev {
            Some(p) => first_file_row(self.rows(), p, 0),
            None => None,
        }) {
            Some(i) => self.cursor == i && self.list_scroll == if i >= 10 { i - 10 } else { 0 },
            None => self.cursor == 0 && self.list_scroll == 0,
        }
    }

    /// The path of the file the cursor stands for in `files`, as a reload
    /// with `keep_state` looks it up again afterwards.
    pub open spec fn prev_path(&self, idx: int) -> Option<Seq<char>> {
        if 0 <= idx < self.files.len() {
            Some(self.files@[idx].path@)
        } else {
            None
        }
    }

    /// Reloads the file list of the current mode from git. On success the
    /// tree is rebuilt and the diff of the selected row loaded; when git
    /// fails the status line says so and the list stays. Mode A in a
    /// repository with commits reports a failure of either of its two
    /// listings as an error, with the viewer left loading.
    pub fn reload(&mut self, keep_state: bool) -> (r: Result<(), GitError>)
        requires
            old(self).wf(),
        ensures
            final(self).wf(),
            final(self).same_settings(old(self)),
            r is Err ==> {
                &&& old(self).mode == ComparisonMode::WorkingVsHead && old(self).has_commits
                &&& final(self).loading
                &&& final(self).status@ == "loading..."@
                &&& final(self).same_content(old(self))
            },
            r is Ok ==> !final(self).loading,
            r is Ok ==> (exists|idx: int| final(self).reloaded_from(old(self), keep_state, old(self).prev_path(idx)))
                || (exists|msg: Seq<char>| final(self).status@ == reload_failed(msg)) && final(self).same_content(old(self)),
            r is Ok && old(self).mode == ComparisonMode::CommitVsHead && old(self).selected_commit is None ==> final(self).files@.len() == 0
                && final(self).status@.len() == 0,
            reload_effect(old(self), final(self), keep_state),
            old(self).tree_shows_files() ==> final(self).tree_shows_files(),
            old(self).diff_matches_file() ==> final(self).diff_matches_file(),
    {
        self.loading = true;
        self.status = "loading...".to_owned();
        let idx = self.cursor_index_into_files();
        let prev: Option<String> = if idx < self.files.len() {
            Some(self.files[idx].path.clone())
        } else {
            None
        };
        let result: Result<Vec<ChangedFile>, GitError> = match self.mode {
            ComparisonMode::CommitVsHead => match &self.selected_commit {
                Some(commit) => self.facade.changed_files_between(commit.as_str()),
                None => Ok(Vec::new()),
            },
            ComparisonMode::WorkingVsHead => {
                if !self.has_commits {
                    self.facade.untracked_files()
                } else {
                    let mut files = match self.facade.changed_files(self.mode) {
                        Ok(f) => f,
                        Err(e) => {
                            return Err(e);
                        },
                    };
                    let mut untracked = match self.facade.untracked_files() {
                        Ok(u) => u,
                        Err(e) => {
                            return Err(e);
                        },
                    };
                    let ghost f1 = crate::git::files_v(files@);
                    let ghost f2 = crate::git::files_v(untracked@);
                    files.append(&mut untracked);
                    proof {
                        assert(crate::git::files_v(files@) =~= f1 + f2);
                        assert((f1 + f2).take(f1.len() as int) =~= f1);
                        assert((f1 + f2).skip(f1.len() as int) =~= f2);
                        assert(listing_files(f1));
                        assert(untracked_listing(f2));
                        assert(listing_files((f1 + f2).take(f1.len() as int)));
                    }
                    Ok(files)
                }
            },
            _ => self.facade.changed_files(self.mode),
        };
        self.loading = false;
        match result {
            Ok(files) => {
                if !sums_fit(&files) {
                    let msg = "变更行数之和超出范围";
                    self.status = concat("刷新失败: ", msg);
                    assert(self.status@ == reload_failed(msg@));
                    return Ok(());
                }
                let ghost before = *self;
                proof {
                    assert(listed_files(old(self).mode, old(self).has_commits, opt_view(old(self).selected_commit), crate::git::files_v(files@)));
                }
                self.files = files;
                self.rebuild_tree();
                if keep_state {
                    match &prev {
                        Some(p) => self.restore_cursor(Some(p.as_str())),
                        None => self.restore_cursor(None),
                    }
                } else {
                    self.cursor = 0;
                    self.list_scroll = 0;
                    self.collapsed = Vec::new();
                }
                self.status = String::new();
                self.load_diff();
                assert(self.reloaded_from(old(self), keep_state, old(self).prev_path(idx as int)));
                Ok(())
            },
            Err(e) => {
                let m = e.message();
                self.status = concat("刷新失败: ", m.as_str());
                assert(self.status@ == reload_failed(m@));
                Ok(())
            },
        }
    }
}

/// Whether `fs` is a list of changed files that git's listings can give.
pub open spec fn listing_files(fs: Seq<crate::git::FileV>) -> bool {
    exists|a: Seq<char>, b: Seq<char>| crate::git::files_from_outputs_spec(a, b) == Ok::<Seq<crate::git::FileV>, Seq<char>>(fs)
}

/// Whether `fs` is a list of untracked files that git's listing of them and
/// the working tree can give.
pub open spec fn untracked_listing(fs: Seq<crate::git::FileV>) -> bool {
    exists|out: Seq<char>, reads: Seq<Option<Seq<u8>>>| fs == crate::git::untracked_spec(
        crate::git::nonblank_lines(crate::align::lines_of(out)),
        reads,
    )
}

/// Whether `fs` is what reloading a mode lists: the changed files of the
/// mode's listings (see `GitFacade::changed_files`), in mode A with the
/// untracked files after them (only those in a repository without commits),
/// and nothing in mode D before a commit is chosen.
pub open spec fn listed_files(mode: ComparisonMode, has_commits: bool, commit: Option<Seq<char>>, fs: Seq<crate::git::FileV>) -> bool {
    match mode {
        ComparisonMode::CommitVsHead => match commit {
            None => fs.len() == 0,
            Some(_) => listing_files(fs),
        },
        ComparisonMode::WorkingVsHead => if has_commits {
            exists|i: int| 0 <= i <= fs.len() && #[trigger] listing_files(fs.take(i)) && untracked_listing(fs.skip(i))
        } else {
            untracked_listing(fs)
        },
        _ => listing_files(fs),
    }
}

/// The diff shows the file at path `p`.
pub open spec fn shows_saved_file(diff_file: Option<ChangedFile>, p: Option<String>) -> bool {
    diff_file matches Some(f) && opt_view(p) == Some(f.path@)
}

/// Row `i` kept within `len` rows (0 when there are none).
pub open spec fn clamp_index(i: usize, len: usize) -> usize {
    if len == 0 {
        0
    } else if i >= len {
        (len - 1) as usize
    } else {
        i
    }
}

impl<'a> Controller<'a> {
    /// The navigation saved in `snap` is back: the list cursor on the first
    /// row with the saved path (with the saved list scroll) when that path is
    /// listed, and, when the diff shows the saved file, the saved horizontal
    /// scroll, the saved diff cursor kept within the rows, and the saved
    /// vertical scroll moved as little as keeps that cursor in view.
    pub open spec fn nav_restored(&self, snap: ModeState) -> bool {
        &&& (match opt_view(snap.selected_path) {
            Some(p) => first_row_with_path(self.rows(), p, 0),
            None => None,
        }) matches Some(i) ==> self.cursor == i && self.list_scroll == snap.list_scroll
        &&& shows_saved_file(self.diff_file, snap.selected_path) ==> {
            &&& self.diff_hscroll == snap.diff_hscroll
            &&& self.diff_cursor == clamp_index(snap.diff_cursor, self.diff_rows.len())
            &&& self.diff_vscroll == scroll_to_show(self.diff_cursor, snap.diff_vscroll, self.diff_viewport)
        }
    }

    /// Puts back the diff cursor and scroll saved in `snap` when the loaded
    /// diff is of the file that `snap` selected.
    fn restore_diff_nav(&mut self, snap: &ModeState)
        ensures
            final(self).same_but_diff_nav(old(self)),
            final(self).focus == old(self).focus,
            final(self).hunk_idx == old(self).hunk_idx,
            final(self).hunk_count == old(self).hunk_count,
            shows_saved_file(old(self).diff_file, snap.selected_path) ==> {
                &&& final(self).diff_hscroll == snap.diff_hscroll
                &&& final(self).diff_cursor == clamp_index(snap.diff_cursor, old(self).diff_rows.len())
                &&& final(self).diff_vscroll == snap.diff_vscroll
            },
            !shows_saved_file(old(self).diff_file, snap.selected_path) ==> {
                &&& final(self).diff_hscroll == old(self).diff_hscroll
                &&& final(self).diff_cursor == old(self).diff_cursor
                &&& final(self).diff_vscroll == old(self).diff_vscroll
            },
    {
        let same = match &self.diff_file {
            Some(f) => match &snap.selected_path {
                Some(p) => str_eq(f.path.as_str(), p.as_str()),
                None => false,
            },
            None => false,
        };
        if same {
            let n = self.diff_rows.len();
            self.diff_hscroll = snap.diff_hscroll;
            self.diff_cursor = if n == 0 {
                0
            } else if snap.diff_cursor >= n {
                n - 1
            } else {
                snap.diff_cursor
            };
            self.diff_vscroll = snap.diff_vscroll;
        }
    }

    /// Restores the navigation saved in snapshot `idx` over the current list:
    /// its folded directories, the selected row and list scroll, and, for
    /// the same file, the diff cursor and scroll.
    fn restore_mode_nav(&mut self, idx: usize)
        requires
            old(self).wf(),
            idx < 4,
        ensures
            final(self).wf(),
            final(self).same_data(old(self)),
            final(self).tree_cache@ == old(self).tree_cache@,
            final(self).filter == old(self).filter,
            final(self).focus == old(self).focus,
            final(self).overlay == old(self).overlay,
            final(self).loading == old(self).loading,
            final(self).fold_unchanged == old(self).fold_unchanged,
            final(self).collapsed@ == old(self).saved()[idx as int].collapsed@,
            final(self).nav_restored(old(self).saved()[idx as int]),
            final(self).diff_follows_selection(),
            old(self).tree_shows_files() ==> final(self).tree_shows_files(),
            final(self).diff_matches_file(),
    {
        let snap = self.mode_state[idx].duplicate();
        snap.apply(self);
        self.load_diff();
        self.restore_diff_nav(&snap);
        self.keep_cursor_visible();
        self.sync_hunk_idx();
    }

    /// Switches to `mode`: saves the navigation of the mode left, reloads the
    /// list of `mode` with its remembered commit, and restores the
    /// navigation saved for it. Nothing happens when `mode` is the current
    /// mode.
    fn set_mode(&mut self, mode: ComparisonMode)
        requires
            old(self).wf(),
        ensures
            final(self).wf(),
            mode == old(self).mode ==> *final(self) == *old(self),
            mode != old(self).mode ==> {
                &&& final(self).mode == mode
                &&& final(self).selected_commit == old(self).saved()[mode_slot(mode)].selected_commit
                &&& final(self).filter is None
                &&& final(self).saved() == old(self).saved().update(
                    mode_slot(old(self).mode),
                    final(self).saved()[mode_slot(old(self).mode)],
                )
                &&& final(self).saved()[mode_slot(old(self).mode)].records(old(self))
                &&& final(self).collapsed@ == old(self).saved()[mode_slot(mode)].collapsed@
                &&& final(self).nav_restored(old(self).saved()[mode_slot(mode)])
                &&& final(self).diff_follows_selection()
                &&& final(self).has_commits == old(self).has_commits
                &&& final(self).focus == old(self).focus
                &&& final(self).overlay == old(self).overlay
                &&& final(self).fold_unchanged == old(self).fold_unchanged
            },
            old(self).tree_shows_files() ==> final(self).tree_shows_files(),
            old(self).diff_matches_file() ==> final(self).diff_matches_file(),
    {
        if self.mode == mode {
            return;
        }
        self.save_mode_state();
        self.mode = mode;
        let idx = self.mode_index(mode);
        self.selected_commit = crate::model::copy_opt_string(&self.mode_state[idx].selected_commit);
        self.filter = None;
        let _ = self.reload(false);
        self.restore_mode_nav(idx);
    }

    /// Enters mode D (HEAD against a commit): with the last chosen commit
    /// when there is one, else by opening the commit picker.
    fn enter_mode_d(&mut self)
        requires
            old(self).wf(),
            old(self).filter is None,
        ensures
            final(self).wf(),
            final(self).no_filter_under_overlay(),
            enter_mode_d_effect(old(self), final(self)),
            old(self).tree_shows_files() ==> final(self).tree_shows_files(),
            old(self).diff_matches_file() ==> final(self).diff_matches_file(),
    {
        let idx = self.mode_index(ComparisonMode::CommitVsHead);
        let has_saved = self.mode_state[idx].selected_commit.is_some();
        if self.mode != ComparisonMode::CommitVsHead && has_saved {
            self.save_mode_state();
            self.mode = ComparisonMode::CommitVsHead;
            self.selected_commit = crate::model::copy_opt_string(&self.mode_state[idx].selected_commit);
            self.filter = None;
            let _ = self.reload(false);
            self.restore_mode_nav(idx);
        } else if self.has_commits {
            match self.facade.commits() {
                Ok(commits) => {
                    self.overlay = Some(Overlay::CommitPicker { commits, cursor: 0 });
                },
                Err(e) => {
                    let m = e.message();
                    self.status = concat("加载 commit 失败: ", m.as_str());
                    assert(self.status@ == "加载 commit 失败: "@ + m@);
                },
            }
        } else {
            self.status = "仓库还没有 commit".to_owned();
        }
    }

    /// A key while an overlay is open. In the commit picker Up and Down move
    /// its cursor and Enter compares HEAD with the commit under it (mode D);
    /// Esc and `?` close any overlay.
    fn handle_overlay_key(&mut self, key: KeyEvent)
        requires
            old(self).wf(),
            old(self).overlay is Some,
        ensures
            final(self).wf(),
            old(self).no_filter_under_overlay() ==> final(self).no_filter_under_overlay(),
            overlay_key_effect(old(self), final(self), key),
            old(self).tree_shows_files() ==> final(self).tree_shows_files(),
            old(self).diff_matches_file() ==> final(self).diff_matches_file(),
    {
        let ov = self.overlay.take();
        let (kept, chosen): (Option<Overlay>, Option<CommitEntry>) = match ov {
            Some(Overlay::CommitPicker { commits, cursor }) => {
                match key.code {
                    KeyCode::Up => {
                        let c = if cursor > 0 { cursor - 1 } else { cursor };
                        (Some(Overlay::CommitPicker { commits, cursor: c }), None)
                    },
                    KeyCode::Down => {
                        let c = if commits.len() > 0 && cursor < commits.len() - 1 { cursor + 1 } else { cursor };
                        (Some(Overlay::CommitPicker { commits, cursor: c }), None)
                    },
                    KeyCode::Enter => {
                        let chosen = if cursor < commits.len() { Some(commits[cursor].duplicate()) } else { None };
                        (Some(Overlay::CommitPicker { commits, cursor }), chosen)
                    },
                    _ => (Some(Overlay::CommitPicker { commits, cursor }), None),
                }
            },
            other => (other, None),
        };
        self.overlay = kept;
        match chosen {
            Some(selected) => {
                self.save_mode_state();
                self.selected_commit = Some(selected.short_hash.clone());
                self.mode = ComparisonMode::CommitVsHead;
                self.overlay = None;
                self.filter = None;
                let idx = self.mode_index(ComparisonMode::CommitVsHead);
                let mut st = self.mode_state[idx].duplicate();
                st.selected_commit = crate::model::copy_opt_string(&self.selected_commit);
                self.mode_state.set(idx, st);
                let _ = self.reload(false);
                // The diff is of the chosen commit also when the list could
                // not be reloaded.
                self.load_diff();
            },
            None => {
                if key.code == KeyCode::Esc || key.code == KeyCode::Char('?') {
                    self.overlay = None;
                }
            },
        }
    }
}

/// What a key does while an overlay is open (see `handle_overlay_key`).
pub open spec fn overlay_key_effect(old: &Controller, new: &Controller, key: KeyEvent) -> bool {
    let chosen = match old.overlay {
        Some(Overlay::CommitPicker { commits, cursor }) => key.code == KeyCode::Enter && cursor < commits.len(),
        _ => false,
    };
    if chosen {
        let c = match old.overlay {
            Some(Overlay::CommitPicker { commits, cursor }) => commits@[cursor as int],
            _ => arbitrary(),
        };
        &&& new.mode == ComparisonMode::CommitVsHead
        &&& new.selected_commit == Some(c.short_hash)
        &&& new.overlay is None
        &&& new.filter is None
        &&& new.saved()[3].selected_commit == Some(c.short_hash)
        &&& (old.mode != ComparisonMode::CommitVsHead ==> new.saved()[mode_slot(old.mode)].records(old))
        &&& (new.diff_follows_selection() || (new.tree_cache@ == old.tree_cache@ && new.collapsed@ == old.collapsed@
            && new.cursor == old.cursor && new.diff_file == old.diff_file))
    } else {
        &&& new.same_data(old)
        &&& new.same_diff(old)
        &&& new.tree_cache@ == old.tree_cache@
        &&& new.collapsed@ == old.collapsed@
        &&& new.filter == old.filter
        &&& new.cursor == old.cursor
        &&& new.focus == old.focus
        &&& new.loading == old.loading
        &&& if key.code == KeyCode::Esc || key.code == KeyCode::Char('?') {
            new.overlay is None
        } else {
            match old.overlay {
                Some(Overlay::CommitPicker { commits, cursor }) => new.overlay matches Some(Overlay::CommitPicker { commits: cs, cursor: c })
                    && cs == commits && c == if key.code == KeyCode::Up && cursor > 0 {
                    (cursor - 1) as usize
                } else if key.code == KeyCode::Down && cursor + 1 < commits.len() {
                    (cursor + 1) as usize
                } else {
                    cursor
                },
                _ => new.overlay == old.overlay,
            }
        }
    }
}

/// The path of the first file row, if any.
pub open spec fn first_file_path(rows: Seq<RowV>, from: int) -> Option<Seq<char>>
    decreases rows.len() - from,
{
    if from < 0 || from >= rows.len() {
        None
    } else {
        match rows[from] {
            RowV::File { file, .. } => Some(file.path@),
            RowV::Dir { .. } => first_file_path(rows, from + 1),
        }
    }
}

fn find_first_file(rows: &Vec<VisibleRow>) -> (r: Option<String>)
    ensures
        opt_view(r) == first_file_path(vrows_v(rows@), 0),
{
    let mut i: usize = 0;
    while i < rows.len()
        invariant
            i <= rows.len(),
            first_file_path(vrows_v(rows@), 0) == first_file_path(vrows_v(rows@), i as int),
        decreases rows.len() - i,
    {
        assert(vrows_v(rows@)[i as int] == vrow_v(rows@[i as int]));
        match &rows[i] {
            VisibleRow::File { file, .. } => {
                return Some(file.path.clone());
            },
            VisibleRow::Dir { .. } => {},
        }
        i += 1;
    }
    None
}

/// What Right does in the list: the directory on the selected row is
/// unfolded; nothing else of the list changes.
pub open spec fn expand_effect(old: &Controller, new: &Controller) -> bool {
    match (if old.cursor < old.rows().len() { Some(old.rows()[old.cursor as int]) } else { None }) {
        Some(RowV::Dir { path, .. }) => forall|p: Seq<char>| #[trigger] strings_view(new.collapsed@).contains(p) <==> (strings_view(
            old.collapsed@,
        ).contains(p) && p != path),
        _ => new.collapsed@ == old.collapsed@,
    }
}

/// What Left does in the list: the directory on the selected row, or the
/// directory holding the selected file, is folded and its row selected, with
/// its diff loaded; when the list shows no row for it, nothing else changes.
pub open spec fn collapse_effect(old: &Controller, new: &Controller) -> bool {
    let target = if old.cursor < old.rows().len() {
        match old.rows()[old.cursor as int] {
            RowV::Dir { path, .. } => Some(path),
            RowV::File { file, .. } => parent_dir(file.path@),
        }
    } else {
        None
    };
    match target {
        None => new.collapsed@ == old.collapsed@ && new.cursor == old.cursor && new.same_diff(old),
        Some(p) => {
            &&& old.diff_follows_selection() ==> new.diff_follows_selection()
            &&& strings_view(old.collapsed@).contains(p) ==> new.collapsed@ == old.collapsed@
            &&& !strings_view(old.collapsed@).contains(p) ==> strings_view(new.collapsed@) == strings_view(old.collapsed@).push(p)
            &&& match first_dir_row(new.rows(), p, 0) {
                Some(i) => new.cursor == i && new.diff_follows_selection(),
                None => new.cursor == old.cursor && new.same_diff(old),
            }
        },
    }
}

/// The commits are those of an answer to the log query, line by line.
pub open spec fn picker_lists_log(commits: Seq<CommitEntry>) -> bool {
    exists|out: Seq<char>| commits.map_values(|c: CommitEntry| crate::git::commit_v(c)) == crate::align::lines_of(out).map_values(
        |l: Seq<char>| crate::git::log_line(l),
    )
}

/// What entering mode D does (see `enter_mode_d`): with a remembered commit
/// the viewer switches to it; otherwise the commit picker opens, or the
/// status line says why it cannot.
pub open spec fn enter_mode_d_effect(old: &Controller, new: &Controller) -> bool {
    let saved = old.saved()[3].selected_commit;
    if old.mode != ComparisonMode::CommitVsHead && saved is Some {
        &&& new.mode == ComparisonMode::CommitVsHead
        &&& new.selected_commit == saved
        &&& new.filter is None
        &&& new.saved()[mode_slot(old.mode)].records(old)
        &&& new.collapsed@ == old.saved()[3].collapsed@
        &&& new.nav_restored(old.saved()[3])
        &&& new.diff_follows_selection()
        &&& new.overlay == old.overlay
        &&& new.focus == old.focus
    } else if old.has_commits {
        &&& new.same_data(old)
        &&& new.tree_cache@ == old.tree_cache@
        &&& new.collapsed@ == old.collapsed@
        &&& new.filter == old.filter
        &&& new.cursor == old.cursor
        &&& new.diff_file == old.diff_file
        &&& new.focus == old.focus
        &&& (new.overlay matches Some(Overlay::CommitPicker { commits, cursor }) && cursor == 0 && picker_lists_log(commits@))
            || (new.overlay == old.overlay && exists|m: Seq<char>| new.status@ == "加载 commit 失败: "@ + m)
    } else {
        &&& new.same_data(old)
        &&& new.tree_cache@ == old.tree_cache@
        &&& new.collapsed@ == old.collapsed@
        &&& new.filter == old.filter
        &&& new.cursor == old.cursor
        &&& new.diff_file == old.diff_file
        &&& new.focus == old.focus
        &&& new.overlay == old.overlay
        &&& new.status@ == "仓库还没有 commit"@
    }
}

/// What a reload does (see `reload`), whichever way it ends.
pub open spec fn reload_effect(old: &Controller, new: &Controller, keep_state: bool) -> bool {
    &&& new.same_settings(old)
    &&& {
        ||| (old.mode == ComparisonMode::WorkingVsHead && old.has_commits && new.loading && new.status@ == "loading..."@
            && new.same_content(old))
        ||| !new.loading && (exists|idx: int| new.reloaded_from(old, keep_state, old.prev_path(idx)))
        ||| !new.loading && (exists|msg: Seq<char>| new.status@ == reload_failed(msg)) && new.same_content(old)
    }
}

/// The filter text changed, the cursor went to the top and the diff panel
/// was brought in line with the selected row.
pub open spec fn filter_edit(old: &Controller, new: &Controller) -> bool {
    &&& new.same_data(old)
    &&& new.same_view(old)
    &&& new.tree_cache@ == old.tree_cache@
    &&& new.collapsed@ == old.collapsed@
    &&& new.cursor == 0
    &&& new.diff_follows_selection()
    &&& new.status@ == old.status@
}

/// What a key does while the filter is being typed: a plain character is
/// appended, Backspace removes the last character, Esc closes the filter,
/// each putting the cursor at the top; Enter closes the filter, selects the
/// first file it showed and focuses the diff of it.
pub open spec fn filter_key_effect(old: &Controller, new: &Controller, key: KeyEvent) -> bool {
    let f = match old.filter {
        Some(f) => f@,
        None => Seq::<char>::empty(),
    };
    match key.code {
        KeyCode::Char(c) => key.modifiers == KeyModifiers::Plain ==> filter_edit(old, new)
            && opt_view(new.filter) == Some(f.push(c)),
        KeyCode::Backspace => filter_edit(old, new) && opt_view(new.filter) == Some(
            if f.len() == 0 { f } else { f.drop_last() },
        ),
        KeyCode::Esc => filter_edit(old, new) && new.filter is None,
        KeyCode::Enter => {
            &&& new.same_data(old)
            &&& new.tree_cache@ == old.tree_cache@
            &&& new.collapsed@ == old.collapsed@
            &&& new.filter is None
            &&& new.overlay == old.overlay
            &&& new.loading == old.loading
            &&& new.diff_follows_selection()
            &&& new.focus == if new.diff_file is Some { Focus::Diff } else { old.focus }
            &&& new.cursor == match first_file_path(old.rows(), 0) {
                Some(p) => match first_file_row(new.rows(), p, 0) {
                    Some(i) => i as usize,
                    None => old.cursor,
                },
                None => old.cursor,
            }
        },
        _ => true,
    }
}

/// Whether the filter takes a key while it is open.
pub open spec fn filter_takes(key: KeyEvent) -> bool {
    ||| (key.code matches KeyCode::Char(_) && key.modifiers == KeyModifiers::Plain)
    ||| key.code == KeyCode::Backspace
    ||| key.code == KeyCode::Esc
    ||| key.code == KeyCode::Enter
}

impl<'a> Controller<'a> {
    /// A key while the filter is open; false when the filter does not take
    /// it.
    fn handle_filter_key(&mut self, key: KeyEvent) -> (handled: bool)
        requires
            old(self).wf(),
            old(self).filter is Some,
            old(self).overlay is None,
        ensures
            final(self).wf(),
            final(self).overlay is None,
            handled == filter_takes(key),
            handled ==> filter_key_effect(old(self), final(self), key),
            !handled ==> *final(self) == *old(self),
            old(self).tree_shows_files() ==> final(self).tree_shows_files(),
            old(self).diff_matches_file() ==> final(self).diff_matches_file(),
    {
        match (key.code, key.modifiers) {
            (KeyCode::Char(c), KeyModifiers::Plain) => {
                let mut f = match &self.filter {
                    Some(f) => f.clone(),
                    None => String::new(),
                };
                push_char(&mut f, c);
                self.filter = Some(f);
                self.cursor = 0;
                self.load_diff();
                true
            },
            (KeyCode::Backspace, _) => {
                let f = match &self.filter {
                    Some(f) => drop_last_char(f),
                    None => String::new(),
                };
                self.filter = Some(f);
                self.cursor = 0;
                self.load_diff();
                true
            },
            (KeyCode::Esc, _) => {
                self.filter = None;
                self.cursor = 0;
                self.load_diff();
                true
            },
            (KeyCode::Enter, _) => {
                let filtered = self.visible_rows();
                let target = find_first_file(&filtered);
                self.filter = None;
                match target {
                    Some(path) => {
                        let rows = self.visible_rows();
                        match find_file_row(&rows, path.as_str()) {
                            Some(fi) => {
                                self.cursor = fi;
                            },
                            None => {},
                        }
                    },
                    None => {},
                }
                self.load_diff();
                if self.diff_file.is_some() {
                    self.focus = Focus::Diff;
                }
                true
            },
            _ => false,
        }
    }
}

/// The files of a list whose path matches a filter, in order.
pub open spec fn matching_files(files: Seq<ChangedFile>, filter: Seq<char>) -> Seq<ChangedFile>
    decreases files.len(),
{
    if files.len() == 0 {
        seq![]
    } else {
        (if path_matches(files[0].path@, filter) {
            seq![files[0]]
        } else {
            Seq::<ChangedFile>::empty()
        }) + matching_files(files.drop_first(), filter)
    }
}

proof fn lemma_marks_match(all: Seq<ChangedFile>, f: Seq<char>, b: int)
    requires
        0 <= b <= all.len(),
    ensures
        crate::tree::kept_files(all.skip(b), keep_marks(all, f), b) == matching_files(all.skip(b), f),
    decreases all.len() - b,
{
    if b < all.len() {
        lemma_marks_match(all, f, b + 1);
        assert(all.skip(b)[0] == all[b]);
        assert(all.skip(b).drop_first() =~= all.skip(b + 1));
        assert(keep_marks(all, f)[b] == path_matches(all[b].path@, f));
    } else {
        assert(all.skip(b) =~= Seq::<ChangedFile>::empty());
    }
}

/// A non-blank filter shows exactly the files whose path matches it, in the
/// order of the list.
pub proof fn lemma_filter_shows_matching_files(c: Controller, f: Seq<char>)
    requires
        opt_view(c.filter) == Some(f),
        trim_spec(f).len() > 0,
    ensures
        crate::tree::row_files(c.rows()) == matching_files(files_at(c.tree(), 0), f),
{
    let all = files_at(c.tree(), 0);
    crate::tree::lemma_filter_shows_kept_files(c.tree(), keep_marks(all, f));
    lemma_marks_match(all, f, 0);
    assert(all.skip(0) =~= all);
}

proof fn lemma_matching_contains(fs: Seq<ChangedFile>, f: Seq<char>, x: ChangedFile)
    ensures
        matching_files(fs, f).contains(x) <==> (fs.contains(x) && path_matches(x.path@, f)),
    decreases fs.len(),
{
    if fs.len() > 0 {
        lemma_matching_contains(fs.drop_first(), f, x);
        let head = if path_matches(fs[0].path@, f) {
            seq![fs[0]]
        } else {
            Seq::<ChangedFile>::empty()
        };
        let rest = matching_files(fs.drop_first(), f);
        assert(matching_files(fs, f) == head + rest);
        if (head + rest).contains(x) {
            let j = choose|j: int| 0 <= j < (head + rest).len() && (head + rest)[j] == x;
            if j < head.len() {
                assert(fs[0] == x);
                assert(fs.contains(x));
            } else {
                assert(rest[j - head.len()] == x);
                assert(rest.contains(x));
                let m = choose|m: int| 0 <= m < fs.drop_first().len() && fs.drop_first()[m] == x;
                assert(fs[m + 1] == x);
            }
        }
        if fs.contains(x) && path_matches(x.path@, f) {
            let j = choose|j: int| 0 <= j < fs.len() && fs[j] == x;
            if j == 0 {
                assert((head + rest)[0] == x);
            } else {
                assert(fs.drop_first()[j - 1] == x);
                assert(rest.contains(x));
                let m = choose|m: int| 0 <= m < rest.len() && rest[m] == x;
                assert((head + rest)[head.len() + m] == x);
            }
        }
    } else {
        assert(matching_files(fs, f) =~= Seq::<ChangedFile>::empty());
    }
}

/// What a filter keeps: a non-blank filter without a leading `!` shows a
/// file of the list exactly when the lower-cased filter occurs somewhere in
/// the lower-cased path, at any position; with a leading `!`, exactly when
/// the rest of it does not.
pub proof fn lemma_filter_keeps_substring_matches(c: Controller, f: Seq<char>, x: ChangedFile)
    requires
        opt_view(c.filter) == Some(f),
        trim_spec(f).len() > 0,
    ensures
        !(f.len() > 0 && f[0] == '!') ==> (crate::tree::row_files(c.rows()).contains(x) <==> (files_at(c.tree(), 0).contains(x) && exists|k: int|
            0 <= k && k + lowercase(f).len() <= lowercase(x.path@).len() && #[trigger] lowercase(x.path@).subrange(k, k + lowercase(f).len())
                == lowercase(f))),
        (f.len() > 0 && f[0] == '!') ==> (crate::tree::row_files(c.rows()).contains(x) <==> (files_at(c.tree(), 0).contains(x) && !exists|k: int|
            0 <= k && k + lowercase(f.drop_first()).len() <= lowercase(x.path@).len() && #[trigger] lowercase(x.path@).subrange(
                k,
                k + lowercase(f.drop_first()).len(),
            ) == lowercase(f.drop_first()))),
{
    lemma_filter_shows_matching_files(c, f);
    lemma_matching_contains(files_at(c.tree(), 0), f, x);
}

/// What switching to `m` does (see `set_mode`).
pub open spec fn mode_switch_effect(old: &Controller, new: &Controller, m: ComparisonMode) -> bool {
    if m == old.mode {
        *new == *old
    } else {
        &&& new.mode == m
        &&& new.selected_commit == old.saved()[mode_slot(m)].selected_commit
        &&& new.filter is None
        &&& new.saved() == old.saved().update(mode_slot(old.mode), new.saved()[mode_slot(old.mode)])
        &&& new.saved()[mode_slot(old.mode)].records(old)
        &&& new.collapsed@ == old.saved()[mode_slot(m)].collapsed@
        &&& new.nav_restored(old.saved()[mode_slot(m)])
        &&& new.diff_follows_selection()
        &&& new.focus == old.focus
        &&& new.overlay == old.overlay
    }
}

/// What a list cursor move does (see `move_cursor`).
pub open spec fn list_move_effect(old: &Controller, new: &Controller, forward: bool, amount: int) -> bool {
    &&& new.same_data(old)
    &&& new.same_view(old)
    &&& new.tree_cache@ == old.tree_cache@
    &&& new.collapsed@ == old.collapsed@
    &&& new.filter == old.filter
    &&& old.rows().len() > 0 ==> new.cursor == clamp_step(old.cursor as int, forward, amount, old.rows().len() as int)
    &&& new.cursor == old.cursor ==> new.same_diff(old)
    &&& new.cursor != old.cursor ==> new.diff_follows_selection()
}

/// What a diff cursor move does (see `move_diff_cursor`).
pub open spec fn diff_move_effect(old: &Controller, new: &Controller, forward: bool, amount: int) -> bool {
    &&& new.same_but_diff_nav(old)
    &&& new.focus == old.focus
    &&& new.diff_hscroll == old.diff_hscroll
    &&& old.diff_rows.len() > 0 ==> {
        &&& new.diff_cursor == clamp_step(old.diff_cursor as int, forward, amount, old.diff_rows.len() as int)
        &&& new.diff_vscroll == scroll_to_show(new.diff_cursor, old.diff_vscroll, old.diff_viewport)
    }
    &&& old.diff_rows.len() == 0 ==> new.diff_cursor == old.diff_cursor && new.diff_vscroll == old.diff_vscroll
}

/// What a horizontal scroll does (see `scroll_horizontal`).
pub open spec fn hscroll_effect(old: &Controller, new: &Controller, forward: bool) -> bool {
    &&& new.same_but_diff_nav(old)
    &&& new.focus == old.focus
    &&& new.diff_cursor == old.diff_cursor
    &&& new.diff_vscroll == old.diff_vscroll
    &&& new.diff_hscroll == clamp_step(old.diff_hscroll as int, forward, 8, max_hscroll(old.diff_max_line_w, old.diff_hviewport) + 1)
}

/// One page: the viewport height, at least one row.
pub open spec fn page(viewport: usize) -> int {
    if viewport == 0 { 1 } else { viewport as int }
}

/// Whether `key` is `c` with no modifier.
pub open spec fn plain(key: KeyEvent, c: char) -> bool {
    key.code == KeyCode::Char(c) && key.modifiers == KeyModifiers::Plain
}

/// Whether `key` is `c` with Control.
pub open spec fn ctrl_key(key: KeyEvent, code: KeyCode) -> bool {
    key.code == code && key.modifiers == KeyModifiers::Control
}

/// What a key does when no overlay is open and the filter does not take it.
pub open spec fn command_key_effect(old: &Controller, new: &Controller, key: KeyEvent) -> bool {
    if plain(key, '1') {
        mode_switch_effect(old, new, ComparisonMode::WorkingVsHead)
    } else if plain(key, '2') {
        mode_switch_effect(old, new, ComparisonMode::StagedVsHead)
    } else if plain(key, '3') {
        mode_switch_effect(old, new, ComparisonMode::StagedVsWorking)
    } else if plain(key, 'l') || plain(key, '4') {
        enter_mode_d_effect(old, new)
    } else if plain(key, 'r') {
        reload_effect(old, new, true)
    } else if plain(key, '/') {
        &&& new.same_data(old)
        &&& new.same_view(old)
        &&& new.collapsed@ == old.collapsed@
        &&& opt_view(new.filter) == Some(Seq::<char>::empty())
        &&& new.cursor == 0
        &&& new.diff_follows_selection()
        &&& new.status@ == old.status@
    } else if plain(key, '?') {
        &&& new.same_data(old)
        &&& new.same_diff(old)
        &&& new.overlay == Some(Overlay::Help)
        &&& new.cursor == old.cursor
        &&& new.filter == old.filter
    } else if key.code == KeyCode::Enter {
        &&& new.same_data(old)
        &&& new.same_diff(old)
        &&& new.cursor == old.cursor
        &&& new.focus == if old.focus == Focus::FileList && old.diff_file is Some { Focus::Diff } else { old.focus }
    } else if key.code == KeyCode::Tab {
        &&& new.same_data(old)
        &&& new.same_diff(old)
        &&& new.cursor == old.cursor
        &&& new.focus == match old.focus {
            Focus::FileList => Focus::Diff,
            Focus::Diff => Focus::FileList,
        }
    } else if plain(key, 'n') || plain(key, 'm') {
        &&& new.same_but_diff_nav(old)
        &&& (exists|i: int| is_hunk_start(old.diff_rows@, i)) ==> new.focus == Focus::Diff && hunk_jump(
            old.diff_rows@,
            old.diff_cursor,
            plain(key, 'n'),
            new.diff_cursor,
        )
    } else if plain(key, 'z') {
        &&& new.same_data(old)
        &&& new.same_diff(old)
        &&& new.cursor == old.cursor
        &&& new.fold_unchanged == !old.fold_unchanged
    } else if plain(key, 's') {
        &&& new.sort == next_sort(old.sort)
        &&& new.status@ == sort_status(new.sort)
        &&& new.tree_shows_files()
        &&& new.cursor == old.cursor
        &&& new.files@ == old.files@
        &&& new.mode == old.mode
        &&& new.selected_commit == old.selected_commit
        &&& new.mode_state@ == old.mode_state@
        &&& new.same_view(old)
        &&& new.collapsed@ == old.collapsed@
        &&& new.filter == old.filter
        &&& new.diff_follows_selection()
    } else if plain(key, '[') {
        &&& new.same_data(old)
        &&& new.cursor == old.cursor
        &&& forall|p: Seq<char>| #[trigger] strings_view(new.collapsed@).contains(p) <==> (strings_view(old.collapsed@).contains(p)
            || crate::tree::dirs_at(old.tree(), 0, seq![]).contains(p))
        &&& new.diff_follows_selection()
    } else if plain(key, ']') {
        &&& new.same_data(old)
        &&& new.cursor == old.cursor
        &&& new.collapsed@.len() == 0
        &&& new.diff_follows_selection()
    } else if ctrl_key(key, KeyCode::Right) || ctrl_key(key, KeyCode::Left) {
        hscroll_effect(old, new, key.code == KeyCode::Right)
    } else if ctrl_key(key, KeyCode::Char('k')) || ctrl_key(key, KeyCode::Char('j')) {
        diff_move_effect(old, new, key.code == KeyCode::Char('j'), 1)
    } else if key.code == KeyCode::Up || key.code == KeyCode::Down {
        match old.focus {
            Focus::FileList => list_move_effect(old, new, key.code == KeyCode::Down, 1),
            Focus::Diff => diff_move_effect(old, new, key.code == KeyCode::Down, 1),
        }
    } else if key.code == KeyCode::PageUp || key.code == KeyCode::PageDown {
        match old.focus {
            Focus::FileList => list_move_effect(old, new, key.code == KeyCode::PageDown, page(old.list_viewport)),
            Focus::Diff => diff_move_effect(old, new, key.code == KeyCode::PageDown, page(old.diff_viewport)),
        }
    } else if (key.code == KeyCode::Right || key.code == KeyCode::Left) && old.focus == Focus::Diff {
        hscroll_effect(old, new, key.code == KeyCode::Right)
    } else if key.code == KeyCode::Right || key.code == KeyCode::Left {
        &&& new.same_data(old)
        &&& new.tree_cache@ == old.tree_cache@
        &&& new.filter == old.filter
        &&& if key.code == KeyCode::Right { expand_effect(old, new) } else { collapse_effect(old, new) }
    } else {
        *new == *old
    }
}

impl<'a> Controller<'a> {
    fn handle_command_key(&mut self, key: KeyEvent)
        requires
            old(self).wf(),
            old(self).overlay is None,
            old(self).filter is Some ==> !filter_takes(key),
        ensures
            final(self).wf(),
            final(self).no_filter_under_overlay(),
            command_key_effect(old(self), final(self), key),
            old(self).diff_follows_selection() ==> final(self).diff_follows_selection(),
            old(self).tree_shows_files() ==> final(self).tree_shows_files(),
            old(self).diff_matches_file() ==> final(self).diff_matches_file(),
    {
        match (key.code, key.modifiers) {
            (KeyCode::Char('q'), KeyModifiers::Plain) => {},
            (KeyCode::Char('l'), KeyModifiers::Plain) => self.enter_mode_d(),
            (KeyCode::Char('1'), KeyModifiers::Plain) => self.set_mode(ComparisonMode::WorkingVsHead),
            (KeyCode::Char('2'), KeyModifiers::Plain) => self.set_mode(ComparisonMode::StagedVsHead),
            (KeyCode::Char('3'), KeyModifiers::Plain) => self.set_mode(ComparisonMode::StagedVsWorking),
            (KeyCode::Char('4'), KeyModifiers::Plain) => self.enter_mode_d(),
            (KeyCode::Char('r'), KeyModifiers::Plain) => {
                let _ = self.reload(true);
            },
            (KeyCode::Char('/'), KeyModifiers::Plain) => {
                self.filter = Some(String::new());
                self.cursor = 0;
                self.load_diff();
            },
            (KeyCode::Char('?'), KeyModifiers::Plain) => {
                self.overlay = Some(Overlay::Help);
            },
            (KeyCode::Enter, _) => {
                if self.focus == Focus::FileList && self.diff_file.is_some() {
                    self.focus = Focus::Diff;
                }
            },
            (KeyCode::Tab, _) => self.toggle_focus(),
            (KeyCode::Char('n'), KeyModifiers::Plain) => self.jump_hunk(true),
            (KeyCode::Char('m'), KeyModifiers::Plain) => self.jump_hunk(false),
            (KeyCode::Char('z'), KeyModifiers::Plain) => {
                self.fold_unchanged = !self.fold_unchanged;
            },
            (KeyCode::Char('s'), KeyModifiers::Plain) => {
                self.cycle_sort();
                self.load_diff();
            },
            (KeyCode::Char('['), KeyModifiers::Plain) => self.collapse_all_dirs(),
            (KeyCode::Char(']'), KeyModifiers::Plain) => self.expand_all_dirs(),
            (KeyCode::Right, KeyModifiers::Control) => self.scroll_horizontal(true),
            (KeyCode::Left, KeyModifiers::Control) => self.scroll_horizontal(false),
            (KeyCode::Char('k'), KeyModifiers::Control) => self.move_diff_cursor(false, 1),
            (KeyCode::Char('j'), KeyModifiers::Control) => self.move_diff_cursor(true, 1),
            (KeyCode::Up, _) => match self.focus {
                Focus::FileList => self.move_cursor(false, 1),
                Focus::Diff => self.move_diff_cursor(false, 1),
            },
            (KeyCode::Down, _) => match self.focus {
                Focus::FileList => self.move_cursor(true, 1),
                Focus::Diff => self.move_diff_cursor(true, 1),
            },
            (KeyCode::Right, _) => match self.focus {
                Focus::FileList => self.expand_dir(),
                Focus::Diff => self.scroll_horizontal(true),
            },
            (KeyCode::Left, _) => match self.focus {
                Focus::FileList => self.collapse_dir(),
                Focus::Diff => self.scroll_horizontal(false),
            },
            (KeyCode::PageUp, _) => match self.focus {
                Focus::FileList => {
                    let n = self.list_page();
                    self.move_cursor(false, n)
                },
                Focus::Diff => {
                    let n = self.diff_page();
                    self.move_diff_cursor(false, n)
                },
            },
            (KeyCode::PageDown, _) => match self.focus {
                Focus::FileList => {
                    let n = self.list_page();
                    self.move_cursor(true, n)
                },
                Focus::Diff => {
                    let n = self.diff_page();
                    self.move_diff_cursor(true, n)
                },
            },
            _ => {},
        }
    }

    fn list_page(&self) -> (r: usize)
        ensures
            r == page(self.list_viewport),
    {
        if self.list_viewport == 0 { 1 } else { self.list_viewport }
    }

    fn diff_page(&self) -> (r: usize)
        ensures
            r == page(self.diff_viewport),
    {
        if self.diff_viewport == 0 { 1 } else { self.diff_viewport }
    }
}

impl<'a> Controller<'a> {
    /// Handles one key press. Nothing happens while a reload is running; an
    /// open overlay takes every key; an open filter takes the characters,
    /// Backspace, Esc and Enter; every other key is a command. After every
    /// key the diff panel shows the file on the selected row, or nothing when
    /// no file is selected.
    pub fn handle_key(&mut self, key: KeyEvent)
        requires
            old(self).wf(),
        ensures
            final(self).wf(),
            old(self).loading ==> *final(self) == *old(self),
            !old(self).loading && old(self).overlay is Some ==> overlay_key_effect(old(self), final(self), key),
            !old(self).loading && old(self).overlay is None && old(self).filter is Some && filter_takes(key) ==> filter_key_effect(
                old(self),
                final(self),
                key,
            ),
            !old(self).loading && old(self).overlay is None && !(old(self).filter is Some && filter_takes(key)) ==> command_key_effect(
                old(self),
                final(self),
                key,
            ),
            old(self).no_filter_under_overlay() ==> final(self).no_filter_under_overlay(),
            old(self).diff_follows_selection() && old(self).no_filter_under_overlay() ==> final(self).diff_follows_selection(),
            old(self).tree_shows_files() ==> final(self).tree_shows_files(),
            old(self).diff_matches_file() ==> final(self).diff_matches_file(),
    {
        if self.loading {
            return;
        }
        if self.overlay.is_some() {
            self.handle_overlay_key(key);
            return;
        }
        if self.filter.is_some() {
            if self.handle_filter_key(key) {
                return;
            }
        }
        self.handle_command_key(key);
    }

    /// Opens the viewer on a repository: mode D on `initial_commit` when one
    /// is given, else mode A; the list is loaded at once. A failure of mode
    /// A's listings is an error.
    pub fn new(facade: GitFacade<'a>, repo_path: std::path::PathBuf, has_commits: bool, initial_commit: Option<String>) -> (r: Result<
        Self,
        GitError,
    >)
        ensures
            r matches Ok(c) ==> {
                &&& c.wf()
                &&& c.diff_matches_file()
                &&& c.mode == if initial_commit is Some { ComparisonMode::CommitVsHead } else { ComparisonMode::WorkingVsHead }
                &&& c.selected_commit == initial_commit
                &&& c.saved()[3].selected_commit == initial_commit
                &&& c.has_commits == has_commits
                &&& c.repo_path == repo_path
                &&& c.sort == SortMode::Path
                &&& c.focus == Focus::FileList
                &&& c.overlay is None
                &&& c.filter is None
                &&& !c.loading
                &&& (exists|m: Seq<char>| c.status@ == reload_failed(m)) || {
                    &&& c.status@.len() == 0
                    &&& listed_files(c.mode, has_commits, opt_view(c.selected_commit), crate::git::files_v(c.files@))
                    &&& c.tree_shows_files()
                    &&& c.diff_follows_selection()
                    &&& c.cursor == 0
                    &&& c.list_scroll == 0
                    &&& c.collapsed@.len() == 0
                }
            },
            r is Err ==> initial_commit is None && has_commits,
    {
        let mode = match &initial_commit {
            Some(_) => ComparisonMode::CommitVsHead,
            None => ComparisonMode::WorkingVsHead,
        };
        let mut states: Vec<ModeState> = Vec::new();
        states.push(ModeState::empty());
        states.push(ModeState::empty());
        states.push(ModeState::empty());
        let mut last = ModeState::empty();
        last.selected_commit = crate::model::copy_opt_string(&initial_commit);
        states.push(last);
        let mut ctrl = Controller {
            facade,
            repo_path,
            has_commits,
            mode,
            selected_commit: initial_commit,
            mode_state: states,
            files: Vec::new(),
            tree_cache: Vec::new(),
            collapsed: Vec::new(),
            cursor: 0,
            list_scroll: 0,
            diff_rows: Vec::new(),
            diff_file: None,
            diff_vscroll: 0,
            diff_hscroll: 0,
            diff_cursor: 0,
            fold_unchanged: false,
            hunk_idx: 0,
            hunk_count: 0,
            filter: None,
            sort: SortMode::Path,
            overlay: None,
            focus: Focus::FileList,
            diff_viewport: 0,
            diff_hviewport: 0,
            diff_max_line_w: 0,
            list_viewport: 0,
            loading: false,
            status: String::new(),
        };
        assert(files_sum(ctrl.files@, false) == 0);
        assert(files_sum(ctrl.files@, true) == 0);
        match ctrl.reload(false) {
            Ok(()) => {},
            Err(e) => {
                return Err(e);
            },
        }
        Ok(ctrl)
    }

    /// Whether diff row `idx` is unchanged (both sides present and equal);
    /// false past the last row.
    pub fn is_unchanged_row(&self, idx: usize) -> (r: bool)
        ensures
            r == (idx < self.diff_rows.len() && row_is_unchanged(self.diff_rows@[idx as int])),
    {
        if idx < self.diff_rows.len() {
            is_unchanged(&self.diff_rows[idx])
        } else {
            false
        }
    }

    /// Sets the viewport sizes computed from the rendered areas. Navigation
    /// clamps read these; rendering calls this once per frame, so the
    /// controller itself has no rendering side effects.
    pub fn update_viewports(&mut self, list_height: usize, diff_height: usize, diff_width: usize, max_line_w: usize)
        ensures
            final(self).list_viewport == list_height,
            final(self).diff_viewport == diff_height,
            final(self).diff_hviewport == diff_width,
            final(self).diff_max_line_w == max_line_w,
            final(self).same_data(old(self)),
            final(self).same_diff(old(self)),
            final(self).tree_cache@ == old(self).tree_cache@,
            final(self).collapsed@ == old(self).collapsed@,
            final(self).filter == old(self).filter,
            final(self).cursor == old(self).cursor,
            final(self).list_scroll == old(self).list_scroll,
            final(self).focus == old(self).focus,
            final(self).overlay == old(self).overlay,
            final(self).loading == old(self).loading,
            final(self).fold_unchanged == old(self).fold_unchanged,
    {
        self.list_viewport = list_height;
        self.diff_viewport = diff_height;
        self.diff_hviewport = diff_width;
        self.diff_max_line_w = max_line_w;
    }

    /// The labels of the original and the changed side in the current mode.
    pub fn side_labels(&self) -> (r: (String, String))
        ensures
            ({
                let commit = opt_view(self.selected_commit);
                match self.mode {
                    ComparisonMode::WorkingVsHead => r.0@ == "HEAD"@ && r.1@ == "工作区"@,
                    ComparisonMode::StagedVsHead => r.0@ == "HEAD"@ && r.1@ == "暂存区"@,
                    ComparisonMode::StagedVsWorking => r.0@ == "暂存区"@ && r.1@ == "工作区"@,
                    ComparisonMode::CommitVsHead => r.0@ == crate::model::commit_side_label(commit) && r.1@ == "HEAD"@,
                }
            }),
    {
        let commit: Option<&str> = match &self.selected_commit {
            Some(c) => Some(c.as_str()),
            None => None,
        };
        let pair = SidePair::for_mode(self.mode, commit);
        (pair.original.label(), pair.changed.label())
    }
}

/// The first list row a pane of `height` rows shows: the saved scroll,
/// but no further down than the last full page.
pub open spec fn list_window_start(list_scroll: usize, rows: nat, height: usize) -> usize {
    let last_page: int = if rows >= height { rows - height } else { 0 };
    if list_scroll <= last_page { list_scroll } else { last_page as usize }
}

impl<'a> Controller<'a> {
    /// Fits the list to a pane of `height` rows before it is drawn: the
    /// cursor is pulled back onto the last row when it is past it, and the
    /// scroll is moved so that the next frame shows the cursor. Gives the
    /// first row to draw in this frame.
    pub fn fit_list_view(&mut self, height: usize) -> (start: usize)
        ensures
            ({
                let n = old(self).rows().len();
                let cur: usize = if old(self).cursor as int >= n { if n > 0 { (n - 1) as usize } else { 0 } } else { old(self).cursor };
                &&& final(self).cursor == cur
                &&& start == list_window_start(old(self).list_scroll, n, height)
                &&& final(self).list_scroll == if cur < start {
                    cur
                } else if cur - start >= height {
                    (cur + 1 - height) as usize
                } else {
                    old(self).list_scroll
                }
            }),
            final(self).same_data(old(self)),
            final(self).same_diff(old(self)),
            final(self).tree_cache@ == old(self).tree_cache@,
            final(self).collapsed@ == old(self).collapsed@,
            final(self).filter == old(self).filter,
            final(self).focus == old(self).focus,
            final(self).overlay == old(self).overlay,
            final(self).loading == old(self).loading,
    {
        let rows = self.visible_rows();
        let n = rows.len();
        if self.cursor >= n {
            self.cursor = if n > 0 { n - 1 } else { 0 };
        }
        let last_page = if n >= height { n - height } else { 0 };
        let start = if self.list_scroll <= last_page { self.list_scroll } else { last_page };
        if self.cursor < start {
            self.list_scroll = self.cursor;
        } else if self.cursor - start >= height {
            self.list_scroll = if height == 0 { self.cursor + 1 } else { self.cursor - (height - 1) };
        }
        start
    }
}

proof fn lemma_first_dir_none(rows: Seq<RowV>, p: Seq<char>, from: int)
    requires
        0 <= from,
        first_dir_row(rows, p, from) is None,
    ensures
        forall|k: int| from <= k < rows.len() ==> !(#[trigger] rows[k] matches RowV::Dir { path, .. } && path == p),
        from == 0 ==> crate::tree::no_dir_row(rows, p),
    decreases rows.len() - from,
{
    if from < rows.len() {
        lemma_first_dir_none(rows, p, from + 1);
    }
}

proof fn lemma_first_dir_shift(a: Seq<RowV>, b: Seq<RowV>, p: Seq<char>, from: int)
    requires
        a.len() <= from,
    ensures
        first_dir_row(a + b, p, from) == match first_dir_row(b, p, from - a.len()) {
            Some(g) => Some(g + a.len()),
            None => None,
        },
    decreases (a + b).len() - from,
{
    if from < (a + b).len() {
        assert((a + b)[from] == b[from - a.len()]);
        lemma_first_dir_shift(a, b, p, from + 1);
    }
}

proof fn lemma_first_dir_concat(a: Seq<RowV>, b: Seq<RowV>, p: Seq<char>, from: int)
    requires
        0 <= from <= a.len(),
    ensures
        first_dir_row(a + b, p, from) == match first_dir_row(a, p, from) {
            Some(f) => Some(f),
            None => match first_dir_row(b, p, 0) {
                Some(g) => Some(g + a.len()),
                None => None,
            },
        },
    decreases a.len() - from,
{
    if from < a.len() {
        assert((a + b)[from] == a[from]);
        lemma_first_dir_concat(a, b, p, from + 1);
    } else {
        lemma_first_dir_shift(a, b, p, from);
    }
}

proof fn lemma_first_dir_some(rows: Seq<RowV>, p: Seq<char>, from: int)
    requires
        0 <= from,
        first_dir_row(rows, p, from) matches Some(f),
    ensures
        first_dir_row(rows, p, from) matches Some(f) && from <= f < rows.len() && (rows[f] matches RowV::Dir { path, .. } && path == p),
    decreases rows.len() - from,
{
    if from < rows.len() && !(rows[from] matches RowV::Dir { path, .. } && path == p) {
        lemma_first_dir_some(rows, p, from + 1);
    }
}

/// Whether `w2` agrees with `w1` up to the first directory row of `w1` at
/// `p`, which `w2` also shows as a directory at `p`; or equals `w1` when
/// `w1` has none.
pub open spec fn same_up_to_dir(w1: Seq<RowV>, w2: Seq<RowV>, p: Seq<char>) -> bool {
    match first_dir_row(w1, p, 0) {
        None => w2 == w1,
        Some(f) => {
            &&& f < w2.len()
            &&& w2.take(f) == w1.take(f)
            &&& w2[f] matches RowV::Dir { path, .. } && path == p
        },
    }
}

proof fn lemma_same_up_to_dir_concat(a1: Seq<RowV>, a2: Seq<RowV>, b1: Seq<RowV>, b2: Seq<RowV>, p: Seq<char>)
    requires
        same_up_to_dir(a1, a2, p),
        first_dir_row(a1, p, 0) is None ==> same_up_to_dir(b1, b2, p),
    ensures
        same_up_to_dir(a1 + b1, a2 + b2, p),
{
    lemma_first_dir_concat(a1, b1, p, 0);
    match first_dir_row(a1, p, 0) {
        Some(f) => {
            lemma_first_dir_some(a1, p, 0);
            assert((a2 + b2).take(f) =~= a2.take(f));
            assert((a1 + b1).take(f) =~= a1.take(f));
            assert((a2 + b2)[f] == a2[f]);
        },
        None => {
            assert(a2 == a1);
            match first_dir_row(b1, p, 0) {
                Some(g) => {
                    lemma_first_dir_some(b1, p, 0);
                    assert((a2 + b2).take(g + a1.len()) =~= a1 + b2.take(g));
                    assert((a1 + b1).take(g + a1.len()) =~= a1 + b1.take(g));
                    assert((a2 + b2)[g + a1.len()] == b2[g]);
                },
                None => {
                    assert(b2 == b1);
                },
            }
        },
    }
}

/// Unfolding the directories at `p` leaves the rows of a walk unchanged up
/// to the first directory row at `p`, which stays a directory row at `p`.
proof fn lemma_unfold_keeps_prefix(
    nodes: Seq<TreeV>,
    i: int,
    c1: Seq<Seq<char>>,
    c2: Seq<Seq<char>>,
    p: Seq<char>,
    prefix: Seq<char>,
    path_prefix: Seq<char>,
    depth: usize,
)
    requires
        forall|x: Seq<char>| #[trigger] c2.contains(x) <==> (c1.contains(x) && x != p),
    ensures
        same_up_to_dir(walk_at(nodes, i, c1, prefix, path_prefix, depth), walk_at(nodes, i, c2, prefix, path_prefix, depth), p),
    decreases nodes, nodes.len() - i,
{
    if 0 <= i < nodes.len() {
        let is_last = i + 1 == nodes.len();
        let guide = crate::tree::guide_for(prefix, depth, is_last);
        let rest1 = walk_at(nodes, i + 1, c1, prefix, path_prefix, depth);
        let rest2 = walk_at(nodes, i + 1, c2, prefix, path_prefix, depth);
        lemma_unfold_keeps_prefix(nodes, i + 1, c1, c2, p, prefix, path_prefix, depth);
        match nodes[i] {
            TreeV::Dir { name, children, added, deleted } => {
                let path = crate::tree::join_path(path_prefix, name);
                let k1 = c1.contains(path);
                let k2 = c2.contains(path);
                let sub1 = if k1 {
                    Seq::<RowV>::empty()
                } else {
                    walk_at(children, 0, c1, prefix + crate::tree::child_pad(is_last), path, crate::tree::deeper(depth))
                };
                let sub2 = if k2 {
                    Seq::<RowV>::empty()
                } else {
                    walk_at(children, 0, c2, prefix + crate::tree::child_pad(is_last), path, crate::tree::deeper(depth))
                };
                let h1 = seq![RowV::Dir { path, depth, collapsed: k1, added, deleted, guide }] + sub1;
                let h2 = seq![RowV::Dir { path, depth, collapsed: k2, added, deleted, guide }] + sub2;
                assert(walk_at(nodes, i, c1, prefix, path_prefix, depth) == h1 + rest1);
                assert(walk_at(nodes, i, c2, prefix, path_prefix, depth) == h2 + rest2);
                if path == p {
                    assert(first_dir_row(h1, p, 0) == Some(0int));
                    assert(h2.take(0) =~= h1.take(0));
                    assert(same_up_to_dir(h1, h2, p));
                } else {
                    assert(k1 == k2);
                    let row = seq![RowV::Dir { path, depth, collapsed: k1, added, deleted, guide }];
                    if !k1 {
                        assert(decreases_to!(nodes => children)) by {
                            assert(decreases_to!(nodes => nodes[i]));
                        }
                        lemma_unfold_keeps_prefix(
                            children,
                            0,
                            c1,
                            c2,
                            p,
                            prefix + crate::tree::child_pad(is_last),
                            path,
                            crate::tree::deeper(depth),
                        );
                    } else {
                        assert(first_dir_row(sub1, p, 0) is None);
                    }
                    assert(first_dir_row(row, p, 0) is None) by {
                        assert(first_dir_row(row, p, 1) is None);
                    }
                    assert(same_up_to_dir(row, row, p));
                    lemma_same_up_to_dir_concat(row, row, sub1, sub2, p);
                    assert(h1 == row + sub1);
                    assert(h2 == row + sub2);
                }
                lemma_same_up_to_dir_concat(h1, h2, rest1, rest2, p);
            },
            TreeV::File(f) => {
                let h = seq![RowV::File { file: f, depth, guide }];
                assert(walk_at(nodes, i, c1, prefix, path_prefix, depth) == h + rest1);
                assert(walk_at(nodes, i, c2, prefix, path_prefix, depth) == h + rest2);
                assert(first_dir_row(h, p, 0) is None) by {
                    assert(first_dir_row(h, p, 1) is None);
                }
                lemma_same_up_to_dir_concat(h, h, rest1, rest2, p);
            },
        }
    } else {
        assert(first_dir_row(walk_at(nodes, i, c1, prefix, path_prefix, depth), p, 0) is None);
    }
}

proof fn lemma_first_dir_at(rows: Seq<RowV>, c: int, from: int)
    requires
        0 <= from <= c < rows.len(),
        rows[c] matches RowV::Dir { .. },
        crate::tree::distinct_dir_paths(rows),
    ensures
        first_dir_row(rows, crate::tree::dir_path_of(rows[c])->0, from) == Some(c),
    decreases c - from,
{
    if from < c {
        assert(crate::tree::dir_path_of(rows[from]) != crate::tree::dir_path_of(rows[c]));
        lemma_first_dir_at(rows, c, from + 1);
    }
}

/// In the unfiltered list of a tree built from git's paths, no two
/// directory rows share a path: unfolding the selected directory with
/// Right never meets an earlier row of the same path.
pub proof fn lemma_built_list_dirs_distinct(c: Controller)
    requires
        c.tree_shows_files(),
        c.files_clean(),
        c.filter is None,
    ensures
        crate::tree::distinct_dir_paths(c.rows()),
        !c.dir_path_repeats_above(),
{
    let t = c.tree();
    let cv = strings_view(c.collapsed@);
    crate::tree::lemma_build_tree_tidy(c.files@, c.sort);
    match t[0] {
        TreeV::Dir { name, children, added, deleted } => {
            let guide = crate::tree::guide_for(seq![], 0, true);
            let root = crate::tree::join_path(seq![], name);
            let pad = Seq::<char>::empty() + crate::tree::child_pad(true);
            let k = cv.contains(root);
            let sub = if k {
                Seq::<RowV>::empty()
            } else {
                walk_at(children, 0, cv, pad, root, crate::tree::deeper(0))
            };
            let row = seq![RowV::Dir { path: root, depth: 0, collapsed: k, added, deleted, guide }];
            assert(walk_at(t, 1, cv, seq![], seq![], 0) == Seq::<RowV>::empty());
            assert(c.rows() == row + sub + Seq::<RowV>::empty());
            assert(c.rows() =~= row + sub);
            if !k {
                crate::tree::lemma_walk_dir_paths(children, 0, cv, pad, root, crate::tree::deeper(0));
            }
            assert forall|a: int, b: int| 0 <= a < row.len() && 0 <= b < sub.len() && #[trigger] crate::tree::dir_path_of(row[a]) is Some
                implies crate::tree::dir_path_of(row[a]) != #[trigger] crate::tree::dir_path_of(sub[b]) by {
                if crate::tree::dir_path_of(sub[b]) is Some {
                    let x = crate::tree::dir_path_of(sub[b])->0;
                    assert(crate::tree::under_some(x, children, 0, root));
                    let j = choose|j: int| 0 <= j < children.len() && (#[trigger] crate::tree::dir_name(children[j]) matches Some(n)
                        && crate::tree::under(x, root, n));
                    crate::tree::lemma_under_longer(x, root, crate::tree::dir_name(children[j])->0);
                }
            }
            assert(crate::tree::distinct_dir_paths(row));
            if k {
                assert(crate::tree::distinct_dir_paths(sub));
            }
            crate::tree::lemma_distinct_concat(row, sub);
            if c.cursor < c.rows().len() && c.rows()[c.cursor as int] is Dir {
                lemma_first_dir_at(c.rows(), c.cursor as int, 0);
            }
        },
        TreeV::File(_) => {},
    }
}

// ------------------------------------------------------------ laws

/// Pressing `s` three times comes back to the sort mode it started from,
/// through all three modes.
pub proof fn lemma_sort_cycle(s: SortMode)
    ensures
        next_sort(next_sort(next_sort(s))) == s,
        next_sort(s) != s,
        next_sort(next_sort(s)) != s,
{
}

/// A step of the list or diff cursor never leaves a non-empty list.
pub proof fn lemma_step_stays_in_list(cur: int, forward: bool, amount: int, len: int)
    requires
        len > 0,
    ensures
        0 <= clamp_step(cur, forward, amount, len) < len,
{
}

/// After the diff cursor moves, the window scrolled to keeps it in view:
/// it lies within the `viewport` rows (at least one) from the new top row.
pub proof fn lemma_scroll_shows_cursor(cursor: usize, vscroll: usize, viewport: usize)
    ensures
        scroll_to_show(cursor, vscroll, viewport) <= cursor,
        cursor < scroll_to_show(cursor, vscroll, viewport) + page(viewport),
{
}

/// A filter with a leading `!` keeps exactly the files the same filter
/// without it drops.
pub proof fn lemma_negated_filter(path: Seq<char>, pat: Seq<char>)
    requires
        !(pat.len() > 0 && pat[0] == '!'),
    ensures
        path_matches(path, seq!['!'] + pat) == !path_matches(path, pat),
{
    assert((seq!['!'] + pat).drop_first() =~= pat);
}

/// Restoring a snapshot over the list it was taken from selects a row with
/// the saved row's path, at or above it (the saved row itself when no row
/// above it has that path).
pub proof fn lemma_snapshot_reselects(rows: Seq<RowV>, cursor: usize)
    requires
        cursor < rows.len(),
    ensures
        first_row_with_path(rows, row_path_of(rows[cursor as int]), 0) matches Some(i) && 0 <= i <= cursor
            && row_path_of(rows[i]) == row_path_of(rows[cursor as int]),
        (forall|j: int| 0 <= j < cursor ==> row_path_of(rows[j]) != row_path_of(rows[cursor as int]))
            ==> first_row_with_path(rows, row_path_of(rows[cursor as int]), 0) == Some(cursor as int),
{
    lemma_first_row_from(rows, row_path_of(rows[cursor as int]), 0, cursor as int);
}

proof fn lemma_first_row_from(rows: Seq<RowV>, p: Seq<char>, from: int, at: int)
    requires
        0 <= from <= at < rows.len(),
        row_path_of(rows[at]) == p,
    ensures
        first_row_with_path(rows, p, from) matches Some(i) && from <= i <= at && row_path_of(rows[i]) == p,
        (forall|j: int| from <= j < at ==> row_path_of(rows[j]) != p) ==> first_row_with_path(rows, p, from) == Some(at),
    decreases at - from,
{
    if from < at && row_path_of(rows[from]) != p {
        lemma_first_row_from(rows, p, from + 1, at);
    }
}

} // verus!
