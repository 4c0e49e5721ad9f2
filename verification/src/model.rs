//! The data model: a changed file, a commit, the comparison modes and which
//! refs stand on each side of a comparison.
use vstd::prelude::*;

verus! {

/// How a file changed between the two sides.
#[derive(Clone, Copy, Debug, PartialEq, Eq, Structural)]
pub enum Status {
    Modified,
    Added,
    Deleted,
    Renamed,
    Untracked,
}

/// The one-letter badge of a status.
pub open spec fn status_letter(s: Status) -> Seq<char> {
    match s {
        Status::Modified => seq!['M'],
        Status::Added => seq!['A'],
        Status::Deleted => seq!['D'],
        Status::Renamed => seq!['R'],
        Status::Untracked => seq!['U'],
    }
}

impl Status {
    pub fn letter(self) -> (r: &'static str)
        ensures
            r@ == status_letter(self),
    {
        match self {
            Status::Modified => {
                proof {
                    reveal_strlit("M");
                }
                "M"
            },
            Status::Added => {
                proof {
                    reveal_strlit("A");
                }
                "A"
            },
            Status::Deleted => {
                proof {
                    reveal_strlit("D");
                }
                "D"
            },
            Status::Renamed => {
                proof {
                    reveal_strlit("R");
                }
                "R"
            },
            Status::Untracked => {
                proof {
                    reveal_strlit("U");
                }
                "U"
            },
        }
    }
}

/// What is compared with what.
#[derive(Clone, Copy, Debug, PartialEq, Eq, Structural)]
pub enum ComparisonMode {
    /// Mode A: the working tree against HEAD.
    WorkingVsHead,
    /// Mode B: the index against HEAD.
    StagedVsHead,
    /// Mode C: the working tree against the index.
    StagedVsWorking,
    /// Mode D: HEAD against a chosen commit.
    CommitVsHead,
}

impl ComparisonMode {
    /// The label shown in the header for this mode.
    pub fn label(self) -> (r: &'static str)
        ensures
            self == ComparisonMode::WorkingVsHead ==> r@ == "工作区↔HEAD"@,
            self == ComparisonMode::StagedVsHead ==> r@ == "暂存区↔HEAD"@,
            self == ComparisonMode::StagedVsWorking ==> r@ == "暂存区↔工作区"@,
            self == ComparisonMode::CommitVsHead ==> r@ == "commit↔HEAD"@,
    {
        match self {
            ComparisonMode::WorkingVsHead => "工作区↔HEAD",
            ComparisonMode::StagedVsHead => "暂存区↔HEAD",
            ComparisonMode::StagedVsWorking => "暂存区↔工作区",
            ComparisonMode::CommitVsHead => "commit↔HEAD",
        }
    }
}

/// One changed file of a comparison.
#[derive(Clone, Debug, PartialEq, Eq)]
pub struct ChangedFile {
    pub status: Status,
    pub path: String,
    pub old_path: Option<String>,
    pub added: u64,
    pub deleted: u64,
    pub is_binary: bool,
}

/// An owned copy of an optional string.
pub fn copy_opt_string(s: &Option<String>) -> (r: Option<String>)
    ensures
        r == *s,
{
    match s {
        Some(x) => Some(x.clone()),
        None => None,
    }
}

impl ChangedFile {
    /// A field-by-field copy, equal to `self`.
    pub fn duplicate(&self) -> (r: ChangedFile)
        ensures
            r == *self,
    {
        ChangedFile {
            status: self.status,
            path: self.path.clone(),
            old_path: copy_opt_string(&self.old_path),
            added: self.added,
            deleted: self.deleted,
            is_binary: self.is_binary,
        }
    }

    /// The text shown for the file in a list: the status letter, a space and
    /// the path.
    pub fn display_string(&self) -> (r: String)
        ensures
            r@ == status_letter(self.status) + seq![' '] + self.path@,
    {
        let mut s = self.status.letter().to_owned();
        crate::text::push_char(&mut s, ' ');
        crate::text::push_str(&mut s, self.path.as_str());
        s
    }
}

/// One commit of the log.
#[derive(Clone, Debug, PartialEq, Eq)]
pub struct CommitEntry {
    pub short_hash: String,
    pub title: String,
    pub date: String,
    pub author: String,
}

impl CommitEntry {
    /// A field-by-field copy, equal to `self`.
    pub fn duplicate(&self) -> (r: CommitEntry)
        ensures
            r == *self,
    {
        CommitEntry {
            short_hash: self.short_hash.clone(),
            title: self.title.clone(),
            date: self.date.clone(),
            author: self.author.clone(),
        }
    }
}

/// The raw contents of the two sides of a file; `None` where the side has no
/// such file.
#[derive(Clone, Debug, PartialEq, Eq)]
pub struct FileSides {
    pub original: Option<Vec<u8>>,
    pub changed: Option<Vec<u8>>,
}

/// One end of a comparison: where a side's content comes from.
#[derive(Clone, Debug, PartialEq, Eq)]
pub enum SideRef {
    Worktree,
    Index,
    Head,
    Commit(String),
}

/// The label of a side in the diff pane header.
pub open spec fn side_label(side: SideRef) -> Seq<char> {
    match side {
        SideRef::Worktree => "工作区"@,
        SideRef::Index => "暂存区"@,
        SideRef::Head => "HEAD"@,
        SideRef::Commit(c) => c@,
    }
}

impl SideRef {
    /// The label shown in the diff pane header for this end.
    pub fn label(&self) -> (r: String)
        ensures
            r@ == side_label(*self),
    {
        match self {
            SideRef::Worktree => "工作区".to_owned(),
            SideRef::Index => "暂存区".to_owned(),
            SideRef::Head => "HEAD".to_owned(),
            SideRef::Commit(c) => c.clone(),
        }
    }
}

/// Which end is the original side and which the changed side.
#[derive(Clone, Debug, PartialEq, Eq)]
pub struct SidePair {
    pub original: SideRef,
    pub changed: SideRef,
}

/// The commit label used on the original side of mode D.
pub open spec fn commit_side_label(commit: Option<Seq<char>>) -> Seq<char> {
    match commit {
        Some(c) => c,
        None => "commit"@,
    }
}

impl SidePair {
    /// The pairing for a mode. `commit` supplies the original-side ref for
    /// mode D.
    pub fn for_mode(mode: ComparisonMode, commit: Option<&str>) -> (r: SidePair)
        ensures
            mode == ComparisonMode::WorkingVsHead ==> r.original == SideRef::Head && r.changed == SideRef::Worktree,
            mode == ComparisonMode::StagedVsHead ==> r.original == SideRef::Head && r.changed == SideRef::Index,
            mode == ComparisonMode::StagedVsWorking ==> r.original == SideRef::Index && r.changed == SideRef::Worktree,
            mode == ComparisonMode::CommitVsHead ==> r.changed == SideRef::Head && (r.original matches SideRef::Commit(c)
                && c@ == commit_side_label(match commit { Some(s) => Some(s@), None => None })),
    {
        match mode {
            ComparisonMode::WorkingVsHead => SidePair { original: SideRef::Head, changed: SideRef::Worktree },
            ComparisonMode::StagedVsHead => SidePair { original: SideRef::Head, changed: SideRef::Index },
            ComparisonMode::StagedVsWorking => SidePair { original: SideRef::Index, changed: SideRef::Worktree },
            ComparisonMode::CommitVsHead => {
                let c = match commit {
                    Some(s) => s.to_owned(),
                    None => "commit".to_owned(),
                };
                SidePair { original: SideRef::Commit(c), changed: SideRef::Head }
            },
        }
    }
}

} // verus!
