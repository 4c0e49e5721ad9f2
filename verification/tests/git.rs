use std::path::PathBuf;

use git_diff::git::{
    between_args, branch_args, branch_from_answer, files_from_answers, listed_paths, log_args, show_arg, show_rev, sides_to_read,
    untracked_args, untracked_from, clean_git_error, count_lines, files_from_outputs, parse_log, parse_name_status, parse_numstat, GitError, GitFacade, GitRunner,
};
use git_diff::model::{ChangedFile, ComparisonMode, SidePair, SideRef, Status};

struct FakeRunner {
    responses: Vec<(&'static [&'static str], &'static str)>,
    files: Vec<(&'static str, &'static [u8])>,
}

impl FakeRunner {
    fn new(responses: Vec<(&'static [&'static str], &'static str)>) -> Self {
        Self { responses, files: Vec::new() }
    }
}

impl GitRunner for FakeRunner {
    fn run(&self, args: &[&str]) -> anyhow::Result<String> {
        for (key, out) in &self.responses {
            if *key == args {
                return Ok(out.to_string());
            }
        }
        Ok(String::new())
    }

    fn read_worktree(&self, path: &str) -> Option<Vec<u8>> {
        self.files.iter().find(|(p, _)| *p == path).map(|(_, c)| c.to_vec())
    }
}

/// A runner whose every command fails.
struct FailingRunner;

impl GitRunner for FailingRunner {
    fn run(&self, _args: &[&str]) -> anyhow::Result<String> {
        Err(anyhow::Error::msg("not a git repository"))
    }
}

fn root() -> PathBuf {
    PathBuf::from("/tmp")
}

#[test]
fn count_lines_counts_nonempty() {
    assert_eq!(count_lines(b"a\nb\nc\n"), 3);
    assert_eq!(count_lines(b"a\nb\n"), 2);
    assert_eq!(count_lines(b"abc"), 1);
    assert_eq!(count_lines(b""), 0);
}

#[test]
fn count_lines_skips_blank_lines() {
    assert_eq!(count_lines(b"\n\na\n\nb"), 2);
}

#[test]
fn parse_numstat_basic() {
    let out = "2\t1\tsrc/main.rs\n30\t0\tsrc/lib.rs\n0\t5\told.txt\n";
    let rows = parse_numstat(out, false).unwrap();
    assert_eq!(rows.len(), 3);
    assert_eq!(rows[0], (String::from("src/main.rs"), None, 2, 1, false));
    assert_eq!(rows[1], (String::from("src/lib.rs"), None, 30, 0, false));
    assert_eq!(rows[2], (String::from("old.txt"), None, 0, 5, false));
}

#[test]
fn parse_numstat_rename() {
    let out = "1\t1\tsrc/a.rs => src/b.rs\n";
    let rows = parse_numstat(out, true).unwrap();
    assert_eq!(rows.len(), 1);
    assert_eq!(rows[0], (String::from("src/b.rs"), Some(String::from("src/a.rs")), 1, 1, false));
}

#[test]
fn parse_numstat_brace_rename() {
    let rows = parse_numstat("3\t0\tsrc/{old => new}/lib.rs\n", true).unwrap();
    assert_eq!(rows[0].0, "src/new/lib.rs");
    assert_eq!(rows[0].1, Some(String::from("src/old/lib.rs")));
    let rows = parse_numstat("1\t1\tsrc/a.rs => src/b.rs\n", false).unwrap();
    assert_eq!(rows[0].0, "src/a.rs => src/b.rs");
    assert_eq!(rows[0].1, None);
}

#[test]
fn parse_numstat_binary() {
    let out = "-\t-\tbinary.png\n";
    let rows = parse_numstat(out, false).unwrap();
    assert_eq!(rows.len(), 1);
    assert!(rows[0].4);
}

#[test]
fn parse_numstat_rejects_bad_counts() {
    assert!(matches!(parse_numstat("x\t1\tf\n", false), Err(GitError::Parse(_))));
    assert!(matches!(parse_numstat("1\ty\tf\n", false), Err(GitError::Parse(_))));
    assert_eq!(parse_numstat("\n  \n", false).unwrap().len(), 0);
}

#[test]
fn parse_name_status_basic() {
    let out = "M\tsrc/main.rs\nA\tsrc/lib.rs\nD\told.txt\n";
    let rows = parse_name_status(out).unwrap();
    assert_eq!(rows.len(), 3);
    assert_eq!(rows[0], (Status::Modified, String::from("src/main.rs"), None));
    assert_eq!(rows[1], (Status::Added, String::from("src/lib.rs"), None));
    assert_eq!(rows[2], (Status::Deleted, String::from("old.txt"), None));
}

#[test]
fn parse_name_status_rename() {
    let out = "R100\tsrc/a.rs\tsrc/b.rs\nR075\tsrc/c.rs\tsrc/d.rs\n";
    let rows = parse_name_status(out).unwrap();
    assert_eq!(rows.len(), 2);
    assert_eq!(rows[0], (Status::Renamed, String::from("src/b.rs"), Some(String::from("src/a.rs"))));
    assert_eq!(rows[1], (Status::Renamed, String::from("src/d.rs"), Some(String::from("src/c.rs"))));
}

#[test]
fn parse_log_format() {
    let out = "a1b2c3d|Add refund logic|2026-09-10|Alice\nf4e5d6c|Fix login crash|2026-09-05|Bob\n";
    let commits = parse_log(out).unwrap();
    assert_eq!(commits.len(), 2);
    assert_eq!(commits[0].short_hash, "a1b2c3d");
    assert_eq!(commits[0].title, "Add refund logic");
    assert_eq!(commits[0].date, "2026-09-10");
    assert_eq!(commits[0].author, "Alice");
}

#[test]
fn clean_git_error_strips_prefixes() {
    assert_eq!(clean_git_error("\n  fatal: bad revision 'x'\nmore"), "bad revision 'x'");
    assert_eq!(clean_git_error("致命错误：有歧义的参数 'd1d413e'"), "有歧义的参数 'd1d413e'");
    assert_eq!(clean_git_error("warning: odd"), "warning: odd");
    assert_eq!(clean_git_error(""), "");
}

#[test]
fn files_from_outputs_takes_status_of_last_row() {
    let files = files_from_outputs("1\t2\ta.rs\n0\t0\tb.rs\n", "A\ta.rs\nD\ta.rs\n").unwrap();
    assert_eq!(files.len(), 2);
    assert_eq!(files[0].status, Status::Deleted);
    assert_eq!(files[0].added, 1);
    assert_eq!(files[0].deleted, 2);
    assert_eq!(files[1].status, Status::Modified);
    assert!(matches!(files_from_outputs("q\t1\ta\n", ""), Err(GitError::Parse(_))));
}

#[test]
fn changed_files_mode_a_lists_modified() {
    let runner = FakeRunner::new(vec![
        (&["diff", "--numstat", "-M", "HEAD"], "2\t1\tsrc/main.rs\n-\t-\tbin.dat\n"),
        (&["diff", "--name-status", "-M", "HEAD"], "M\tsrc/main.rs\n"),
    ]);
    let root = root();
    let facade = GitFacade::new(&runner, &root);
    let files = facade.changed_files(ComparisonMode::WorkingVsHead).unwrap();
    assert_eq!(files.len(), 2);
    assert_eq!(files[0].status, Status::Modified);
    assert_eq!(files[0].path, "src/main.rs");
    assert_eq!(files[0].added, 2);
    assert_eq!(files[1].status, Status::Modified);
    assert_eq!(files[1].path, "bin.dat");
    assert!(files[1].is_binary);
}

#[test]
fn untracked_files_lists_and_counts_untracked() {
    let mut runner = FakeRunner::new(vec![(&["ls-files", "--others", "--exclude-standard"], "notes.md\n")]);
    runner.files.push(("notes.md", b"a\nb\nc\n"));
    let root = root();
    let facade = GitFacade::new(&runner, &root);
    let files = facade.untracked_files().unwrap();
    assert_eq!(files.len(), 1);
    assert_eq!(files[0].status, Status::Untracked);
    assert_eq!(files[0].path, "notes.md");
    assert_eq!(files[0].added, 3);
}

#[test]
fn changed_files_mode_b_uses_cached() {
    let runner = FakeRunner::new(vec![
        (&["diff", "--cached", "--numstat", "-M", "HEAD"], "2\t1\tsrc/main.rs\n"),
        (&["diff", "--cached", "--name-status", "-M", "HEAD"], "M\tsrc/main.rs\n"),
    ]);
    let facade = GitFacade::new(&runner, &root());
    let files = facade.changed_files(ComparisonMode::StagedVsHead).unwrap();
    assert_eq!(files.len(), 1);
    assert_eq!(files[0].path, "src/main.rs");
}

#[test]
fn changed_files_mode_c_uses_working_vs_index() {
    let runner = FakeRunner::new(vec![
        (&["diff", "--numstat", "-M"], "2\t1\tsrc/main.rs\n"),
        (&["diff", "--name-status", "-M"], "M\tsrc/main.rs\n"),
    ]);
    let facade = GitFacade::new(&runner, &root());
    let files = facade.changed_files(ComparisonMode::StagedVsWorking).unwrap();
    assert_eq!(files.len(), 1);
    assert_eq!(files[0].path, "src/main.rs");
}

#[test]
fn changed_files_mode_d_uses_commit() {
    let runner = FakeRunner::new(vec![
        (&["diff", "--numstat", "-M", "abc1234", "HEAD"], "2\t1\tsrc/main.rs\n"),
        (&["diff", "--name-status", "-M", "abc1234", "HEAD"], "M\tsrc/main.rs\n"),
    ]);
    let facade = GitFacade::new(&runner, &root());
    let files = facade.changed_files_between("abc1234").unwrap();
    assert_eq!(files.len(), 1);
    assert_eq!(files[0].path, "src/main.rs");
}

#[test]
fn empty_output_means_no_changes() {
    let runner = FakeRunner::new(vec![]);
    let facade = GitFacade::new(&runner, &root());
    let files = facade.changed_files(ComparisonMode::WorkingVsHead).unwrap();
    assert!(files.is_empty());
}

#[test]
fn changed_files_refuses_mode_d() {
    let runner = FakeRunner::new(vec![]);
    let facade = GitFacade::new(&runner, &root());
    assert!(matches!(facade.changed_files(ComparisonMode::CommitVsHead), Err(GitError::Mode(_))));
}

#[test]
fn failing_git_is_a_run_error() {
    let facade = GitFacade::new(&FailingRunner, &root());
    match facade.commits() {
        Err(GitError::Run(m)) => assert_eq!(m, "not a git repository"),
        _ => panic!("expected a run error"),
    }
    assert_eq!(facade.current_branch().unwrap(), None);
}

#[test]
fn current_branch_is_trimmed() {
    let runner = FakeRunner::new(vec![(&["symbolic-ref", "--short", "HEAD"], "main\n")]);
    let facade = GitFacade::new(&runner, &root());
    assert_eq!(facade.current_branch().unwrap(), Some(String::from("main")));
    assert_eq!(facade.root(), &root());
}

#[test]
fn file_sides_follow_status_and_mode() {
    let runner = FakeRunner::new(vec![(&["show", "HEAD:old.rs"], "x\n"), (&["show", ":new.rs"], "y\n")]);
    let facade = GitFacade::new(&runner, &root());
    let renamed = ChangedFile {
        status: Status::Renamed,
        path: String::from("new.rs"),
        old_path: Some(String::from("old.rs")),
        added: 1,
        deleted: 1,
        is_binary: false,
    };
    let sides = facade.file_sides(ComparisonMode::StagedVsHead, &renamed).unwrap();
    assert_eq!(sides.original, Some(b"x\n".to_vec()));
    assert_eq!(sides.changed, Some(b"y\n".to_vec()));
    let mut added = renamed.clone();
    added.status = Status::Added;
    let sides = facade.file_sides(ComparisonMode::StagedVsHead, &added).unwrap();
    assert_eq!(sides.original, None);
    assert!(matches!(facade.file_sides(ComparisonMode::CommitVsHead, &added), Err(GitError::Mode(_))));
    let mut deleted = renamed.clone();
    deleted.status = Status::Deleted;
    let sides = facade.file_sides_between("abc", &deleted).unwrap();
    assert_eq!(sides.changed, None);
    assert_eq!(SideRef::Commit(String::from("abc")).label(), "abc");
}

#[test]
fn command_arguments_are_the_documented_ones() {
    assert_eq!(between_args("abc1234"), (vec!["diff", "--numstat", "-M", "abc1234", "HEAD"], vec!["diff", "--name-status", "-M", "abc1234", "HEAD"]));
    assert_eq!(untracked_args(), vec!["ls-files", "--others", "--exclude-standard"]);
    assert_eq!(log_args(), vec!["log", "-n", "200", "--pretty=format:%h|%s|%ad|%an", "--date=short"]);
    assert_eq!(branch_args(), vec!["symbolic-ref", "--short", "HEAD"]);
    assert_eq!(show_arg("HEAD", "src/a.rs"), "HEAD:src/a.rs");
    assert_eq!(show_rev(&SideRef::Index).as_deref(), Some(""));
    assert_eq!(show_rev(&SideRef::Commit("abc".into())).as_deref(), Some("abc"));
    assert_eq!(show_rev(&SideRef::Worktree), None);
}

#[test]
fn branch_answer_is_trimmed_or_none() {
    assert_eq!(branch_from_answer(Ok("main\n".to_string())).as_deref(), Some("main"));
    assert_eq!(branch_from_answer(Ok("  \n".to_string())), None);
    assert_eq!(branch_from_answer(Err(GitError::Run("detached".into()))), None);
}

#[test]
fn answers_give_the_first_error_or_the_files() {
    let err = files_from_answers(Err(GitError::Run("boom".into())), Ok(String::new()));
    assert!(matches!(err, Err(GitError::Run(m)) if m == "boom"));
    let err = files_from_answers(Ok("1\t0\ta.rs\n".into()), Err(GitError::Run("late".into())));
    assert!(matches!(err, Err(GitError::Run(m)) if m == "late"));
    let ok = files_from_answers(Ok("1\t0\ta.rs\n".into()), Ok("A\ta.rs\n".into())).unwrap();
    assert_eq!(ok.len(), 1);
    assert_eq!(ok[0].status, Status::Added);
}

#[test]
fn untracked_entries_count_what_was_read() {
    let paths = listed_paths("notes.md\n\n  \nbin/x\n");
    assert_eq!(paths, vec!["notes.md", "bin/x"]);
    let files = untracked_from(&paths, &vec![Some(b"a\nb\nc\n".to_vec()), None]);
    assert_eq!(files.len(), 2);
    assert_eq!((files[0].status, files[0].added, files[0].deleted), (Status::Untracked, 3, 0));
    assert_eq!(files[1].added, 0);
}

#[test]
fn sides_read_the_pair_at_the_right_paths() {
    let pair = SidePair { original: SideRef::Head, changed: SideRef::Worktree };
    let renamed = ChangedFile { status: Status::Renamed, path: "new.rs".into(), old_path: Some("old.rs".into()), added: 0, deleted: 0, is_binary: false };
    let (o, c) = sides_to_read(&pair, &renamed);
    assert_eq!(o, Some((SideRef::Head, "old.rs".to_string())));
    assert_eq!(c, Some((SideRef::Worktree, "new.rs".to_string())));
    let added = ChangedFile { status: Status::Added, ..renamed.clone() };
    assert_eq!(sides_to_read(&pair, &added).0, None);
    let deleted = ChangedFile { status: Status::Deleted, ..renamed };
    assert_eq!(sides_to_read(&pair, &deleted).1, None);
}

#[test]
fn count_lines_adds_across_a_line_break() {
    let a: &[u8] = b"one\n\ntwo";
    let b: &[u8] = b"\nthree\n";
    let mut joined = a.to_vec();
    joined.push(b'\n');
    joined.extend_from_slice(b);
    assert_eq!(count_lines(&joined), count_lines(a) + count_lines(b));
}

#[test]
fn log_line_reads_back_its_fields() {
    let commits = parse_log("abc1234|Fix it|2026-01-02|Ann|Lee\n").unwrap();
    assert_eq!(commits.len(), 1);
    assert_eq!(commits[0].short_hash, "abc1234");
    assert_eq!(commits[0].title, "Fix it");
    assert_eq!(commits[0].date, "2026-01-02");
    assert_eq!(commits[0].author, "Ann|Lee");
}

#[test]
fn a_whole_log_reads_back() {
    let commits = parse_log("abc1234|Fix it|2026-01-02|Ann\ndef5678|Add x|2026-01-03|Bob|Lee\n").unwrap();
    assert_eq!(commits.len(), 2);
    assert_eq!(commits[1].short_hash, "def5678");
    assert_eq!(commits[1].title, "Add x");
    assert_eq!(commits[1].author, "Bob|Lee");
}

#[test]
fn numstat_line_reads_back_counts_and_path() {
    let rows = parse_numstat("12\t0\tsrc/lib.rs\n", false).unwrap();
    assert_eq!(rows, vec![("src/lib.rs".to_string(), None, 12, 0, false)]);
}

#[test]
fn nonempty_lines_never_exceed_lines() {
    assert_eq!(count_lines(b"a\n\nb"), 2);
    assert_eq!(git_diff::controller::line_count(b"a\n\nb"), 3);
    assert_eq!(count_lines(b""), 0);
    assert_eq!(git_diff::controller::line_count(b""), 1);
}
