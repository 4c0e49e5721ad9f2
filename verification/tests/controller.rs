use std::path::PathBuf;

use git_diff::controller::{line_count, Controller, Focus, KeyCode, KeyEvent, KeyModifiers, Overlay};
use git_diff::git::{GitFacade, GitRunner};
use git_diff::model::ComparisonMode;
use git_diff::tree::{SortMode, VisibleRow};

/// Fake git that returns a canned file list and blank content for any ref.
struct FakeRunner;

impl GitRunner for FakeRunner {
    fn run(&self, args: &[&str]) -> anyhow::Result<String> {
        match args {
            ["diff", "--numstat", "-M", "HEAD"] => Ok("2\t1\tmain.rs\n1\t0\tlib.rs\n".into()),
            ["diff", "--name-status", "-M", "HEAD"] => Ok("M\tmain.rs\nM\tlib.rs\n".into()),
            ["diff", "--cached", "--numstat", "-M", "HEAD"] => Ok(String::new()),
            ["diff", "--cached", "--name-status", "-M", "HEAD"] => Ok(String::new()),
            ["diff", "--numstat", "-M"] => Ok(String::new()),
            ["diff", "--name-status", "-M"] => Ok(String::new()),
            ["ls-files", "--others", "--exclude-standard"] => Ok(String::new()),
            ["log", "-n", "200", "--pretty=format:%h|%s|%ad|%an", "--date=short"] => Ok("abc1234|Add feature|2026-01-01|Alice\n".into()),
            ["show", "HEAD:main.rs"] => Ok("line1\nline2\nline3\n".into()),
            ["show", "HEAD:lib.rs"] => Ok("x\ny\n".into()),
            _ => Ok(String::new()),
        }
    }
}

fn key(code: KeyCode) -> KeyEvent {
    KeyEvent::new(code, KeyModifiers::Plain)
}

fn setup() -> Controller<'static> {
    let facade = GitFacade::new(&FakeRunner, &PathBuf::from("/tmp"));
    Controller::new(facade, PathBuf::from("/tmp"), true, None).unwrap()
}

/// Fake git returning nested paths so the tree has dirs.
struct NestedRunner;

impl GitRunner for NestedRunner {
    fn run(&self, args: &[&str]) -> anyhow::Result<String> {
        match args {
            ["diff", "--numstat", "-M", "HEAD"] => Ok("1\t0\tsrc/main.rs\n1\t0\tsrc/deep/lib.rs\n1\t0\ttop.rs\n".into()),
            ["diff", "--name-status", "-M", "HEAD"] => Ok("M\tsrc/main.rs\nM\tsrc/deep/lib.rs\nM\ttop.rs\n".into()),
            ["ls-files", "--others", "--exclude-standard"] => Ok(String::new()),
            _ => Ok(String::new()),
        }
    }
}

fn setup_nested() -> Controller<'static> {
    let facade = GitFacade::new(&NestedRunner, &PathBuf::from("/tmp"));
    Controller::new(facade, PathBuf::from("/tmp"), true, None).unwrap()
}

#[test]
fn loads_mode_a_files_and_selects_first() {
    let ctrl = setup();
    assert_eq!(ctrl.mode, ComparisonMode::WorkingVsHead);
    assert_eq!(ctrl.files.len(), 2);
    assert_eq!(ctrl.files[0].path, "main.rs");
    assert_eq!(ctrl.cursor, 0);
    match &ctrl.visible_rows()[0] {
        VisibleRow::Dir { path, depth, .. } => {
            assert_eq!(depth, &0);
            assert!(!path.is_empty());
        }
        _ => panic!("expected root dir row"),
    }
}

#[test]
fn down_moves_cursor_and_loads_diff() {
    let mut ctrl = setup();
    ctrl.handle_key(key(KeyCode::Down));
    assert_eq!(ctrl.cursor, 1);
    assert_eq!(ctrl.diff_file.as_ref().unwrap().path, "lib.rs");
    ctrl.handle_key(key(KeyCode::Down));
    assert_eq!(ctrl.cursor, 2);
    assert_eq!(ctrl.diff_file.as_ref().unwrap().path, "main.rs");
    ctrl.handle_key(key(KeyCode::Down));
    assert_eq!(ctrl.cursor, 2);
}

#[test]
fn mode_switch_preserves_navigation_per_mode() {
    let mut ctrl = setup();
    ctrl.handle_key(key(KeyCode::Down));
    assert_eq!(ctrl.cursor, 1);
    ctrl.handle_key(key(KeyCode::Char('2')));
    assert_eq!(ctrl.mode, ComparisonMode::StagedVsHead);
    assert!(ctrl.files.is_empty());
    ctrl.handle_key(key(KeyCode::Char('1')));
    assert_eq!(ctrl.mode, ComparisonMode::WorkingVsHead);
    assert_eq!(ctrl.cursor, 1, "mode A nav should be restored");
}

#[test]
fn filtering_limits_rows_and_enter_focuses_diff() {
    let mut ctrl = setup();
    ctrl.handle_key(key(KeyCode::Char('/')));
    for ch in ['m', 'a', 'i', 'n'] {
        ctrl.handle_key(key(KeyCode::Char(ch)));
    }
    let rows = ctrl.visible_rows();
    assert_eq!(rows.len(), 2, "filter should keep root dir + main.rs");
    match &rows[1] {
        VisibleRow::File { file, .. } => assert_eq!(file.path, "main.rs"),
        _ => panic!("expected file row"),
    }
    assert_eq!(ctrl.focus, Focus::FileList);
    ctrl.handle_key(key(KeyCode::Enter));
    assert_eq!(ctrl.filter, None);
    assert_eq!(ctrl.focus, Focus::Diff);
}

#[test]
fn overlay_help_ignores_navigation() {
    let mut ctrl = setup();
    ctrl.handle_key(key(KeyCode::Char('?')));
    assert!(matches!(ctrl.overlay, Some(Overlay::Help)));
    ctrl.handle_key(key(KeyCode::Down));
    assert_eq!(ctrl.cursor, 0);
    ctrl.handle_key(key(KeyCode::Esc));
    assert!(ctrl.overlay.is_none());
}

#[test]
fn mode_d_opens_picker_then_loads_commit() {
    let mut ctrl = setup();
    ctrl.handle_key(key(KeyCode::Char('4')));
    assert!(matches!(ctrl.overlay, Some(Overlay::CommitPicker { .. })));
    ctrl.handle_key(key(KeyCode::Enter));
    assert_eq!(ctrl.mode, ComparisonMode::CommitVsHead);
    assert_eq!(ctrl.selected_commit.as_deref(), Some("abc1234"));
    assert!(ctrl.overlay.is_none());
}

#[test]
fn filter_negation_excludes_matches() {
    let mut ctrl = setup();
    ctrl.handle_key(key(KeyCode::Char('/')));
    for ch in ['!', 'm', 'a', 'i', 'n'] {
        ctrl.handle_key(key(KeyCode::Char(ch)));
    }
    let rows = ctrl.visible_rows();
    assert_eq!(rows.len(), 2, "!main should keep root dir + lib.rs");
    match &rows[1] {
        VisibleRow::File { file, .. } => assert_eq!(file.path, "lib.rs"),
        _ => panic!("expected file row"),
    }
}

#[test]
fn sort_cycles_through_modes() {
    let mut ctrl = setup();
    assert_eq!(ctrl.sort, SortMode::Path);
    ctrl.handle_key(key(KeyCode::Char('s')));
    assert_eq!(ctrl.sort, SortMode::Status);
    ctrl.handle_key(key(KeyCode::Char('s')));
    assert_eq!(ctrl.sort, SortMode::Added);
    ctrl.handle_key(key(KeyCode::Char('s')));
    assert_eq!(ctrl.sort, SortMode::Path);
}

#[test]
fn collapse_all_then_expand_all() {
    let mut ctrl = setup_nested();
    let before = ctrl.visible_rows();
    assert!(before.iter().any(|r| matches!(r, VisibleRow::Dir { .. })));
    ctrl.handle_key(key(KeyCode::Char('[')));
    let collapsed = ctrl.visible_rows();
    assert!(collapsed.iter().any(|r| matches!(r, VisibleRow::Dir { .. })));
    assert!(!collapsed.iter().any(|r| matches!(r, VisibleRow::File { file, .. } if file.path.contains('/'))));
    ctrl.handle_key(key(KeyCode::Char(']')));
    let expanded = ctrl.visible_rows();
    assert!(expanded.len() >= before.len());
}

#[test]
fn filter_is_case_insensitive_and_backspace_edits_it() {
    let mut ctrl = setup();
    ctrl.handle_key(key(KeyCode::Char('/')));
    for ch in ['M', 'A', 'I', 'N', 'x'] {
        ctrl.handle_key(key(KeyCode::Char(ch)));
    }
    assert_eq!(ctrl.visible_rows().len(), 0);
    ctrl.handle_key(key(KeyCode::Backspace));
    assert_eq!(ctrl.filter.as_deref(), Some("MAIN"));
    assert_eq!(ctrl.visible_rows().len(), 2);
    ctrl.handle_key(key(KeyCode::Esc));
    assert_eq!(ctrl.filter, None);
    assert_eq!(ctrl.cursor, 0);
}

#[test]
fn tab_toggles_focus_and_loading_ignores_keys() {
    let mut ctrl = setup();
    ctrl.handle_key(key(KeyCode::Tab));
    assert_eq!(ctrl.focus, Focus::Diff);
    ctrl.handle_key(key(KeyCode::Tab));
    assert_eq!(ctrl.focus, Focus::FileList);
    ctrl.loading = true;
    ctrl.handle_key(key(KeyCode::Down));
    assert_eq!(ctrl.cursor, 0);
}

#[test]
fn diff_cursor_pages_and_scrolls_into_view() {
    let mut ctrl = setup();
    ctrl.handle_key(key(KeyCode::Down));
    ctrl.handle_key(key(KeyCode::Down));
    assert_eq!(ctrl.diff_file.as_ref().unwrap().path, "main.rs");
    assert_eq!(ctrl.diff_rows.len(), 3);
    ctrl.update_viewports(10, 1, 20, 40);
    ctrl.handle_key(key(KeyCode::Tab));
    ctrl.handle_key(key(KeyCode::PageDown));
    assert_eq!(ctrl.diff_cursor, 1);
    assert_eq!(ctrl.diff_vscroll, 1);
    ctrl.handle_key(key(KeyCode::Down));
    ctrl.handle_key(key(KeyCode::Down));
    assert_eq!(ctrl.diff_cursor, 2);
    assert_eq!(ctrl.diff_vscroll, 2);
    ctrl.handle_key(key(KeyCode::Right));
    assert_eq!(ctrl.diff_hscroll, 8);
    ctrl.handle_key(key(KeyCode::Right));
    ctrl.handle_key(key(KeyCode::Right));
    assert_eq!(ctrl.diff_hscroll, 20);
    ctrl.handle_key(KeyEvent::new(KeyCode::Left, KeyModifiers::Control));
    assert_eq!(ctrl.diff_hscroll, 12);
}

#[test]
fn side_labels_follow_mode() {
    let ctrl = setup();
    assert_eq!(ctrl.side_labels(), ("HEAD".to_string(), "工作区".to_string()));
}

#[test]
fn line_count_counts_newlines_plus_one() {
    assert_eq!(line_count(b""), 1);
    assert_eq!(line_count(b"a\nb\n"), 3);
    assert_eq!(line_count(b"abc"), 1);
}

#[test]
fn unchanged_rows_are_recognised() {
    let mut ctrl = setup();
    ctrl.handle_key(key(KeyCode::Down));
    assert!(!ctrl.is_unchanged_row(0));
    assert!(!ctrl.is_unchanged_row(99));
}

#[test]
fn collapse_dir_with_left_selects_the_folded_dir() {
    let mut ctrl = setup_nested();
    ctrl.handle_key(key(KeyCode::Down));
    let rows = ctrl.visible_rows();
    let n = rows.len();
    match &rows[ctrl.cursor] {
        VisibleRow::Dir { path, .. } => assert_eq!(path, "tmp/src"),
        _ => panic!("expected the src dir"),
    }
    ctrl.handle_key(key(KeyCode::Left));
    assert!(ctrl.visible_rows().len() < n);
    ctrl.handle_key(key(KeyCode::Right));
    assert_eq!(ctrl.visible_rows().len(), n);
    assert!(ctrl.diff_file.is_none());
}

/// A runner that answers like `FakeRunner` and records every command.
struct RecordingRunner {
    seen: std::cell::RefCell<Vec<Vec<String>>>,
}

impl GitRunner for RecordingRunner {
    fn run(&self, args: &[&str]) -> anyhow::Result<String> {
        self.seen.borrow_mut().push(args.iter().map(|a| a.to_string()).collect());
        FakeRunner.run(args)
    }
}

#[test]
fn every_git_command_only_reads() {
    let runner = RecordingRunner { seen: std::cell::RefCell::new(Vec::new()) };
    let facade = GitFacade::new(&runner, &PathBuf::from("/tmp"));
    let mut ctrl = Controller::new(facade, PathBuf::from("/tmp"), true, None).unwrap();
    for code in [
        KeyCode::Down,
        KeyCode::Char('2'),
        KeyCode::Char('3'),
        KeyCode::Char('1'),
        KeyCode::Char('r'),
        KeyCode::Char('4'),
        KeyCode::Enter,
        KeyCode::Down,
    ] {
        ctrl.handle_key(key(code));
    }
    assert_eq!(ctrl.mode, ComparisonMode::CommitVsHead);
    let seen = runner.seen.borrow();
    assert!(seen.len() > 10);
    for args in seen.iter() {
        let reads = matches!(args[0].as_str(), "diff" | "ls-files" | "log" | "show")
            || args == &["symbolic-ref", "--short", "HEAD"];
        assert!(reads, "{:?} is not a reading command", args);
    }
}

#[test]
fn mode_switch_restores_the_diff_position() {
    let mut ctrl = setup();
    ctrl.handle_key(key(KeyCode::Down));
    let path = ctrl.diff_file.as_ref().unwrap().path.clone();
    assert!(ctrl.diff_rows.len() >= 2);
    ctrl.handle_key(key(KeyCode::Tab));
    ctrl.handle_key(key(KeyCode::Down));
    assert_eq!(ctrl.diff_cursor, 1);
    ctrl.handle_key(key(KeyCode::Char('2')));
    assert_eq!(ctrl.diff_cursor, 0);
    ctrl.handle_key(key(KeyCode::Char('1')));
    assert_eq!(ctrl.cursor, 1);
    assert_eq!(ctrl.diff_file.as_ref().unwrap().path, path);
    assert_eq!(ctrl.diff_cursor, 1, "mode A's diff position should come back");
}

#[test]
fn commit_picker_lists_the_log() {
    let mut ctrl = setup();
    ctrl.handle_key(key(KeyCode::Char('4')));
    match &ctrl.overlay {
        Some(Overlay::CommitPicker { commits, cursor }) => {
            assert_eq!(*cursor, 0);
            assert_eq!(commits.len(), 1);
            assert_eq!(commits[0].short_hash, "abc1234");
            assert_eq!(commits[0].author, "Alice");
        }
        _ => panic!("the commit picker should open"),
    }
}
