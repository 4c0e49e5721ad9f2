use std::path::PathBuf;

use git_diff::align::align_rows;
use git_diff::controller::{Controller, KeyCode, KeyEvent, KeyModifiers};
use git_diff::tree::VisibleRow;
use git_diff::git::{GitFacade, GitRunner};
use git_diff::model::{ChangedFile, CommitEntry, Status};
use git_diff::view::{
    commit_column_widths, commit_picker_height, commit_window_start, diff_status, digits, full_redraw_needed, nav_key, pad_left, pad_right, pane_title, push_decimal, rect_contains,
    pane_lines, short_name, skip_columns, truncate, wide_str, wrap_line, PaneLine, Rect, status_line, StatusRole, help_lines, help_panel,
    help_panel_for, HelpLine, list_row_text,
};

#[test]
fn rect_contains_bounds() {
    let r = Rect { x: 10, y: 5, width: 20, height: 10 };
    assert!(rect_contains(r, 10, 5));
    assert!(rect_contains(r, 29, 14));
    assert!(!rect_contains(r, 30, 14));
    assert!(!rect_contains(r, 10, 15));
    assert!(!rect_contains(r, 9, 5));
}

#[test]
fn digits_and_decimals() {
    assert_eq!(digits(0), 1);
    assert_eq!(digits(9), 1);
    assert_eq!(digits(10), 2);
    assert_eq!(digits(12345), 5);
    let mut s = String::from("n=");
    push_decimal(&mut s, 907);
    assert_eq!(s, "n=907");
}

#[test]
fn picker_height_is_clamped() {
    assert_eq!(commit_picker_height(3, 40), 8);
    assert_eq!(commit_picker_height(100, 40), 25);
    assert_eq!(commit_picker_height(100, 12), 8);
    assert_eq!(commit_picker_height(0, 5), 7);
}

#[test]
fn text_fits_cells() {
    assert_eq!(truncate("hello", 10), "hello");
    assert_eq!(truncate("hello world", 5), "hell…");
    assert_eq!(truncate("中文字符", 5), "中文…");
    assert_eq!(pad_right("ab", 4), "ab  ");
    assert_eq!(pad_left("ab", 4), "  ab");
    assert_eq!(pad_left("abcdef", 4), "abcdef");
    assert_eq!(pad_right("中", 3), "中 ");
    assert_eq!(skip_columns("abcdef", 2), "cdef");
    assert_eq!(skip_columns("中文", 1), "中文");
    assert_eq!(skip_columns("abc", 0), "abc");
    assert!(wide_str("a中"));
    assert!(!wide_str("ascii"));
}

#[test]
fn names_and_titles() {
    assert_eq!(short_name("src/deep/lib.rs"), "lib.rs");
    assert_eq!(short_name("top.rs"), "top.rs");
    let f = ChangedFile {
        status: Status::Renamed,
        path: "b.rs".to_string(),
        old_path: Some("a.rs".to_string()),
        added: 0,
        deleted: 0,
        is_binary: false,
    };
    assert_eq!(pane_title("HEAD", &f), "HEAD · a.rs → b.rs");
    let mut g = f.clone();
    g.status = Status::Modified;
    assert_eq!(pane_title("HEAD", &g), "HEAD · b.rs");
}

struct Runner;

impl GitRunner for Runner {
    fn run(&self, args: &[&str]) -> anyhow::Result<String> {
        match args {
            ["diff", "--numstat", "-M", "HEAD"] => Ok("1\t1\t中文.rs\n1\t1\tb.rs\n".into()),
            ["diff", "--name-status", "-M", "HEAD"] => Ok("M\t中文.rs\nM\tb.rs\n".into()),
            ["show", "HEAD:b.rs"] => Ok("x\ny\n".into()),
            _ => Ok(String::new()),
        }
    }

    fn read_worktree(&self, path: &str) -> Option<Vec<u8>> {
        if path == "b.rs" {
            Some(b"x\nz\n".to_vec())
        } else {
            None
        }
    }
}

#[test]
fn header_status_and_full_redraws() {
    let facade = GitFacade::new(&Runner, &PathBuf::from("/tmp"));
    let mut ctrl = Controller::new(facade, PathBuf::from("/tmp"), true, None).unwrap();
    assert_eq!(diff_status(&ctrl), "");
    let before = nav_key(&ctrl);
    assert!(!full_redraw_needed(&before, &ctrl));
    ctrl.handle_key(KeyEvent::new(KeyCode::Down, KeyModifiers::Plain));
    assert_eq!(ctrl.diff_file.as_ref().unwrap().path, "b.rs");
    assert_eq!(diff_status(&ctrl), "行 1/2 hunk 0/1");
    // the list holds a wide name, and the selection moved
    assert!(full_redraw_needed(&before, &ctrl));
    let before = nav_key(&ctrl);
    ctrl.handle_key(KeyEvent::new(KeyCode::Char('?'), KeyModifiers::Plain));
    assert!(full_redraw_needed(&before, &ctrl));
}

#[test]
fn wrap_line_breaks_at_width() {
    assert_eq!(wrap_line("hello world", 5), vec!["hello", " worl", "d"]);
    assert_eq!(wrap_line("界界界", 3), vec!["界", "界", "界"]);
    assert_eq!(wrap_line("a界b", 3), vec!["a界", "b"]);
    assert_eq!(wrap_line("abc", 0), vec!["abc"]);
    assert!(wrap_line("", 4).is_empty());
}

#[test]
fn wrap_line_keeps_a_glyph_wider_than_the_width() {
    assert_eq!(wrap_line("界a", 1), vec!["界", "a"]);
    let joined: String = wrap_line("差异对比工具 diff", 4).concat();
    assert_eq!(joined, "差异对比工具 diff");
}

#[test]
fn commit_window_keeps_the_cursor_shown() {
    assert_eq!(commit_window_start(0, 5, 10), 0);
    assert_eq!(commit_window_start(7, 5, 10), 3);
    assert_eq!(commit_window_start(9, 5, 10), 5);
    assert_eq!(commit_window_start(6, 5, 7), 2);
    assert_eq!(commit_window_start(3, 0, 10), 3);
    for cursor in 0..12usize {
        let start = commit_window_start(cursor, 5, 12);
        assert!(start <= cursor && cursor < start + 5);
    }
}

#[test]
fn commit_columns_measure_titles_and_cap_authors() {
    let commit = |title: &str, author: &str| CommitEntry {
        short_hash: "abc1234".to_string(),
        title: title.to_string(),
        date: "2024-01-01".to_string(),
        author: author.to_string(),
    };
    let commits = vec![commit("fix", "alice"), commit("添加对比", "a very long author name, really")];
    assert_eq!(commit_column_widths(&commits, 24), (8, 24));
    assert_eq!(commit_column_widths(&commits[..1], 24), (3, 5));
    assert_eq!(commit_column_widths(&[], 24), (0, 0));
}

#[test]
fn pane_folds_a_long_unchanged_run_and_fits_its_height() {
    let mut old = String::new();
    for i in 0..15 {
        old.push_str(&format!("same {}\n", i));
    }
    let mut new = old.clone();
    old.push_str("left\n");
    new.push_str("right\n");
    let rows = align_rows(Some(old.as_bytes()), Some(new.as_bytes()), false);
    assert_eq!(rows.len(), 16);
    assert_eq!(
        pane_lines(&rows, 0, 15, true, 10),
        vec![PaneLine::Row(0), PaneLine::Folded(13), PaneLine::Row(14), PaneLine::Row(15)]
    );
    assert_eq!(pane_lines(&rows, 0, 15, false, 3), vec![PaneLine::Row(0), PaneLine::Row(1), PaneLine::Row(2)]);
    assert_eq!(pane_lines(&rows, 0, 3, true, 40).len(), 16);
    assert_eq!(pane_lines(&rows, 0, 15, true, 2), vec![PaneLine::Row(0), PaneLine::Folded(13)]);
    assert!(pane_lines(&rows, 16, 0, true, 5).is_empty());
}

fn texts(ps: &[(String, StatusRole)]) -> Vec<String> {
    ps.iter().map(|(t, _)| t.clone()).collect()
}

#[test]
fn status_line_shows_mode_file_and_hints() {
    let facade = GitFacade::new(&Runner, &PathBuf::from("/tmp"));
    let mut ctrl = Controller::new(facade, PathBuf::from("/tmp"), true, None).unwrap();
    ctrl.handle_key(KeyEvent::new(KeyCode::Down, KeyModifiers::Plain));
    let line = status_line(&ctrl, 200);
    assert_eq!(texts(&line.left), vec!["[模式A]", " ", "b.rs  ", "+1 -1"]);
    assert_eq!(line.left[0].1, StatusRole::Mode);
    assert_eq!(line.left[2].1, StatusRole::FilePath);
    assert_eq!(line.right.len(), 18);
    assert_eq!(line.right[0], ("[Tab]".to_string(), StatusRole::Key));
    assert_eq!(line.right[17], ("退出".to_string(), StatusRole::Dim));
    let hints: usize = line.right.iter().map(|(t, _)| unicode_width::UnicodeWidthStr::width(t.as_str())).sum();
    let left: usize = line.left.iter().map(|(t, _)| unicode_width::UnicodeWidthStr::width(t.as_str())).sum();
    // the hints end one column before the edge, with one free column before them
    assert_eq!(left + line.pad + hints, 200 - 1 - 1);
    // 's' sorts by status and says so in the status message
    ctrl.handle_key(KeyEvent::new(KeyCode::Char('s'), KeyModifiers::Plain));
    let line = status_line(&ctrl, 200);
    assert_eq!(line.left.last().unwrap(), &("排序: 状态".to_string(), StatusRole::Message));
}

#[test]
fn status_line_cuts_the_left_part_and_shows_the_filter() {
    let facade = GitFacade::new(&Runner, &PathBuf::from("/tmp"));
    let mut ctrl = Controller::new(facade, PathBuf::from("/tmp"), true, None).unwrap();
    ctrl.handle_key(KeyEvent::new(KeyCode::Char('/'), KeyModifiers::Plain));
    ctrl.handle_key(KeyEvent::new(KeyCode::Char('b'), KeyModifiers::Plain));
    let line = status_line(&ctrl, 200);
    assert_eq!(texts(&line.right), vec!["│ [Esc]", "取消"]);
    assert_eq!(texts(&line.left).last().unwrap(), "/ b");
    assert_eq!(line.left.last().unwrap().1, StatusRole::Filter);
    // a narrow line: 7 + 4 columns of hints leave 20 - 11 - 2 = 7 for the left part
    let line = status_line(&ctrl, 20);
    assert_eq!(texts(&line.left), vec!["[模式A]"]);
    assert_eq!(line.pad, 0);
    let line = status_line(&ctrl, 18);
    assert_eq!(texts(&line.left), vec!["[模…"]);
    let line = status_line(&ctrl, 5);
    assert!(line.left.is_empty());
}

#[test]
fn help_panel_fits_its_lines() {
    let lines = help_lines();
    assert_eq!(lines.len(), 23);
    assert!(matches!(&lines[0], HelpLine::Title(t) if t == "通用"));
    assert!(matches!(&lines[7], HelpLine::Blank));
    let p = help_panel(200, 60);
    assert_eq!(p.height, 27);
    assert_eq!(p.row_width + 8, p.width as usize);
    assert!(p.row_width <= p.width as usize - 4);
    // a small area caps the panel, which stays at least 34 wide
    let p = help_panel(30, 10);
    assert_eq!((p.width, p.height), (34, 8));
}

#[test]
fn help_rows_fit_within_panel() {
    let groups: [&[(&str, &str)]; 3] = [
        &[
            ("Tab", "切换焦点（文件列表 / 对比区）"),
            ("鼠标", "点击面板直接获得焦点"),
            ("4", "进入模式D（上次 commit 对比 / 选择 commit）"),
            ("1 / 2 / 3 / 4", "切换比较模式 A/B/C/D"),
            ("r", "刷新"),
            ("?", "本帮助"),
            ("q / Ctrl+C", "退出"),
        ],
        &[
            ("↑↓", "移动光标"),
            ("→ / ←", "展开 / 折叠目录"),
            ("PgUp/PgDn", "列表翻页"),
            ("[ / ]", "折叠 / 展开全部目录"),
            ("s", "切换排序（路径 / 状态 / 增行数）"),
            ("/", "过滤（! 前缀反向匹配）"),
        ],
        &[
            ("↑↓", "逐行滚动"),
            ("PgUp/PgDn", "按页滚动"),
            ("→ / ←", "水平滚动"),
            ("n / m", "跳转下一个/上一个 hunk"),
            ("g", "输入行号跳转"),
            ("f", "在 diff 内搜索文本"),
            ("w", "忽略 / 恢复空白变化"),
        ],
    ];
    let mut lines = Vec::new();
    for (gi, rows) in groups.iter().enumerate() {
        lines.push(HelpLine::Title(format!("{}", gi)));
        for (k, d) in rows.iter() {
            lines.push(HelpLine::Key(k.to_string(), d.to_string()));
        }
        if gi + 1 < groups.len() {
            lines.push(HelpLine::Blank);
        }
    }
    let p = help_panel_for(&lines, u16::MAX, u16::MAX);
    let (row_w, inner_avail) = (p.row_width, p.width as usize - 4);
    assert!(row_w <= inner_avail, "rows {} exceed inner {} ", row_w, inner_avail);
}

#[test]
fn list_rows_show_marker_name_counts_and_status() {
    let dir = VisibleRow::Dir { path: "src".to_string(), depth: 0, collapsed: false, added: 3, deleted: 12, guide: String::new() };
    let t = list_row_text(&dir, true, 10);
    assert_eq!(t.marker, "▌ ");
    assert_eq!(t.guide, "");
    assert_eq!(t.name, "📁 src    ");
    assert_eq!(t.added, "  +3");
    assert_eq!(t.deleted, " -12");
    assert_eq!(t.status, "      ");
    let sub = VisibleRow::Dir { path: "src/ui".to_string(), depth: 1, collapsed: true, added: 0, deleted: 0, guide: "├─".to_string() };
    assert_eq!(list_row_text(&sub, false, 8).name, "▸ ui  ");
    let file = VisibleRow::File {
        file: ChangedFile { status: Status::Modified, path: "src/main_window.rs".to_string(), old_path: None, added: 12345, deleted: 0, is_binary: false },
        depth: 1,
        guide: "└─".to_string(),
    };
    let t = list_row_text(&file, false, 8);
    assert_eq!(t.marker, "  ");
    assert_eq!(t.guide, "└─");
    assert_eq!(t.name, "main_…");
    assert_eq!(t.added, "+12345");
    assert_eq!(t.deleted, "  -0");
    assert_eq!(t.status, "     M");
}

#[test]
fn equal_rows_show_the_same_line() {
    let rows = align_rows(Some(b"a\nb\nc\n"), Some(b"a\nx\nc\n"), false);
    assert_eq!(rows.len(), 3);
    for r in rows.iter() {
        if let (Some(o), Some(c)) = (&r.original, &r.changed) {
            if o.kind == git_diff::align::LineKind::Equal {
                assert_eq!(c.kind, git_diff::align::LineKind::Equal);
                assert_eq!(o.text, c.text);
            }
        }
    }
    assert_eq!(rows[0].original.as_ref().unwrap().text, "a");
    assert_eq!(rows[2].changed.as_ref().unwrap().text, "c");
}
