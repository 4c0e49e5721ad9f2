use git_diff::align::{align_rows, expand_tabs, fold_runs, hunk_index, hunk_starts, plain_rows, to_lines, trim_end_all, FoldRun, LineKind};

#[test]
fn expand_tabs_pads_to_tab_stop() {
    assert_eq!(expand_tabs("\tfoo"), "        foo");
    assert_eq!(expand_tabs("\t\tfoo"), "                foo");
    assert_eq!(expand_tabs("a\tb"), "a       b");
    assert_eq!(expand_tabs("no tabs"), "no tabs");
    assert_eq!(expand_tabs(""), "");
}

#[test]
fn expand_tabs_keeps_line_count() {
    let lines = to_lines(Some(b"\tfoo\n\t\tbar\n"));
    assert_eq!(lines.len(), 2);
    assert!(lines.iter().all(|l| !l.contains('\t')));
}

#[test]
fn equal_lines_align_both_sides() {
    let rows = align_rows(Some(b"a\nb\n"), Some(b"a\nb\n"), false);
    assert_eq!(rows.len(), 2);
    assert!(rows.iter().all(|r| r.original.is_some() && r.changed.is_some()));
    assert_eq!(rows[0].original.as_ref().unwrap().num, 1);
    assert_eq!(rows[0].changed.as_ref().unwrap().num, 1);
    assert_eq!(rows[1].original.as_ref().unwrap().num, 2);
}

#[test]
fn insert_lines_have_no_original() {
    let rows = align_rows(Some(b"a\n"), Some(b"a\nb\n"), false);
    assert_eq!(rows.len(), 2);
    assert_eq!(rows[1].original, None);
    assert_eq!(rows[1].changed.as_ref().unwrap().text, "b");
    assert_eq!(rows[1].changed.as_ref().unwrap().kind, LineKind::Insert);
}

#[test]
fn delete_lines_have_no_changed() {
    let rows = align_rows(Some(b"a\nb\n"), Some(b"a\n"), false);
    assert_eq!(rows.len(), 2);
    assert_eq!(rows[1].changed, None);
    assert_eq!(rows[1].original.as_ref().unwrap().text, "b");
    assert_eq!(rows[1].original.as_ref().unwrap().kind, LineKind::Delete);
}

#[test]
fn modified_line_aligns_both_sides() {
    let rows = align_rows(Some(b"foo()\n"), Some(b"bar()\n"), false);
    assert_eq!(rows.len(), 1);
    assert_eq!(rows[0].original.as_ref().unwrap().text, "foo()");
    assert_eq!(rows[0].original.as_ref().unwrap().kind, LineKind::Delete);
    assert_eq!(rows[0].changed.as_ref().unwrap().text, "bar()");
    assert_eq!(rows[0].changed.as_ref().unwrap().kind, LineKind::Insert);
    assert_eq!(rows[0].original.as_ref().unwrap().num, 1);
    assert_eq!(rows[0].changed.as_ref().unwrap().num, 1);
}

#[test]
fn replaced_block_pairs_then_spills() {
    let rows = align_rows(Some(b"x\ny\nz\n"), Some(b"a\nb\nc\nd\n"), false);
    let origs: Vec<(u64, &str, LineKind)> = rows
        .iter()
        .filter_map(|r| r.original.as_ref().map(|c| (c.num, c.text.as_str(), c.kind)))
        .collect();
    let news: Vec<(u64, &str, LineKind)> = rows
        .iter()
        .filter_map(|r| r.changed.as_ref().map(|c| (c.num, c.text.as_str(), c.kind)))
        .collect();
    assert_eq!(origs.len(), 3);
    assert_eq!(origs[0], (1, "x", LineKind::Delete));
    assert_eq!(origs[1], (2, "y", LineKind::Delete));
    assert_eq!(origs[2], (3, "z", LineKind::Delete));
    assert_eq!(news.len(), 4);
    assert_eq!(news[0], (1, "a", LineKind::Insert));
    assert_eq!(news[1], (2, "b", LineKind::Insert));
    assert_eq!(news[2], (3, "c", LineKind::Insert));
    assert_eq!(news[3], (4, "d", LineKind::Insert));
    assert!(rows[0].original.is_some() && rows[0].changed.is_some());
    assert!(rows[1].original.is_some() && rows[1].changed.is_some());
}

#[test]
fn empty_sides_produce_no_rows() {
    assert!(!align_rows(None, Some(b"a\n"), false).is_empty());
    assert!(!align_rows(Some(b"a\n"), None, false).is_empty());
    assert!(align_rows(None, None, false).is_empty());
}

#[test]
fn hunk_starts_finds_change_groups() {
    let rows = align_rows(Some(b"a\nb\nfoo()\nc\n"), Some(b"a\nb\nbar()\nc\n"), false);
    let starts = hunk_starts(&rows);
    assert_eq!(starts.len(), 1);
    assert_eq!(rows[starts[0]].original.as_ref().unwrap().text, "foo()");
}

#[test]
fn line_numbers_increment_through_changes() {
    let rows = align_rows(Some(b"a\nb\nc\n"), Some(b"a\nx\nc\n"), false);
    let originals: Vec<u64> = rows.iter().filter_map(|r| r.original.as_ref().map(|c| c.num)).collect();
    let changed: Vec<u64> = rows.iter().filter_map(|r| r.changed.as_ref().map(|c| c.num)).collect();
    assert_eq!(originals, vec![1, 2, 3]);
    assert_eq!(changed, vec![1, 2, 3]);
}

#[test]
fn multi_hunk_offsets_are_correct() {
    let rows = align_rows(Some(b"a\nb\nc\nd\ne\nf\n"), Some(b"a\nB\nc\nd\nE\nf\n"), false);
    let starts = hunk_starts(&rows);
    assert_eq!(starts.len(), 2);
}

#[test]
fn hunk_index_picks_last_containing_hunk() {
    let starts = vec![5, 40];
    assert_eq!(hunk_index(&starts, 0), 0);
    assert_eq!(hunk_index(&starts, 5), 1);
    assert_eq!(hunk_index(&starts, 39), 1);
    assert_eq!(hunk_index(&starts, 40), 2);
    assert_eq!(hunk_index(&starts, 59), 2);
    assert_eq!(hunk_index(&[], 10), 0);
}

#[test]
fn fold_runs_find_unchanged_spans() {
    let rows = align_rows(Some(b"a\nb\nc\nd\ne\nf\n"), Some(b"a\nB\nc\nd\nE\nf\n"), false);
    let runs = fold_runs(&rows);
    assert_eq!(
        runs,
        vec![FoldRun { start: 0, end: 1 }, FoldRun { start: 2, end: 4 }, FoldRun { start: 5, end: 6 },]
    );
}

#[test]
fn fold_runs_empty_for_all_changed() {
    let rows = align_rows(Some(b"a\nb\n"), Some(b"c\nd\n"), false);
    assert!(fold_runs(&rows).is_empty());
}

#[test]
fn inline_fragments_mark_changed_words() {
    let rows = align_rows(Some(b"let x = foo(a, b);\n"), Some(b"let x = foo(c, b);\n"), false);
    assert_eq!(rows.len(), 1);
    let orig = rows[0].original.as_ref().unwrap();
    let changed = rows[0].changed.as_ref().unwrap();
    let inline_old = orig.inline.as_ref().expect("old inline");
    let inline_new = changed.inline.as_ref().expect("new inline");
    let old_emphasized: String = inline_old.iter().filter(|(e, _)| *e).map(|(_, t)| t.as_str()).collect();
    let new_emphasized: String = inline_new.iter().filter(|(e, _)| *e).map(|(_, t)| t.as_str()).collect();
    assert_eq!(old_emphasized, "foo(a,");
    assert_eq!(new_emphasized, "foo(c,");
    let old_all: String = inline_old.iter().map(|(_, t)| t.as_str()).collect();
    let new_all: String = inline_new.iter().map(|(_, t)| t.as_str()).collect();
    assert_eq!(old_all, "let x = foo(a, b);");
    assert_eq!(new_all, "let x = foo(c, b);");
}

#[test]
fn pure_delete_lines_have_no_inline() {
    let rows = align_rows(Some(b"a\nb\n"), Some(b"a\n"), false);
    assert_eq!(rows[1].original.as_ref().unwrap().inline, None);
}

#[test]
fn equal_lines_have_no_inline() {
    let rows = align_rows(Some(b"a\n"), Some(b"a\n"), false);
    assert_eq!(rows[0].original.as_ref().unwrap().inline, None);
    assert_eq!(rows[0].changed.as_ref().unwrap().inline, None);
}

#[test]
fn ignore_whitespace_treats_trailing_space_changes_as_equal() {
    let normal = align_rows(Some(b"a \n"), Some(b"a\n"), false);
    assert_eq!(normal.len(), 1);
    assert_eq!(normal[0].original.as_ref().unwrap().kind, LineKind::Delete);
    assert_eq!(normal[0].changed.as_ref().unwrap().kind, LineKind::Insert);

    let ws = align_rows(Some(b"a \n"), Some(b"a\n"), true);
    assert_eq!(ws.len(), 1);
    assert_eq!(ws[0].original.as_ref().unwrap().kind, LineKind::Equal);
    assert_eq!(ws[0].changed.as_ref().unwrap().kind, LineKind::Equal);
    assert_eq!(ws[0].original.as_ref().unwrap().inline, None);
    assert_eq!(ws[0].original.as_ref().unwrap().text, "a ");
    assert_eq!(ws[0].changed.as_ref().unwrap().text, "a");
}

#[test]
fn ignore_whitespace_still_diffs_real_changes() {
    let ws = align_rows(Some(b"foo \n"), Some(b"bar\n"), true);
    assert!(ws.iter().any(|r| r.original.as_ref().is_some_and(|c| c.kind == LineKind::Delete)));
    assert!(ws.iter().any(|r| r.changed.as_ref().is_some_and(|c| c.kind == LineKind::Insert)));
}

#[test]
fn plain_rows_number_every_line_unaligned() {
    let rows = plain_rows(Some(b"a\nb\n"), Some(b"c\n"));
    assert_eq!(rows.len(), 3);
    assert_eq!(rows[0].original.as_ref().unwrap().num, 1);
    assert_eq!(rows[1].original.as_ref().unwrap().text, "b");
    assert!(rows[1].changed.is_none());
    assert!(rows[2].original.is_none());
    assert_eq!(rows[2].changed.as_ref().unwrap().num, 1);
    assert_eq!(rows[2].changed.as_ref().unwrap().kind, LineKind::Equal);
}

#[test]
fn aligned_columns_keep_every_line_in_order() {
    let rows = align_rows(Some(b"a\nb\nc\nd\n"), Some(b"a\nx\nc\ny\nz\n"), false);
    let left: Vec<(u64, String)> = rows.iter().filter_map(|r| r.original.as_ref().map(|c| (c.num, c.text.clone()))).collect();
    let right: Vec<(u64, String)> = rows.iter().filter_map(|r| r.changed.as_ref().map(|c| (c.num, c.text.clone()))).collect();
    assert_eq!(left, vec![(1, "a".to_string()), (2, "b".to_string()), (3, "c".to_string()), (4, "d".to_string())]);
    assert_eq!(
        right,
        vec![(1, "a".to_string()), (2, "x".to_string()), (3, "c".to_string()), (4, "y".to_string()), (5, "z".to_string())]
    );
}

#[test]
fn crlf_lines_lose_the_carriage_return() {
    let lines = to_lines(Some(b"a\r\nb\r\n"));
    assert_eq!(lines, vec!["a".to_string(), "b".to_string()]);
}

#[test]
fn invalid_utf8_is_replaced() {
    let lines = to_lines(Some(b"ok\n\xff\xfe\n"));
    assert_eq!(lines, vec!["ok".to_string(), "\u{FFFD}\u{FFFD}".to_string()]);
}

#[test]
fn tabs_expand_by_display_width() {
    assert_eq!(expand_tabs("中\tx"), "中      x");
}

#[test]
fn lone_carriage_return_stays_in_its_line_and_rows_fall_back_to_plain() {
    let lines = to_lines(Some(b"a\rb\n"));
    assert_eq!(lines, vec!["a\rb"]);
    let rows = align_rows(Some(b"a\rb\n"), Some(b"a\rc\n"), false);
    assert_eq!(rows.len(), 2);
    assert_eq!(rows[0].original.as_ref().unwrap().text, "a\rb");
    assert!(rows[0].changed.is_none());
    assert_eq!(rows[1].changed.as_ref().unwrap().text, "a\rc");
    assert!(rows[1].original.is_none());
}

#[test]
fn trimming_keeps_a_trailing_empty_line() {
    assert_eq!(trim_end_all("a  \n\n"), "a\n\n");
    assert_eq!(trim_end_all("x\t\ny"), "x\ny\n");
    assert_eq!(trim_end_all("a\rb").lines().count(), 1);
    let rows = align_rows(Some(b"a\n\n"), Some(b"a \n\n"), true);
    assert_eq!(rows.len(), 2);
    assert!(rows.iter().all(|r| r.original.as_ref().unwrap().kind == LineKind::Equal));
}

#[test]
fn inline_fragments_read_as_each_side_line() {
    let rows = align_rows(Some(b"let x = foo(a, b);\n"), Some(b"let x = foo(c, b);\n"), false);
    assert_eq!(rows.len(), 1);
    let o = rows[0].original.as_ref().unwrap().inline.as_ref().unwrap();
    let n = rows[0].changed.as_ref().unwrap().inline.as_ref().unwrap();
    let join = |f: &Vec<(bool, String)>| f.iter().map(|(_, t)| t.as_str()).collect::<String>();
    assert_eq!(join(o), "let x = foo(a, b);");
    assert_eq!(join(n), "let x = foo(c, b);");
}
