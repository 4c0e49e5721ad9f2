use git_diff::model::{ChangedFile, Status};
use git_diff::tree::{all_dir_paths, build_tree, files_in_order, filtered_rows, visible_rows, wrap_root, SortMode, TreeNode, VisibleRow};

fn f(status: Status, path: &str) -> ChangedFile {
    ChangedFile { status, path: path.to_string(), old_path: None, added: 1, deleted: 0, is_binary: false }
}

fn file_path_at_row(row: &VisibleRow) -> Option<&str> {
    match row {
        VisibleRow::File { file, .. } => Some(file.path.as_str()),
        VisibleRow::Dir { .. } => None,
    }
}

fn is_dir_row(row: &VisibleRow) -> bool {
    matches!(row, VisibleRow::Dir { .. })
}

fn count_changed(nodes: &[TreeNode]) -> usize {
    files_in_order(nodes).len()
}

#[test]
fn builds_nested_tree_with_dirs_first() {
    let files = vec![f(Status::Modified, "src/main.rs"), f(Status::Added, "notes.md"), f(Status::Deleted, "src/deep/lib.rs")];
    let tree = build_tree(&files, SortMode::Path);
    assert_eq!(tree.len(), 2);
    match &tree[0] {
        TreeNode::Dir { name, .. } => assert_eq!(name, "src"),
        _ => panic!("expected dir first"),
    }
    assert_eq!(tree[1], TreeNode::File(f(Status::Added, "notes.md")));
}

#[test]
fn visible_rows_respect_collapse() {
    let files = vec![f(Status::Modified, "src/a.rs"), f(Status::Modified, "src/b.rs")];
    let tree = build_tree(&files, SortMode::Path);
    let mut collapsed: Vec<String> = Vec::new();
    let rows = visible_rows(&tree, &collapsed);
    assert_eq!(rows.len(), 3);
    assert!(is_dir_row(&rows[0]));
    assert!(file_path_at_row(&rows[1]).is_some());
    collapsed.push("src".to_string());
    let rows = visible_rows(&tree, &collapsed);
    assert_eq!(rows.len(), 1);
}

#[test]
fn counts_all_files() {
    let files = vec![f(Status::Modified, "src/a.rs"), f(Status::Modified, "src/b.rs"), f(Status::Added, "c.rs")];
    let tree = build_tree(&files, SortMode::Path);
    assert_eq!(count_changed(&tree), 3);
}

#[test]
fn aggregates_dir_added_deleted() {
    let files = vec![f(Status::Modified, "src/main.rs"), f(Status::Added, "src/notes.md")];
    let tree = build_tree(&files, SortMode::Path);
    match &tree[0] {
        TreeNode::Dir { name, added, deleted, .. } => {
            assert_eq!(name, "src");
            assert_eq!(*added, 2);
            assert_eq!(*deleted, 0);
        }
        _ => panic!("expected dir"),
    }
}

#[test]
fn sort_by_added_desc() {
    let mut m = f(Status::Modified, "z.rs");
    m.added = 5;
    let mut n = f(Status::Modified, "a.rs");
    n.added = 50;
    let files = vec![m, n];
    let tree = build_tree(&files, SortMode::Added);
    match &tree[0] {
        TreeNode::File(f0) => assert_eq!(f0.path, "a.rs"),
        _ => panic!("expected file"),
    }
}

#[test]
fn sort_by_status_then_path() {
    let files = vec![f(Status::Deleted, "a.rs"), f(Status::Modified, "c.rs"), f(Status::Added, "z.rs"), f(Status::Modified, "b.rs")];
    let tree = build_tree(&files, SortMode::Status);
    let paths: Vec<String> = files_in_order(&tree).into_iter().map(|f| f.path).collect();
    assert_eq!(paths, vec!["z.rs", "a.rs", "b.rs", "c.rs"]);
}

#[test]
fn filtered_rows_hide_empty_dirs_and_keep_guides() {
    let files = vec![f(Status::Modified, "src/keep.rs"), f(Status::Modified, "src/drop.rs"), f(Status::Added, "top.rs")];
    let tree = build_tree(&files, SortMode::Path);
    let pred = |f: &ChangedFile| f.path.contains("keep");
    let rows = filtered_rows(&tree, &pred);
    let paths: Vec<&str> = rows
        .iter()
        .map(|r| match r {
            VisibleRow::File { file, .. } => file.path.as_str(),
            VisibleRow::Dir { path, .. } => path.as_str(),
        })
        .collect();
    assert_eq!(paths, vec!["src", "src/keep.rs"]);
}

#[test]
fn all_dir_paths_lists_every_dir() {
    let files = vec![f(Status::Modified, "src/a.rs"), f(Status::Modified, "src/deep/b.rs")];
    let tree = build_tree(&files, SortMode::Path);
    assert_eq!(all_dir_paths(&tree), vec!["src", "src/deep"]);
}

#[test]
fn wrapped_root_carries_totals_and_guides() {
    let mut a = f(Status::Modified, "src/a.rs");
    a.added = 3;
    a.deleted = 2;
    let b = f(Status::Added, "b.rs");
    let files = vec![a, b];
    let root = wrap_root(build_tree(&files, SortMode::Path), "repo".to_string());
    match &root {
        TreeNode::Dir { name, added, deleted, .. } => {
            assert_eq!(name, "repo");
            assert_eq!(*added, 4);
            assert_eq!(*deleted, 2);
        }
        _ => panic!("expected the root dir"),
    }
    let rows = visible_rows(&[root], &Vec::new());
    let shown: Vec<(String, String)> = rows
        .iter()
        .map(|r| match r {
            VisibleRow::File { file, guide, .. } => (guide.clone(), file.path.clone()),
            VisibleRow::Dir { path, guide, .. } => (guide.clone(), path.clone()),
        })
        .collect();
    assert_eq!(
        shown,
        vec![
            (String::new(), "repo".to_string()),
            ("  ├─".to_string(), "repo/src".to_string()),
            ("  │ └─".to_string(), "src/a.rs".to_string()),
            ("  └─".to_string(), "b.rs".to_string()),
        ]
    );
}

#[test]
fn filter_keeping_everything_is_the_full_walk() {
    let files = vec![f(Status::Modified, "src/a.rs"), f(Status::Added, "src/deep/b.rs"), f(Status::Deleted, "top.rs")];
    let tree = build_tree(&files, SortMode::Path);
    let all = filtered_rows(&tree, &|_: &ChangedFile| true);
    let walk = visible_rows(&tree, &Vec::new());
    assert_eq!(all.len(), walk.len());
    for (x, y) in all.iter().zip(walk.iter()) {
        match (x, y) {
            (VisibleRow::Dir { path: p, guide: g, .. }, VisibleRow::Dir { path: q, guide: h, .. }) => {
                assert_eq!(p, q);
                assert_eq!(g, h);
            }
            (VisibleRow::File { file: a, guide: g, .. }, VisibleRow::File { file: b, guide: h, .. }) => {
                assert_eq!(a.path, b.path);
                assert_eq!(g, h);
            }
            _ => panic!("row kinds differ"),
        }
    }
}

#[test]
fn full_walk_has_a_row_for_every_directory_and_file() {
    let files = vec![f(Status::Modified, "src/a.rs"), f(Status::Added, "src/deep/b.rs"), f(Status::Deleted, "top.rs")];
    let tree = build_tree(&files, SortMode::Path);
    let rows = visible_rows(&tree, &Vec::new());
    let dirs: Vec<String> = rows
        .iter()
        .filter_map(|r| match r {
            VisibleRow::Dir { path, .. } => Some(path.clone()),
            _ => None,
        })
        .collect();
    assert_eq!(dirs, all_dir_paths(&tree));
    let shown: Vec<String> = rows
        .iter()
        .filter_map(|r| match r {
            VisibleRow::File { file, .. } => Some(file.path.clone()),
            _ => None,
        })
        .collect();
    let walk: Vec<String> = files_in_order(&tree).into_iter().map(|x| x.path).collect();
    assert_eq!(shown, walk);
}

#[test]
fn folding_every_directory_leaves_the_top_level() {
    let files = vec![f(Status::Modified, "src/a.rs"), f(Status::Added, "src/ui/b.rs"), f(Status::Modified, "README.md")];
    let tree = build_tree(&files, SortMode::Path);
    let all = all_dir_paths(&tree);
    let rows = visible_rows(&tree, &all);
    assert_eq!(rows.len(), 2);
    match &rows[0] {
        VisibleRow::Dir { path, depth, collapsed, guide, .. } => {
            assert_eq!(path, "src");
            assert_eq!(*depth, 0);
            assert!(*collapsed);
            assert_eq!(guide, "");
        }
        _ => panic!("a directory comes first"),
    }
    assert_eq!(file_path_at_row(&rows[1]), Some("README.md"));
}

#[test]
fn built_tree_sorts_holds_and_places_every_file() {
    let files = vec![
        f(Status::Untracked, "b/z.rs"),
        f(Status::Added, "b/y.rs"),
        f(Status::Modified, "a.rs"),
        f(Status::Deleted, "b/c/x.rs"),
        f(Status::Modified, "b/a.rs"),
    ];
    let tree = build_tree(&files, SortMode::Status);
    let rows = visible_rows(&tree, &Vec::new());
    let listed: Vec<String> = files_in_order(&tree).iter().map(|f| f.path.clone()).collect();
    // directories first, then files by status letter and path; every file once, under its directories
    assert_eq!(listed, vec!["b/c/x.rs", "b/y.rs", "b/a.rs", "b/z.rs", "a.rs"]);
    let mut given: Vec<String> = files.iter().map(|f| f.path.clone()).collect();
    let mut got = listed.clone();
    given.sort();
    got.sort();
    assert_eq!(given, got);
    // guides: none at the top, two columns per level and a connector below
    for r in rows.iter() {
        let (depth, guide) = match r {
            VisibleRow::Dir { depth, guide, .. } => (*depth, guide.clone()),
            VisibleRow::File { depth, guide, .. } => (*depth, guide.clone()),
        };
        if depth == 0 {
            assert_eq!(guide, "");
        } else {
            assert_eq!(guide.chars().count(), 2 * depth + 2);
            assert!(guide.ends_with("├─") || guide.ends_with("└─"));
        }
    }
}
