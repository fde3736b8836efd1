use std::collections::HashSet;
use traverse::traverser::{PathEntry, Step, Traverser};

/// An in-memory directory tree: each entry is a directory path with its
/// immediate child directories and child files, given as (path, name).
type Tree<'a> = &'a [(&'a str, &'a [(&'a str, &'a str)], &'a [(&'a str, &'a str)])];

fn entry(path: &str, name: &str) -> PathEntry {
    PathEntry { path: path.to_string(), name: name.to_string() }
}

fn listing_of(tree: Tree, path: &str) -> (Vec<PathEntry>, Vec<PathEntry>) {
    for (dir, child_dirs, child_files) in tree {
        if *dir == path {
            let dirs = child_dirs.iter().map(|(p, n)| entry(p, n)).collect();
            let files = child_files.iter().map(|(p, n)| entry(p, n)).collect();
            return (dirs, files);
        }
    }
    (Vec::new(), Vec::new())
}

/// Drive the cursor over the in-memory tree until it is exhausted and
/// collect the yielded paths in order. Panics on a pattern error.
fn run_traversal(t: &mut Traverser, tree: Tree) -> Vec<String> {
    let mut produced = Vec::new();
    loop {
        match t.advance() {
            Step::Yielded(e) => produced.push(e.path),
            Step::Descend(d) => {
                let (dirs, files) = listing_of(tree, &d.path);
                t.provide_listing(dirs, files);
            }
            Step::InvalidPattern => panic!("invalid glob pattern"),
            Step::Done => return produced,
        }
    }
}

/// The fixture tree: R/dir1 with visible and hidden files, R/dir2/dir2_1
/// with one file, and a hidden directory R/.dir4 with a hidden file.
fn fixture() -> Tree<'static> {
    &[
        (
            "R",
            &[("R/dir1", "dir1"), ("R/dir2", "dir2"), ("R/.dir4", ".dir4")],
            &[],
        ),
        (
            "R/dir1",
            &[],
            &[
                ("R/dir1/file1_1", "file1_1"),
                ("R/dir1/file1_2", "file1_2"),
                ("R/dir1/file_1_3", "file_1_3"),
                ("R/dir1/.file1_4", ".file1_4"),
                ("R/dir1/.file1_5", ".file1_5"),
            ],
        ),
        ("R/dir2", &[("R/dir2/dir2_1", "dir2_1")], &[]),
        ("R/dir2/dir2_1", &[], &[("R/dir2/dir2_1/file2_1", "file2_1")]),
        ("R/.dir4", &[], &[("R/.dir4/.file4_1", ".file4_1")]),
    ]
}

fn set_of(paths: &[String]) -> HashSet<String> {
    paths.iter().cloned().collect()
}

#[test]
fn test_traverse_only_dirs() {
    let mut t = Traverser::new(entry("R", "R"));
    t.set_file_iterator(false);
    let produced = run_traversal(&mut t, fixture());

    let expected: HashSet<String> =
        ["R", "R/dir1", "R/dir2", "R/dir2/dir2_1"].iter().map(|s| s.to_string()).collect();
    assert_eq!(expected, set_of(&produced));
    assert_eq!(produced.len(), 4, "each directory exactly once");
}

#[test]
fn completeness_all_visible_dirs() {
    let tree: Tree = &[
        ("R", &[("R/a", "a"), ("R/b", "b")], &[]),
        ("R/a", &[("R/a/c", "c")], &[]),
        ("R/b", &[], &[]),
        ("R/a/c", &[], &[]),
    ];
    let mut t = Traverser::new(entry("R", "R"));
    t.set_file_iterator(false);
    let produced = run_traversal(&mut t, tree);
    let expected: HashSet<String> =
        ["R", "R/a", "R/b", "R/a/c"].iter().map(|s| s.to_string()).collect();
    assert_eq!(expected, set_of(&produced));
    assert_eq!(produced.len(), 4, "each directory exactly once");
}

#[test]
fn pruning_hidden_subtree() {
    // A visible directory below a hidden one never appears: the hidden
    // directory is pruned, not merely suppressed from output.
    let tree: Tree = &[
        ("R", &[("R/.h", ".h"), ("R/ok", "ok")], &[]),
        ("R/.h", &[("R/.h/inner", "inner")], &[]),
        ("R/.h/inner", &[], &[]),
        ("R/ok", &[], &[]),
    ];
    let mut t = Traverser::new(entry("R", "R"));
    t.set_file_iterator(false);
    let produced = run_traversal(&mut t, tree);
    let expected: HashSet<String> = ["R", "R/ok"].iter().map(|s| s.to_string()).collect();
    assert_eq!(expected, set_of(&produced));
}

#[test]
fn ignore_list_beats_hidden_setting() {
    // With ignore_hidden off, dot entries come back -- but `.DS_Store`
    // and `.Trash` stay excluded, and `.Trash` is never descended into.
    let tree: Tree = &[
        (
            "R",
            &[("R/.git", ".git"), ("R/.Trash", ".Trash")],
            &[("R/.DS_Store", ".DS_Store"), ("R/keep", "keep")],
        ),
        ("R/.git", &[], &[]),
        ("R/.Trash", &[("R/.Trash/bin", "bin")], &[]),
        ("R/.Trash/bin", &[], &[]),
    ];
    let mut t = Traverser::new(entry("R", "R"));
    t.set_ignore_hidden(false);
    let produced = run_traversal(&mut t, tree);
    let expected: HashSet<String> =
        ["R", "R/.git", "R/keep"].iter().map(|s| s.to_string()).collect();
    assert_eq!(expected, set_of(&produced));
}

#[test]
fn file_scoping_skips_pruned_directories() {
    // A file inside a pruned directory never appears in file-only mode,
    // while files of visible directories all do.
    let mut t = Traverser::new(entry("R", "R"));
    t.set_dir_iterator(false);
    let produced = run_traversal(&mut t, fixture());
    let expected: HashSet<String> = [
        "R/dir1/file1_1",
        "R/dir1/file1_2",
        "R/dir1/file_1_3",
        "R/dir2/dir2_1/file2_1",
    ]
    .iter()
    .map(|s| s.to_string())
    .collect();
    assert_eq!(expected, set_of(&produced));
    assert_eq!(produced.len(), 4);
}

#[test]
fn identical_traversers_agree_and_instances_are_single_pass() {
    let mut t1 = Traverser::new(entry("R", "R"));
    let mut t2 = Traverser::new(entry("R", "R"));
    let first = run_traversal(&mut t1, fixture());
    let second = run_traversal(&mut t2, fixture());
    assert_eq!(first, second);

    // Consuming the same instance again yields nothing.
    let again = run_traversal(&mut t1, fixture());
    assert!(again.is_empty());
}

#[test]
fn pattern_filtering_files() {
    let tree: Tree = &[("R", &[], &[("R/a.txt", "a.txt"), ("R/b.log", "b.log")], )];
    let mut t = Traverser::new(entry("R", "R"));
    t.set_dir_iterator(false);
    t.set_match_files(vec!["*.txt".to_string()]);
    let produced = run_traversal(&mut t, tree);
    assert_eq!(produced, vec!["R/a.txt".to_string()]);
}

#[test]
fn dir_patterns_filter_output_but_not_descent() {
    // A directory that fails the pattern is not yielded, but its
    // children are still expanded: matching is independent of tree shape.
    let tree: Tree = &[
        ("R", &[("R/skip", "skip")], &[]),
        ("R/skip", &[("R/skip/deep2", "deep2")], &[]),
        ("R/skip/deep2", &[], &[]),
    ];
    let mut t = Traverser::new(entry("R", "R"));
    t.set_file_iterator(false);
    t.set_match_dirs(vec!["*2*".to_string()]);
    let produced = run_traversal(&mut t, tree);
    assert_eq!(produced, vec!["R/skip/deep2".to_string()]);
}

#[test]
fn both_modes_yield_files_before_their_directory() {
    let tree: Tree = &[
        ("R", &[("R/sub", "sub")], &[("R/a", "a")]),
        ("R/sub", &[], &[("R/sub/b", "b")]),
    ];
    let mut t = Traverser::new(entry("R", "R"));
    let produced = run_traversal(&mut t, tree);
    assert_eq!(
        produced,
        vec![
            "R/a".to_string(),
            "R".to_string(),
            "R/sub/b".to_string(),
            "R/sub".to_string(),
        ]
    );
}

#[test]
fn no_mode_yields_nothing() {
    let mut t = Traverser::new(entry("R", "R"));
    t.set_dir_iterator(false);
    t.set_file_iterator(false);
    let produced = run_traversal(&mut t, fixture());
    assert!(produced.is_empty());
}

#[test]
fn invalid_pattern_reports_error() {
    let mut t = Traverser::new(entry("R", "R"));
    t.set_match_dirs(vec!["***".to_string()]);
    let mut saw_error = false;
    for _ in 0..8 {
        match t.advance() {
            Step::Yielded(_) => panic!("nothing may be yielded under an invalid pattern"),
            Step::Descend(d) => {
                let (dirs, files) = listing_of(fixture(), &d.path);
                t.provide_listing(dirs, files);
            }
            Step::InvalidPattern => {
                saw_error = true;
                break;
            }
            Step::Done => break,
        }
    }
    assert!(saw_error);
}

#[test]
fn added_ignore_name_excludes_visible_directory() {
    let tree: Tree = &[
        ("R", &[("R/skipme", "skipme"), ("R/keep", "keep")], &[]),
        ("R/skipme", &[("R/skipme/sub", "sub")], &[]),
        ("R/skipme/sub", &[], &[]),
        ("R/keep", &[], &[]),
    ];
    let mut t = Traverser::new(entry("R", "R"));
    t.set_file_iterator(false);
    t.add_ignore_name("skipme".to_string());
    let produced = run_traversal(&mut t, tree);
    let expected: HashSet<String> = ["R", "R/keep"].iter().map(|s| s.to_string()).collect();
    assert_eq!(expected, set_of(&produced));
}

#[test]
fn hidden_files_excluded_by_default() {
    let tree: Tree = &[("R", &[], &[("R/.secret", ".secret"), ("R/open", "open")], )];
    let mut t = Traverser::new(entry("R", "R"));
    t.set_dir_iterator(false);
    let produced = run_traversal(&mut t, tree);
    assert_eq!(produced, vec!["R/open".to_string()]);
}

#[test]
fn hidden_root_prunes_everything() {
    let tree: Tree = &[(".R", &[(".R/a", "a")], &[]), (".R/a", &[], &[])];
    let mut t = Traverser::new(entry(".R", ".R"));
    t.set_file_iterator(false);
    let produced = run_traversal(&mut t, tree);
    assert!(produced.is_empty());
}
