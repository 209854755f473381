use deoxit::filter::CargoDirFilter;
use deoxit::listing::{EntryInfo, EntryKind};
use deoxit::tree::{size_of_entries, walk_tree, FsNode, TreeMatch};
use deoxit::walker::Walker;

fn file(name: &str, size: u64) -> FsNode {
    FsNode::File { name: String::from(name), size }
}

fn dir(name: &str, entries: Vec<FsNode>) -> FsNode {
    FsNode::Dir { name: String::from(name), entries }
}

fn link(name: &str) -> FsNode {
    FsNode::Link { name: String::from(name) }
}

fn run_walk(entries: &Vec<FsNode>) -> Vec<TreeMatch> {
    let mut out = Vec::new();
    walk_tree(&CargoDirFilter, &vec![String::from("root")], entries, &mut out);
    out
}

#[test]
fn project_matches_not_its_build_dir() {
    // root holds proj; proj holds Cargo.toml and target: one match,
    // for proj itself, never for proj/target
    let entries = vec![dir(
        "proj",
        vec![
            file("Cargo.toml", 100),
            dir("target", vec![file("debug.bin", 400)]),
        ],
    )];
    let out = run_walk(&entries);
    assert_eq!(out.len(), 1);
    assert_eq!(out[0].path, vec![String::from("root"), String::from("proj")]);
    assert_eq!(out[0].size_bytes, 500);
}

#[test]
fn matched_subtree_is_not_searched_again() {
    // a nested project inside a matched one is never reported
    let inner = dir(
        "inner",
        vec![file("Cargo.toml", 10), dir("target", vec![file("b", 20)])],
    );
    let entries = vec![dir(
        "outer",
        vec![
            file("Cargo.toml", 1),
            dir("target", vec![file("a", 2)]),
            inner,
        ],
    )];
    let out = run_walk(&entries);
    assert_eq!(out.len(), 1);
    assert_eq!(
        out[0].path,
        vec![String::from("root"), String::from("outer")]
    );
    assert_eq!(out[0].size_bytes, 33);
}

#[test]
fn siblings_both_match() {
    let proj = |n: &str| {
        dir(
            n,
            vec![file("Cargo.toml", 5), dir("target", vec![file("x", 5)])],
        )
    };
    let entries = vec![proj("a"), proj("b"), file("README", 1)];
    let out = run_walk(&entries);
    assert_eq!(out.len(), 2);
    let mut names: Vec<String> = out.iter().map(|m| m.path[1].clone()).collect();
    names.sort();
    assert_eq!(names, vec![String::from("a"), String::from("b")]);
}

#[test]
fn symlinks_are_never_descended() {
    // a link named like a project directory yields nothing
    let entries = vec![link("proj"), dir("real", vec![link("Cargo.toml")])];
    let out = run_walk(&entries);
    assert!(out.is_empty());
}

#[test]
fn rerun_over_unchanged_tree_is_identical() {
    let entries = vec![
        dir(
            "proj",
            vec![file("Cargo.toml", 1), dir("target", vec![file("t", 7)])],
        ),
        dir("other", vec![file("notes.txt", 3)]),
    ];
    let first = run_walk(&entries);
    let second = run_walk(&entries);
    assert_eq!(first.len(), second.len());
    for (x, y) in first.iter().zip(second.iter()) {
        assert_eq!(x.path, y.path);
        assert_eq!(x.size_bytes, y.size_bytes);
    }
}

#[test]
fn subtree_size_sums_files() {
    let entries = vec![
        file("a", 10),
        dir("d", vec![file("b", 20), dir("e", vec![file("c", 30)])]),
        link("l"),
    ];
    assert_eq!(size_of_entries(&entries), 60);
}

#[test]
fn subtree_size_saturates() {
    let entries = vec![file("a", u64::MAX), file("b", 1)];
    assert_eq!(size_of_entries(&entries), u64::MAX);
}

#[test]
fn walker_schedules_only_real_directories() {
    let mut w = Walker::new(String::from("root"));
    let popped = w.next_dir();
    assert_eq!(popped, Some(String::from("root")));
    let listing = vec![
        EntryInfo::new(String::from("src"), EntryKind::Directory),
        EntryInfo::new(String::from("README"), EntryKind::File),
        EntryInfo::new(String::from("loop"), EntryKind::Symlink),
        EntryInfo::new(String::from("docs"), EntryKind::Directory),
    ];
    let matched = w.on_listing(&String::from("root"), &listing, &CargoDirFilter);
    assert!(!matched);
    assert_eq!(w.remaining(), 2);
    // most recently scheduled first
    assert_eq!(w.next_dir(), Some(String::from("root/docs")));
    assert_eq!(w.next_dir(), Some(String::from("root/src")));
    assert_eq!(w.next_dir(), None);
}

#[test]
fn walker_match_is_a_leaf() {
    let mut w = Walker::new(String::from("root"));
    let _ = w.next_dir();
    let listing = vec![
        EntryInfo::new(String::from("Cargo.toml"), EntryKind::File),
        EntryInfo::new(String::from("target"), EntryKind::Directory),
        EntryInfo::new(String::from("src"), EntryKind::Directory),
    ];
    let matched = w.on_listing(&String::from("root"), &listing, &CargoDirFilter);
    assert!(matched);
    // nothing scheduled under a match, not even real directories
    assert_eq!(w.remaining(), 0);
    assert_eq!(w.next_dir(), None);
}
