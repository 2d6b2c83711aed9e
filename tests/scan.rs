use filescan::inventory::{Inventory, OutputData};
use filescan::record::{FileData, FileMeta, FileProcessor, Timestamp};
use filescan::walk::{DirEntry, Walk};
use std::collections::BTreeSet;

/// A small in-memory file system: each entry is (path, content or None for a directory).
fn tree_listing(fs: &[(&str, Option<&str>)], dir: &str) -> Vec<DirEntry> {
    let prefix = format!("{}/", dir);
    fs.iter()
        .filter(|(p, _)| p.starts_with(&prefix) && !p[prefix.len()..].contains('/'))
        .map(|(p, c)| DirEntry { path: p.to_string(), is_dir: c.is_none() })
        .collect()
}

fn enumerate(fs: &[(&str, Option<&str>)], root: &str, recurse: bool) -> Vec<String> {
    let mut w = Walk::new(root.to_string(), recurse);
    while let Some(d) = w.next_dir() {
        w.on_listing(tree_listing(fs, &d));
    }
    assert!(w.is_done());
    w.into_files()
}

fn process(fs: &[(&str, Option<&str>)], path: &str) -> Option<FileData> {
    let (_, content) = fs.iter().find(|(p, _)| *p == path)?;
    let content = (*content)?;
    let meta = FileMeta {
        path: path.to_string(),
        is_dir: false,
        size: content.len() as u64,
        mod_time: Timestamp { secs: 0, nanos: 0 },
        permissions: 0o644,
    };
    let mut p = FileProcessor::open(meta);
    p.feed(content.as_bytes());
    Some(p.finish())
}

fn run(fs: &[(&str, Option<&str>)], root: &str, recurse: bool) -> Vec<FileData> {
    let files = enumerate(fs, root, recurse);
    let mut inv = Inventory::new();
    for f in &files {
        inv.add_outcome(process(fs, f));
    }
    OutputData::build(inv).file_data
}

fn paths(records: &[FileData]) -> BTreeSet<String> {
    records.iter().map(|r| r.file_path.clone()).collect()
}

const HELLO_TREE: &[(&str, Option<&str>)] = &[
    ("r/a.txt", Some("hello")),
    ("r/sub", None),
    ("r/sub/b.txt", Some("world")),
];

#[test]
fn shallow_scan_lists_only_root_files() {
    let recs = run(HELLO_TREE, "r", false);
    assert_eq!(recs.len(), 1);
    assert_eq!(recs[0].file_path, "r/a.txt");
    assert_eq!(recs[0].md5, "5d41402abc4b2a76b9719d911017c592");
    assert!(!recs[0].is_dir);
}

#[test]
fn deep_scan_lists_nested_files_not_dirs() {
    let recs = run(HELLO_TREE, "r", true);
    let expected: BTreeSet<String> = ["r/a.txt", "r/sub/b.txt"].iter().map(|s| s.to_string()).collect();
    assert_eq!(paths(&recs), expected);
    assert!(recs.iter().all(|r| !r.is_dir));
    let b = recs.iter().find(|r| r.file_path == "r/sub/b.txt").unwrap();
    assert_eq!(b.md5, "7d793037a0760186574b0282f2f435e7");
}

#[test]
fn empty_subdirectory_contributes_nothing() {
    let fs: &[(&str, Option<&str>)] = &[("r/empty", None)];
    assert!(enumerate(fs, "r", true).is_empty());
    assert!(run(fs, "r", true).is_empty());
}

#[test]
fn deep_enumeration_yields_each_file_once() {
    let fs: &[(&str, Option<&str>)] = &[
        ("r/x", Some("1")),
        ("r/d1", None),
        ("r/d1/y", Some("2")),
        ("r/d1/d2", None),
        ("r/d1/d2/z", Some("3")),
        ("r/d3", None),
        ("r/d3/w", Some("4")),
    ];
    let mut files = enumerate(fs, "r", true);
    files.sort();
    assert_eq!(files, vec!["r/d1/d2/z", "r/d1/y", "r/d3/w", "r/x"]);
    let shallow = enumerate(fs, "r", false);
    assert_eq!(shallow, vec!["r/x"]);
}

#[test]
fn unreadable_file_is_left_out() {
    let files = enumerate(HELLO_TREE, "r", true);
    let mut inv = Inventory::new();
    for f in &files {
        // the nested file vanished between enumeration and processing
        let outcome = if f == "r/sub/b.txt" { None } else { process(HELLO_TREE, f) };
        inv.add_outcome(outcome);
    }
    let recs = OutputData::build(inv).file_data;
    assert_eq!(recs.len(), 1);
    assert_eq!(recs[0].file_path, "r/a.txt");
}

#[test]
fn completion_order_does_not_change_paths() {
    let fs: &[(&str, Option<&str>)] = &[
        ("r/p", Some("a")),
        ("r/q", Some("b")),
        ("r/s", Some("c")),
    ];
    let forward: Vec<Option<FileData>> =
        vec![process(fs, "r/p"), None, process(fs, "r/q"), process(fs, "r/s")];
    let backward: Vec<Option<FileData>> =
        vec![process(fs, "r/s"), process(fs, "r/q"), None, process(fs, "r/p")];
    let a = Inventory::from_outcomes(forward).into_records();
    let b = Inventory::from_outcomes(backward).into_records();
    assert_eq!(a.len(), 3);
    assert_eq!(paths(&a), paths(&b));
    assert_eq!(a[0].file_path, "r/p");
    assert_eq!(b[0].file_path, "r/s");
}
