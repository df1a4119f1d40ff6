use std::collections::HashMap;

use loc_count::classify::classify_paths;
use loc_count::error::RunError;
use loc_count::filter::ExtensionFilter;
use loc_count::lines::count_lines;
use loc_count::tally::RunningTotal;
use loc_count::traverse::{Entry, EntryKind, Traverser};

// An in-memory file tree: directory path to its listing of
// (name, kind, contents).
type Tree = HashMap<String, Vec<(String, EntryKind, Vec<u8>)>>;

fn dir(tree: &mut Tree, path: &str, entries: Vec<(&str, EntryKind, &[u8])>) {
    tree.insert(
        path.to_string(),
        entries.into_iter().map(|(n, k, c)| (n.to_string(), k, c.to_vec())).collect(),
    );
}

fn contents(tree: &Tree, path: &str) -> Vec<u8> {
    let (parent, name) = path.rsplit_once('/').unwrap();
    let listing = &tree[parent];
    listing.iter().find(|e| e.0 == name).unwrap().2.clone()
}

// Drives a walk the way the program does, and returns the reported lines
// and the total.
fn run(
    tree: &Tree,
    paths: &[&str],
    kinds: Vec<Option<EntryKind>>,
    exts: Option<Vec<String>>,
) -> Result<(Vec<(String, usize)>, usize), RunError> {
    let paths: Vec<String> = paths.iter().map(|s| s.to_string()).collect();
    let classified = classify_paths(&paths, &kinds)?;
    let mut total = RunningTotal::new();
    let mut out = Vec::new();
    for f in classified.files {
        let n = count_lines(&contents(tree, &f));
        assert!(total.add(n));
        out.push((f, n));
    }
    if !classified.dirs.is_empty() {
        let (mut walker, first) = Traverser::traverse(classified.dirs, ExtensionFilter::new(exts));
        let mut current = first;
        let mut cursor = match tree.get(&current) {
            Some(l) => l.clone().into_iter(),
            None => return Err(RunError::DirectoryOpen(current)),
        };
        loop {
            match cursor.next() {
                Some((name, kind, _)) => {
                    let path = format!("{}/{}", current, name);
                    if let Some(p) = walker.classify_entry(Entry { name, path, kind }) {
                        let n = count_lines(&contents(tree, &p));
                        assert!(total.add(n));
                        out.push((p, n));
                    }
                }
                None => match walker.next_dir() {
                    Some(d) => {
                        cursor = match tree.get(&d) {
                            Some(l) => l.clone().into_iter(),
                            None => return Err(RunError::DirectoryOpen(d)),
                        };
                        current = d;
                    }
                    None => break,
                },
            }
        }
    }
    Ok((out, total.total()))
}

fn exts(v: &[&str]) -> Option<Vec<String>> {
    Some(v.iter().map(|s| s.to_string()).collect())
}

fn sample_tree() -> Tree {
    let mut t = Tree::new();
    dir(&mut t, "root", vec![("a.txt", EntryKind::File, b"1\n2\n3\n"), ("sub", EntryKind::Dir, b"")]);
    dir(
        &mut t,
        "root/sub",
        vec![("b.rs", EntryKind::File, b"1\n2\n3\n4\n5"), ("c.md", EntryKind::File, b"x\ny\n")],
    );
    t
}

#[test]
fn filtered_walk_reports_matching_files() {
    let t = sample_tree();
    let (out, total) = run(&t, &["root"], vec![Some(EntryKind::Dir)], exts(&[".txt", ".rs"])).unwrap();
    let mut sorted = out.clone();
    sorted.sort();
    assert_eq!(sorted, vec![("root/a.txt".to_string(), 3), ("root/sub/b.rs".to_string(), 5)]);
    assert_eq!(total, 8);
    assert!(out.iter().all(|(p, _)| !p.ends_with("c.md")));
}

#[test]
fn unfiltered_walk_visits_every_file_once() {
    let t = sample_tree();
    let (out, total) = run(&t, &["root"], vec![Some(EntryKind::Dir)], None).unwrap();
    let mut names: Vec<&str> = out.iter().map(|(p, _)| p.as_str()).collect();
    names.sort();
    assert_eq!(names, vec!["root/a.txt", "root/sub/b.rs", "root/sub/c.md"]);
    assert_eq!(total, 10);
    assert_eq!(total, out.iter().map(|(_, n)| n).sum::<usize>());
}

#[test]
fn empty_directory_gives_total_zero() {
    let mut t = Tree::new();
    dir(&mut t, "empty", vec![]);
    let (out, total) = run(&t, &["empty"], vec![Some(EntryKind::Dir)], None).unwrap();
    assert!(out.is_empty());
    assert_eq!(total, 0);
}

#[test]
fn missing_path_fails_with_path_resolution() {
    let t = sample_tree();
    let r = run(&t, &["root", "nope"], vec![Some(EntryKind::Dir), None], None);
    match r {
        Err(RunError::PathResolution(p)) => assert_eq!(p, "nope"),
        other => panic!("unexpected {:?}", other),
    }
}

#[test]
fn direct_files_bypass_the_filter() {
    let t = sample_tree();
    let (out, total) = run(
        &t,
        &["root/sub/c.md", "root/sub"],
        vec![Some(EntryKind::File), Some(EntryKind::Dir)],
        exts(&[".rs"]),
    )
    .unwrap();
    assert_eq!(out, vec![("root/sub/c.md".to_string(), 2), ("root/sub/b.rs".to_string(), 5)]);
    assert_eq!(total, 7);
}

#[test]
fn deep_tree_is_walked_depth_first() {
    let mut t = Tree::new();
    let mut path = "d".to_string();
    for i in 0..200 {
        let child = format!("{}/d", path);
        let name = format!("f{}", i);
        t.insert(
            path.clone(),
            vec![(name, EntryKind::File, b"l\n".to_vec()), ("d".to_string(), EntryKind::Dir, Vec::new())],
        );
        path = child;
    }
    t.insert(path, vec![]);
    let (out, total) = run(&t, &["d"], vec![Some(EntryKind::Dir)], None).unwrap();
    assert_eq!(out.len(), 200);
    assert_eq!(total, 200);
}

#[test]
fn unreadable_subdirectory_fails_the_walk() {
    let mut t = Tree::new();
    dir(&mut t, "r", vec![("gone", EntryKind::Dir, b"")]);
    match run(&t, &["r"], vec![Some(EntryKind::Dir)], None) {
        Err(RunError::DirectoryOpen(p)) => assert_eq!(p, "r/gone"),
        other => panic!("unexpected {:?}", other),
    }
}
