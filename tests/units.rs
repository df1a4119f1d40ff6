use loc_count::classify::classify_paths;
use loc_count::error::RunError;
use loc_count::filter::ExtensionFilter;
use loc_count::tally::RunningTotal;
use loc_count::traverse::{Entry, EntryKind, Traverser};

fn strings(v: &[&str]) -> Vec<String> {
    v.iter().map(|s| s.to_string()).collect()
}

#[test]
fn classify_keeps_order_per_kind() {
    let paths = strings(&["a", "b", "c", "d"]);
    let kinds = vec![Some(EntryKind::Dir), Some(EntryKind::File), Some(EntryKind::Dir), Some(EntryKind::File)];
    let c = classify_paths(&paths, &kinds).unwrap();
    assert_eq!(c.files, strings(&["b", "d"]));
    assert_eq!(c.dirs, strings(&["a", "c"]));
}

#[test]
fn classify_rejects_special_file() {
    let paths = strings(&["a", "fifo", "missing"]);
    let kinds = vec![Some(EntryKind::File), Some(EntryKind::Other), None];
    match classify_paths(&paths, &kinds) {
        Err(RunError::PathResolution(p)) => assert_eq!(p, "fifo"),
        other => panic!("unexpected {:?}", other.is_ok()),
    }
}

#[test]
fn error_reports_its_path() {
    assert_eq!(RunError::FileOpen("x".to_string()).path(), "x");
    assert_eq!(RunError::Read("y".to_string()).path(), "y");
    assert_eq!(RunError::DirectoryOpen("z".to_string()).path(), "z");
    assert_eq!(RunError::PathResolution("w".to_string()).path(), "w");
}

#[test]
fn running_total_sums_counts() {
    let mut t = RunningTotal::new();
    assert_eq!(t.total(), 0);
    assert!(t.add(3));
    assert!(t.add(5));
    assert_eq!(t.total(), 8);
}

#[test]
fn running_total_refuses_overflow() {
    let mut t = RunningTotal::new();
    assert!(t.add(usize::MAX));
    assert!(!t.add(1));
    assert_eq!(t.total(), usize::MAX);
    assert!(t.add(0));
}

#[test]
fn traverse_starts_with_first_root_then_last() {
    let (mut w, first) = Traverser::traverse(strings(&["r1", "r2", "r3"]), ExtensionFilter::new(None));
    assert_eq!(first, "r1");
    assert!(w.has_pending());
    assert_eq!(w.next_dir(), Some("r3".to_string()));
    assert_eq!(w.next_dir(), Some("r2".to_string()));
    assert_eq!(w.next_dir(), None);
    assert!(!w.has_pending());
}

#[test]
fn classify_entry_by_kind() {
    let (mut w, _) = Traverser::traverse(strings(&["r"]), ExtensionFilter::new(Some(strings(&[".rs"]))));
    let file = |n: &str, k| Entry { name: n.to_string(), path: format!("r/{}", n), kind: k };
    assert_eq!(w.classify_entry(file("a.rs", EntryKind::File)), Some("r/a.rs".to_string()));
    assert_eq!(w.classify_entry(file("a.md", EntryKind::File)), None);
    assert_eq!(w.classify_entry(file("link.rs", EntryKind::Other)), None);
    assert_eq!(w.classify_entry(file("s1", EntryKind::Dir)), None);
    assert_eq!(w.classify_entry(file("s2.rs", EntryKind::Dir)), None);
    assert_eq!(w.next_dir(), Some("r/s2.rs".to_string()));
    assert_eq!(w.next_dir(), Some("r/s1".to_string()));
    assert_eq!(w.next_dir(), None);
}
