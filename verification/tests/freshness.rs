use ngi::freshness::{
    check_freshness, collect_file_states, collect_skipped_states, read_git_head, CurrentFile, FreshnessReport,
};
use ngi::storage::{write_filemeta, FileState, StorageError};

fn file(path: &str, mtime: u64, size: u64) -> CurrentFile {
    CurrentFile { path: path.to_string(), stat: Some((mtime, size)) }
}

fn paths(files: &[CurrentFile]) -> Vec<String> {
    files.iter().map(|f| f.path.clone()).collect()
}

fn report(indexed: &[CurrentFile], now: &[CurrentFile]) -> FreshnessReport {
    check_freshness(&write_filemeta(&collect_file_states(&paths(indexed), indexed)), None, now).unwrap()
}

#[test]
fn fresh_after_build() {
    let files = [file("a.txt", 1, 11), file("b.txt", 1, 13)];
    let report = report(&files, &files);
    assert!(
        report.is_fresh,
        "expected fresh, got: changed={:?}, deleted={:?}, added={:?}",
        report.changed, report.deleted, report.added
    );
    assert_eq!(report.total_indexed, 2);
}

#[test]
fn detects_changed_file() {
    let report = report(&[file("a.txt", 1, 16)], &[file("a.txt", 1, 31)]);
    assert!(!report.is_fresh);
    assert!(report.changed.contains(&"a.txt".to_string()));
}

#[test]
fn detects_deleted_file() {
    let report = report(&[file("a.txt", 1, 5), file("b.txt", 1, 5)], &[file("a.txt", 1, 5)]);
    assert!(!report.is_fresh);
    assert!(report.deleted.contains(&"b.txt".to_string()));
}

#[test]
fn detects_added_file() {
    let report = report(&[file("a.txt", 1, 5)], &[file("a.txt", 1, 5), file("c.txt", 1, 8)]);
    assert!(!report.is_fresh);
    assert!(report.added.contains(&"c.txt".to_string()));
}

#[test]
fn no_changes_is_fresh() {
    let report = report(&[file("a.txt", 1, 7)], &[file("a.txt", 1, 7)]);
    assert!(report.is_fresh);
    assert!(report.changed.is_empty());
    assert!(report.deleted.is_empty());
    assert!(report.added.is_empty());
}

// ---------------------------------------------------------------------------

#[test]
fn another_time_is_a_change() {
    assert_eq!(report(&[file("a", 1, 7)], &[file("a", 2, 7)]).changed, vec!["a"]);
}

#[test]
fn a_file_that_cannot_be_looked_at_is_deleted() {
    let now = [CurrentFile { path: "a".to_string(), stat: None }];
    let report = report(&[file("a", 1, 7)], &now);
    assert_eq!(report.deleted, vec!["a"]);
    assert!(report.added.is_empty());
    assert!(collect_file_states(&paths(&now), &now).is_empty());
    assert!(collect_skipped_states(&[], &now).is_empty());
}

#[test]
fn new_paths_come_sorted() {
    let now = [file("b", 1, 1), file("Z", 1, 1), file("a/x", 1, 1), file("a", 1, 1)];
    assert_eq!(report(&[], &now).added, vec!["Z", "a", "a/x", "b"]);
}

#[test]
fn states_are_those_of_the_indexed_files() {
    let files = [file("b", 1, 2), file("x", 5, 6), file("a", 3, 4)];
    let indexed = ["a".to_string(), "b".to_string()];
    assert_eq!(
        collect_file_states(&indexed, &files),
        vec![
            FileState { path: "b".into(), mtime: 1, size: 2 },
            FileState { path: "a".into(), mtime: 3, size: 4 },
        ]
    );
    assert_eq!(collect_skipped_states(&indexed, &files), vec![FileState { path: "x".into(), mtime: 5, size: 6 }]);
}

#[test]
fn skipped_files_are_new_once_they_change() {
    let files = [file("a", 1, 2), file("x", 5, 6)];
    let indexed = ["a".to_string()];
    let filemeta = write_filemeta(&collect_file_states(&indexed, &files));
    let skipped = write_filemeta(&collect_skipped_states(&indexed, &files));
    let same = check_freshness(&filemeta, Some(&skipped), &files).unwrap();
    assert!(same.is_fresh);
    assert_eq!(same.total_indexed, 1);
    let touched = check_freshness(&filemeta, Some(&skipped), &[file("a", 1, 2), file("x", 7, 6)]).unwrap();
    assert_eq!(touched.added, vec!["x"]);
    assert!(!touched.is_fresh);
    let removed = check_freshness(&filemeta, Some(&skipped), &[file("a", 1, 2)]).unwrap();
    assert!(removed.is_fresh);
}

#[test]
fn broken_metadata_is_an_error() {
    assert!(matches!(check_freshness(&[1, 2], None, &[]), Err(StorageError::FileMetaTooSmall)));
    let none = write_filemeta(&[]);
    assert!(matches!(check_freshness(&none, Some(&[1, 2]), &[]), Err(StorageError::FileMetaTooSmall)));
    assert!(check_freshness(&none, Some(&none), &[]).unwrap().is_fresh);
}

#[test]
fn commit_is_the_trimmed_output() {
    assert_eq!(read_git_head(true, b" \tabc123\xC2\xA0\n"), Some("abc123".to_string()));
    assert_eq!(read_git_head(true, b"a\xFFb\n"), Some("a\u{FFFD}b".to_string()));
    assert_eq!(read_git_head(false, b"abc123\n"), None);
}
