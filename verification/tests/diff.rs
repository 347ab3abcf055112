use wazzi::diff::{after_call, diff, errno_diff, walks_differ, CallStep, DiffResult, FileKind, FsEntry};

fn entry(depth: usize, kind: FileKind, name: &str, contents: &[u8]) -> FsEntry {
    FsEntry { depth, kind, name: name.as_bytes().to_vec(), contents: contents.to_vec() }
}

fn copy(walk: &[FsEntry]) -> Vec<FsEntry> {
    walk.iter()
        .map(|e| FsEntry { depth: e.depth, kind: e.kind, name: e.name.clone(), contents: e.contents.clone() })
        .collect()
}

fn errnos(es: &[Option<i32>]) -> Vec<(String, Option<i32>)> {
    es.iter().enumerate().map(|(i, e)| (format!("rt{i}"), *e)).collect()
}

#[test]
fn errnos_agree_on_the_outcome() {
    assert!(!errno_diff(&errnos(&[Some(0), Some(0)])));
    assert!(!errno_diff(&errnos(&[Some(8), Some(44), Some(2)])));
    assert!(!errno_diff(&errnos(&[None, None])));
    assert!(!errno_diff(&errnos(&[Some(3)])));
}

#[test]
fn errnos_disagree_on_the_outcome() {
    assert!(errno_diff(&errnos(&[Some(0), Some(8)])));
    assert!(errno_diff(&errnos(&[Some(8), Some(0)])));
    assert!(errno_diff(&errnos(&[None, Some(0)])));
    assert!(errno_diff(&errnos(&[Some(0), Some(0), None])));
}

#[test]
fn walks_compare_entry_by_entry() {
    let a = vec![entry(1, FileKind::Directory, "d", b""), entry(2, FileKind::File, "f", b"x")];
    let same = vec![entry(1, FileKind::Directory, "d", b""), entry(2, FileKind::File, "f", b"x")];
    assert!(!walks_differ(&a, &same));
    let other_contents = vec![entry(1, FileKind::Directory, "d", b""), entry(2, FileKind::File, "f", b"y")];
    assert!(walks_differ(&a, &other_contents));
    let other_name = vec![entry(1, FileKind::Directory, "d", b""), entry(2, FileKind::File, "g", b"x")];
    assert!(walks_differ(&a, &other_name));
    let shorter = vec![entry(1, FileKind::Directory, "d", b"")];
    assert!(walks_differ(&a, &shorter));
    let other_kind = vec![entry(1, FileKind::Symlink, "d", b""), entry(2, FileKind::File, "f", b"x")];
    assert!(walks_differ(&a, &other_kind));
    // Only files are compared by contents.
    let dir_contents = vec![entry(1, FileKind::Directory, "d", b"?"), entry(2, FileKind::File, "f", b"x")];
    assert!(!walks_differ(&a, &dir_contents));
}

#[test]
fn diff_reports_errnos_before_directories() {
    let a = vec![entry(1, FileKind::File, "f", b"x")];
    let b = vec![entry(1, FileKind::File, "f", b"y")];
    assert_eq!(diff(&errnos(&[Some(0), Some(1)]), &[copy(&a), copy(&b)]), DiffResult::Errno);
    assert_eq!(diff(&errnos(&[Some(0), Some(0)]), &[copy(&a), copy(&b)]), DiffResult::Filesystem);
    assert_eq!(diff(&errnos(&[Some(0), Some(0)]), &[copy(&a), copy(&a)]), DiffResult::Agree);
    let c = vec![entry(1, FileKind::File, "f", b"x")];
    assert_eq!(
        diff(&errnos(&[None, None, None]), &[copy(&a), copy(&c), copy(&b)]),
        DiffResult::Filesystem
    );
}

#[test]
fn results_are_registered_only_on_success_and_a_diff_stops_the_run() {
    assert_eq!(after_call(None, DiffResult::Agree), CallStep { register_results: true, go_on: true });
    assert_eq!(after_call(Some(0), DiffResult::Filesystem), CallStep { register_results: true, go_on: false });
    assert_eq!(after_call(Some(8), DiffResult::Agree), CallStep { register_results: false, go_on: true });
    assert_eq!(after_call(Some(-1), DiffResult::Errno), CallStep { register_results: false, go_on: false });
}
