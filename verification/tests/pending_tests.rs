use roaring::RoaringBitmap;
use syntext::paths::{PathMap, PathSet};
use syntext::pending::{compute_delete_set, EditKind, FileEdit, PendingEdits};

#[test]
fn reset_clears_uncommitted() {
    let mut pe = PendingEdits::new();
    pe.notify_change(b"a.rs");
    pe.notify_change(b"b.rs");
    pe.reset();
    assert_eq!(pe.uncommitted_count(), 0, "reset() must clear uncommitted");
}

#[test]
fn take_for_commit_after_reset_returns_empty() {
    let mut pe = PendingEdits::new();
    pe.notify_change(b"a.rs");
    pe.reset();
    let result = pe.take_for_commit();
    assert!(result.newly_changed.is_empty());
    assert!(result.newly_deleted.is_empty());
}

#[test]
fn requeue_dedups_and_stays_bounded() {
    let mut pe = PendingEdits::new();
    pe.notify_change(b"a.rs");
    for _ in 0..100 {
        let taken = pe.take_for_commit();
        pe.notify_change(b"b.rs");
        pe.requeue_uncommitted(taken.drained);
    }
    assert!(
        pe.uncommitted_count() <= 2,
        "requeue must dedup per path, got {}",
        pe.uncommitted_count()
    );
}

#[test]
fn requeue_last_kind_wins_per_path() {
    let mut pe = PendingEdits::new();
    pe.requeue_uncommitted(vec![
        FileEdit {
            path: b"x.rs".to_vec(),
            kind: EditKind::Changed,
        },
        FileEdit {
            path: b"x.rs".to_vec(),
            kind: EditKind::Deleted,
        },
    ]);
    assert_eq!(pe.uncommitted_count(), 1);
    let taken = pe.take_for_commit();
    assert!(taken.newly_deleted.contains(b"x.rs"));
    assert!(taken.newly_changed.is_empty());
}

fn set(paths: &[&str]) -> PathSet {
    let mut s = PathSet::new();
    for p in paths {
        s.insert(p.as_bytes());
    }
    s
}

#[test]
fn compute_delete_set_is_incremental() {
    let mut base: PathMap<Vec<u32>> = PathMap::new();
    base.insert(b"a.rs", vec![1]);
    base.insert(b"b.rs", vec![2]);
    base.insert(b"c.rs", vec![3]);

    let prev = RoaringBitmap::new();
    let ds1 = compute_delete_set(&base, &set(&["a.rs"]), &set(&[]), &prev);
    assert!(ds1.contains(1));
    assert!(!ds1.contains(2));

    let ds2 = compute_delete_set(&base, &set(&[]), &set(&["b.rs"]), &ds1);
    assert!(ds2.contains(1), "a.rs entry must persist");
    assert!(ds2.contains(2), "b.rs entry must be added");
    assert!(!ds2.contains(3));
}

#[test]
fn the_last_edit_of_a_path_decides() {
    let mut pe = PendingEdits::default();
    assert!(!pe.has_uncommitted());
    pe.notify_delete(b"a.rs");
    pe.notify_change(b"a.rs");
    pe.notify_change(b"b.rs");
    pe.notify_delete(b"b.rs");
    assert!(pe.has_uncommitted());
    let taken = pe.take_for_commit();
    assert!(taken.newly_changed.contains(b"a.rs"));
    assert!(!taken.newly_deleted.contains(b"a.rs"));
    assert!(taken.newly_deleted.contains(b"b.rs"));
    assert_eq!(taken.drained.len(), 4);
    assert_eq!(pe.uncommitted_count(), 0);
}

#[test]
fn requeued_edits_come_before_newer_ones() {
    let mut pe = PendingEdits::new();
    pe.notify_change(b"a.rs");
    let taken = pe.take_for_commit();
    pe.notify_delete(b"a.rs");
    pe.requeue_uncommitted(taken.drained);
    let again = pe.take_for_commit();
    assert!(again.newly_deleted.contains(b"a.rs"));
    assert!(again.newly_changed.is_empty());
}

#[test]
fn edits_are_told_apart_by_the_components_of_their_paths() {
    let mut pe = PendingEdits::new();
    pe.notify_change(b"a//b.rs");
    pe.notify_delete(b"a/b.rs");
    pe.notify_change(b"c/./d.rs");
    let taken = pe.take_for_commit();
    assert_eq!(taken.newly_changed.paths, vec![b"c/d.rs".to_vec()]);
    assert_eq!(taken.newly_deleted.paths, vec![b"a/b.rs".to_vec()]);
    pe.requeue_uncommitted(taken.drained);
    assert_eq!(pe.uncommitted_count(), 2);
}
