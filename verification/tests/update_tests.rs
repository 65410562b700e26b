use roaring::RoaringBitmap;
use std::collections::HashMap;
use std::sync::Arc;
use syntext::batch_apply::{
    merge_reads, paths_to_read, BatchStep, ChangeBatch, ChangeKind, ChangeRecord,
};
use syntext::commit::ReadOutcome;
use syntext::config::Config;
use syntext::error::IndexError;
use syntext::freshness::{ChangeSet, UpdateLimits, UpdateOutcome};
use syntext::index::Index;
use syntext::manifest::Manifest;
use syntext::overlay::OverlayView;
use syntext::path_index::PathIndex;
use syntext::path_resolve::ParentSight;
use syntext::paths::{PathMap, PathSet};
use syntext::pending::EditKind;
use syntext::snapshot::{new_snapshot, BaseSegments, IndexSnapshot};
use syntext::update::{after_update_commit, fresh_outcome, is_stale, Entry, Sighting, UpdateStep};
use syntext::worktree_anchor::{Observed, WorktreeAnchor};

fn empty() -> IndexSnapshot {
    new_snapshot(
        Arc::new(BaseSegments::empty()),
        OverlayView::empty(),
        RoaringBitmap::new(),
        PathIndex::build(&Vec::new()),
        HashMap::new(),
    )
}

fn index() -> Index {
    let config = Config::new(b"/index".to_vec(), b"/repo".to_vec());
    Index::new(config, b"/repo".to_vec(), empty())
}

fn set(paths: &[&str]) -> PathSet {
    let mut s = PathSet::new();
    for p in paths {
        s.insert(p.as_bytes());
    }
    s
}

fn changes(paths: &[&str], budget_exceeded: Option<usize>) -> ChangeSet {
    ChangeSet { paths: set(paths), budget_exceeded, detect_elapsed_ms: 8 }
}

const UNBOUNDED: UpdateLimits = UpdateLimits { max_files: None, budget_ms: None };
const ONE_FILE: UpdateLimits = UpdateLimits { max_files: Some(1), budget_ms: None };

#[test]
fn updates_end_early_for_a_reason() {
    let index = index();
    let two = vec![None, None];
    let mut c = changes(&["a", "b"], Some(2));
    assert_eq!(
        index.begin_update(&mut c, &UNBOUNDED, &two),
        Some(UpdateOutcome::BudgetExceeded { files_behind_estimate: 2, detect_elapsed_ms: 8 })
    );
    let mut c = changes(&[], None);
    assert_eq!(
        index.begin_update(&mut c, &UNBOUNDED, &Vec::new()),
        Some(UpdateOutcome::NoChanges { detect_elapsed_ms: 8 })
    );
    let mut c = changes(&["a", "b"], None);
    assert_eq!(
        index.begin_update(&mut c, &ONE_FILE, &two),
        Some(UpdateOutcome::TooManyFiles { files_behind: 2, detect_elapsed_ms: 8 })
    );
    assert_eq!(index.begin_update(&mut c, &UNBOUNDED, &two), None);
}

#[test]
fn flushed_paths_do_not_count_as_changes() {
    let mut index = index();
    let seen = Observed::Present { size: 1, mtime_secs: 2, mtime_nanos: 3 };
    let mut entries: PathMap<Observed> = PathMap::new();
    entries.insert(b"a", seen);
    entries.insert(b"b", seen);
    index.worktree_anchor = Some(WorktreeAnchor::from_entries(entries));
    let touched = Observed::Present { size: 1, mtime_secs: 9, mtime_nanos: 3 };
    let mut c = changes(&["a", "b", "c"], None);
    let now = vec![Some(seen), Some(touched), Some(seen)];
    assert_eq!(index.begin_update(&mut c, &UNBOUNDED, &now), None);
    let left: Vec<&[u8]> = c.paths.paths.iter().map(|p| p.as_slice()).collect();
    assert_eq!(left, vec![&b"b"[..], &b"c"[..]]);
    let mut list = set(&["a"]);
    assert_eq!(index.retain_unflushed(&mut list, &vec![Some(seen)]), 1);
    assert!(list.is_empty());
    let mut c = changes(&["a"], None);
    assert_eq!(
        index.begin_update(&mut c, &ONE_FILE, &vec![Some(seen)]),
        Some(UpdateOutcome::NoChanges { detect_elapsed_ms: 8 })
    );
}

fn seen(entry: Entry) -> Sighting {
    Sighting { entry, parent: Some(ParentSight::Plain) }
}

#[test]
fn what_stands_at_a_path_decides_its_edit() {
    let mut index = index();
    let list = set(&["dangling", "escaped", "file", "gone", "unreadable"]);
    let sights = vec![
        seen(Entry::Unresolvable),
        seen(Entry::Resolved(b"/other/x".to_vec())),
        seen(Entry::Resolved(b"/repo/target".to_vec())),
        seen(Entry::Gone),
        Sighting { entry: Entry::Gone, parent: None },
    ];
    assert_eq!(index.apply_changed_paths(&list, &sights), (3, 2));
    let edits: Vec<(Vec<u8>, EditKind)> =
        index.pending.uncommitted.iter().map(|e| (e.path.clone(), e.kind)).collect();
    assert_eq!(
        edits,
        vec![
            (b"dangling".to_vec(), EditKind::Changed),
            (b"target".to_vec(), EditKind::Changed),
            (b"gone".to_vec(), EditKind::Deleted),
        ]
    );
}

#[test]
fn a_full_overlay_ends_an_update_by_its_limits() {
    let full = || IndexError::OverlayFull { overlay_docs: 3, base_docs: 4 };
    let c = changes(&["a", "b"], None);
    match after_update_commit(Err(full()), &ONE_FILE, &c, 2, 0) {
        Ok(UpdateStep::Done(UpdateOutcome::OverlayFull { files_behind: 2, .. })) => {}
        other => panic!("expected OverlayFull, got {other:?}"),
    }
    match after_update_commit(Err(full()), &UNBOUNDED, &c, 2, 0) {
        Ok(UpdateStep::Rebuild(UpdateOutcome::Updated { files: 2, skipped: 0, .. })) => {}
        other => panic!("expected a rebuild, got {other:?}"),
    }
    match after_update_commit(Ok(()), &UNBOUNDED, &c, 1, 1) {
        Ok(UpdateStep::Done(UpdateOutcome::Updated { files: 1, skipped: 1, .. })) => {}
        other => panic!("expected Updated, got {other:?}"),
    }
    let other = IndexError::DocIdOverflow { base_doc_count: 1, overlay_docs: 1 };
    assert!(after_update_commit(Err(other), &ONE_FILE, &c, 0, 0).is_err());
}

#[test]
fn a_failed_update_leaves_a_search_as_it_was() {
    let none = UpdateOutcome::NoChanges { detect_elapsed_ms: 5 };
    assert_eq!(fresh_outcome(Ok(none)), none);
    let failed = IndexError::PathOutsideRepo(Vec::new());
    assert_eq!(
        fresh_outcome(Err(failed)),
        UpdateOutcome::NoChanges { detect_elapsed_ms: 0 }
    );
}

#[test]
fn an_index_is_stale_when_the_head_moved() {
    let mut m = Manifest::new(Vec::new(), 0, 0);
    assert!(!is_stale(&m, &None));
    assert!(is_stale(&m, &Some(b"x".to_vec())));
    m.base_commit = Some(b"x".to_vec());
    assert!(!is_stale(&m, &Some(b"x".to_vec())));
    assert!(is_stale(&m, &Some(b"y".to_vec())));
    assert!(is_stale(&m, &None));
}

fn change(path: &str, kind: ChangeKind, content: Option<&[u8]>) -> ChangeRecord {
    ChangeRecord {
        path: path.as_bytes().to_vec(),
        kind,
        content: content.map(|c| Arc::new(c.to_vec())),
    }
}

#[test]
fn observed_changes_become_edits() {
    let mut index = index();
    let batch = ChangeBatch {
        generation: 4,
        records: vec![
            change("a.rs", ChangeKind::Added, Some(b"one")),
            change("/repo/a.rs", ChangeKind::Modified, Some(b"two")),
            change("b.rs", ChangeKind::Modified, None),
            change("c.rs", ChangeKind::Deleted, None),
            change("d.rs", ChangeKind::Touched, Some(b"x")),
            change("e.rs", ChangeKind::Unchanged, None),
            change("f.rs", ChangeKind::Uncertain, None),
        ],
    };
    let parents: Vec<ParentSight> = batch.records.iter().map(|_| ParentSight::Plain).collect();
    match index.apply_change_batch(&batch, &parents).unwrap() {
        BatchStep::Commit { generation, preloaded: m } => {
            assert_eq!(generation, 4);
            assert_eq!(m.len(), 1);
            assert_eq!(m.get(b"a.rs").unwrap().as_slice(), b"two");
        }
        other => panic!("expected a commit, got {other:?}"),
    }
    assert_eq!(index.pending.uncommitted_count(), 4);

    let quiet = ChangeBatch { generation: 5, records: vec![change("d", ChangeKind::Touched, None)] };
    let step = index.apply_change_batch(&quiet, &vec![ParentSight::Plain]).unwrap();
    assert!(matches!(step, BatchStep::Done { generation: 5 }));

    let stray = ChangeBatch {
        generation: 6,
        records: vec![
            change("g.rs", ChangeKind::Added, None),
            change("/other/h.rs", ChangeKind::Added, None),
        ],
    };
    let r = index.apply_change_batch(&stray, &vec![ParentSight::Plain, ParentSight::Plain]);
    assert!(matches!(r.err(), Some(IndexError::PathOutsideRepo(_))));
    assert_eq!(index.pending.uncommitted_count(), 5);
}

#[test]
fn contents_that_came_with_a_batch_are_not_read() {
    let changed = set(&["a", "b/./c", "d", "e"]);
    let mut preloaded: PathMap<Arc<Vec<u8>>> = PathMap::new();
    preloaded.insert(b"b//c", Arc::new(b"known".to_vec()));
    preloaded.insert(b"z", Arc::new(b"not changed".to_vec()));
    assert_eq!(paths_to_read(&changed, &preloaded), vec![b"a", b"d", b"e"]);
    let read = vec![
        ReadOutcome::Read(b"from disk".to_vec()),
        ReadOutcome::Missing,
        ReadOutcome::Refused,
    ];
    let all = merge_reads(&changed, &preloaded, read);
    assert_eq!(all.len(), 4);
    assert!(matches!(&all[0], ReadOutcome::Read(b) if b == b"from disk"));
    assert!(matches!(&all[1], ReadOutcome::Read(b) if b == b"known"));
    assert!(matches!(&all[2], ReadOutcome::Missing));
    assert!(matches!(&all[3], ReadOutcome::Refused));
}

#[test]
fn a_batch_of_nothing_is_applied() {
    let mut index = index();
    let empty_batch = ChangeBatch { generation: 9, records: Vec::new() };
    let step = index.apply_change_batch(&empty_batch, &Vec::new()).unwrap();
    assert!(matches!(step, BatchStep::Done { generation: 9 }));
    assert!(!index.pending.has_uncommitted());
}

#[test]
fn edits_that_came_during_a_rebuild_stay_buffered() {
    let mut index = index();
    index.notify_change(b"/repo/a", &ParentSight::Plain).unwrap();
    index.notify_delete(b"/repo/b", &ParentSight::Plain).unwrap();
    index.flush_book.read_epoch = Some(3);
    index.install_rebuilt_index(empty());
    let edits: Vec<(Vec<u8>, EditKind)> =
        index.pending.uncommitted.iter().map(|e| (e.path.clone(), e.kind)).collect();
    assert_eq!(
        edits,
        vec![(b"a".to_vec(), EditKind::Changed), (b"b".to_vec(), EditKind::Deleted)]
    );
    assert_eq!(index.flush_book.read_epoch, None);
    assert!(matches!(
        index.notify_change(b"/elsewhere", &ParentSight::Plain).err(),
        Some(IndexError::PathOutsideRepo(_))
    ));
}
