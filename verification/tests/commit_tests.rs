use roaring::RoaringBitmap;
use std::collections::HashMap;
use std::sync::Arc;
use syntext::commit::{
    classify_changed_file, commit_batch, projected_overlay_doc_count, read_limit, ChangedFile,
    ChangedFileOutcome, ReadOutcome,
};
use syntext::config::Config;
use syntext::error::IndexError;
use syntext::index::Index;
use syntext::overlay::{NewFile, OverlayView};
use syntext::path_index::PathIndex;
use syntext::path_resolve::ParentSight;
use syntext::paths::{PathMap, PathSet};
use syntext::pending::PendingEdits;
use syntext::segment::reader::{DictVerify, MmapSegment, PostVerify};
use syntext::segment::writer::SegmentWriter;
use syntext::snapshot::{new_snapshot, BaseSegments, IndexSnapshot};

#[test]
fn commit_batch_max_file_size_saturates_not_wraps() {
    let sentinel = u64::MAX.saturating_add(1);
    assert_eq!(sentinel, u64::MAX, "saturating_add must not wrap");
    assert_ne!(sentinel, 0u64, "must not wrap to 0");
    assert_eq!(read_limit(u64::MAX), u64::MAX);
    assert_eq!(read_limit(10), 11);
}

#[test]
fn changed_files_are_sorted_by_what_was_read() {
    let text = |o: ChangedFileOutcome| match o {
        ChangedFileOutcome::Indexed(c) => c,
        other => panic!("expected text, got {other:?}"),
    };
    let read = |b: &[u8]| ReadOutcome::Read(b.to_vec());
    assert_eq!(text(classify_changed_file(read(b"\xEF\xBB\xBFabc"), 100)), b"abc");
    assert!(matches!(classify_changed_file(read(b"a\0b"), 100), ChangedFileOutcome::Excluded));
    assert!(matches!(classify_changed_file(read(b"abcd"), 3), ChangedFileOutcome::Excluded));
    assert_eq!(text(classify_changed_file(read(b"abc"), 3)), b"abc");
    assert!(matches!(
        classify_changed_file(ReadOutcome::Missing, 3),
        ChangedFileOutcome::Vanished
    ));
    for unreadable in [ReadOutcome::Refused, ReadOutcome::Failed] {
        assert!(matches!(
            classify_changed_file(unreadable, 3),
            ChangedFileOutcome::Excluded
        ));
    }
}

/// An index of `n` base documents `b0`, `b1`, ...
fn base(n: u32) -> IndexSnapshot {
    let mut w = SegmentWriter::new();
    let mut ids: PathMap<Vec<u32>> = PathMap::new();
    let mut names = PathSet::new();
    let mut paths = Vec::new();
    for i in 0..n {
        let name = format!("b{i}").into_bytes();
        w.add_document(i, &name, 0, 1);
        ids.push_id(&name, i);
        names.insert(&name);
        paths.push(Some(name));
    }
    let image = w.serialize().unwrap();
    let seg =
        MmapSegment::open_split(image.dict, image.post, PostVerify::Full, DictVerify::Full).unwrap();
    let base = BaseSegments {
        segments: vec![seg],
        base_ids: vec![0],
        base_doc_paths: paths,
        path_doc_ids: ids,
    };
    new_snapshot(
        Arc::new(base),
        OverlayView::build(n, Vec::new()).unwrap(),
        RoaringBitmap::new(),
        PathIndex::build(&names.paths),
        HashMap::new(),
    )
}

fn text(content: &[u8]) -> ChangedFile {
    ChangedFile::Indexed { content: content.to_vec(), grams: vec![content.len() as u64] }
}

#[test]
fn a_commit_replaces_adds_and_deletes() {
    let snap = base(10);
    let mut pending = PendingEdits::new();
    pending.notify_change(b"b3");
    pending.notify_change(b"new");
    pending.notify_delete(b"b7");
    let take = pending.take_for_commit();
    let next = commit_batch(&mut pending, &snap, take, vec![text(b"three"), text(b"n")]).unwrap();
    let docs: Vec<(u32, Vec<u8>)> =
        next.overlay.docs.iter().map(|d| (d.doc_id, d.path.clone())).collect();
    assert_eq!(docs, vec![(10, b"b3".to_vec()), (11, b"new".to_vec())]);
    let live: Vec<u32> = next.all_doc_ids().iter().collect();
    assert_eq!(live, vec![0, 1, 2, 4, 5, 6, 8, 9, 10, 11]);
    assert_eq!(next.path_index.file_id(b"b7"), None);
    assert_eq!(next.path_index.file_id(b"b3"), Some(3));
    assert_eq!(next.path_index.file_id(b"new"), Some(10));
    assert_eq!(next.overlay_doc_to_file_id[&11], 10);
    assert!(!pending.has_uncommitted());
}

#[test]
fn files_that_are_left_out_do_not_fill_the_overlay() {
    let snap = base(2);
    let mut pending = PendingEdits::new();
    for p in [&b"x"[..], b"y", b"z"] {
        pending.notify_change(p);
    }
    let take = pending.take_for_commit();
    let outcomes = vec![ChangedFile::Excluded, ChangedFile::Vanished, text(b"zz")];
    let next = commit_batch(&mut pending, &snap, take, outcomes).unwrap();
    assert_eq!(next.overlay.docs.len(), 1);
}

#[test]
fn a_full_overlay_is_reported_with_its_counts() {
    let snap = base(2);
    let mut pending = PendingEdits::new();
    pending.notify_change(b"x");
    pending.notify_change(b"y");
    let take = pending.take_for_commit();
    let result = commit_batch(&mut pending, &snap, take, vec![text(b"x"), text(b"y")]);
    assert!(matches!(
        result.err(),
        Some(IndexError::OverlayFull { overlay_docs: 2, base_docs: 2 })
    ));
    assert_eq!(pending.uncommitted_count(), 2);
}

#[test]
fn a_failed_commit_puts_its_edits_before_newer_ones() {
    let mut index = Index::new(Config::default(), b"/repo".to_vec(), base(2));
    index.notify_change(b"/repo/x", &ParentSight::Plain).unwrap();
    index.notify_change(b"/repo/y", &ParentSight::Plain).unwrap();
    let take = index.begin_commit();
    index.notify_delete(b"/repo/x", &ParentSight::Plain).unwrap();
    let failed = index.commit_batch(take, vec![text(b"x"), text(b"y")], 1);
    assert!(failed.is_err());
    assert_eq!(index.pending.uncommitted_count(), 2);
    assert_eq!(index.snapshot().overlay.docs.len(), 0);
    let take = index.begin_commit();
    assert!(take.newly_deleted.contains(b"x"));
    assert!(take.newly_changed.contains(b"y"));
    index.commit_batch(take, vec![text(b"y")], 2).unwrap();
    assert_eq!(index.snapshot().overlay.docs.len(), 1);
    assert_eq!(index.flush_book.read_epoch, Some(2));
    assert!(index.flush_book.non_doc_paths.contains(b"x"));
    let again = index.begin_commit();
    assert!(again.drained.is_empty());
}

#[test]
fn an_index_without_a_base_has_no_overlay_limit() {
    let snap = new_snapshot(
        Arc::new(BaseSegments::empty()),
        OverlayView::empty(),
        RoaringBitmap::new(),
        PathIndex::build(&Vec::new()),
        HashMap::new(),
    );
    let mut pending = PendingEdits::new();
    pending.notify_change(b"x");
    let take = pending.take_for_commit();
    let next = commit_batch(&mut pending, &snap, take, vec![text(b"x")]).unwrap();
    assert_eq!(next.overlay.docs[0].doc_id, 0);
}

#[test]
fn the_projected_overlay_counts_each_path_once() {
    let file = |p: &[u8]| NewFile {
        path: p.to_vec(),
        content: Arc::new(Vec::new()),
        grams: Vec::new(),
    };
    let view = OverlayView::build(0, vec![file(b"a"), file(b"b"), file(b"c")]).unwrap();
    let set = |ps: &[&[u8]]| {
        let mut s = PathSet::new();
        for p in ps {
            s.insert(p);
        }
        s
    };
    assert_eq!(projected_overlay_doc_count(&view, &set(&[b"a", b"d"]), &set(&[b"b"])), 3);
    assert_eq!(projected_overlay_doc_count(&view, &set(&[b"b", b"d"]), &set(&[b"b"])), 3);
}
