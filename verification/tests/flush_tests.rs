use std::sync::Arc;
use syntext::commit::ChangedFile;
use syntext::config::Config;
use syntext::deletes_idx;
use syntext::error::{Corruption, IndexError};
use syntext::flush::{
    after_flush_commit, flush_overlay_durable, AnchorInputs, FlushAnchor, FlushBookkeeping,
};
use syntext::full_build::{Build, FileResult};
use syntext::index::{load_worktree_anchor, Index};
use syntext::manifest::Manifest;
use syntext::open::{open_inner, SegmentBytes, Sidecars};
use syntext::path_resolve::ParentSight;
use syntext::paths::{PathMap, PathSet};
use syntext::paths_idx;
use syntext::snapshot::IndexSnapshot;
use syntext::worktree_anchor::{Observed, WorktreeAnchor};

const SECOND: u128 = 1_000_000_000;
const NOW: u128 = 5_000 * SECOND;

/// An index of four files `f0` to `f3`, each of its segments with its bytes.
fn base() -> (Manifest, Vec<SegmentBytes>) {
    let mut b = Build::new();
    for i in 0..4u64 {
        let record = (Vec::new(), format!("f{i}").into_bytes(), 1);
        let result = FileResult::Indexed { content_hash: i, grams: vec![100 + i] };
        b.add_batch(&vec![record], &vec![result]).unwrap();
    }
    let files = b
        .files
        .iter()
        .map(|f| SegmentBytes { main: f.image.dict.clone(), post: f.image.post.clone() })
        .collect();
    let mut m = Manifest::new(b.refs, b.next_doc_id, 1);
    m.base_commit = Some(b"commit".to_vec());
    m.overlay_gen = 3;
    (m, files)
}

fn open(m: &Manifest, files: Vec<SegmentBytes>, deletes: Option<Vec<u8>>) -> IndexSnapshot {
    let side = Sidecars { deletes, paths_idx: None };
    open_inner(&Config::default(), m, files, side).expect("opens")
}

fn index() -> (Index, Manifest) {
    let (m, files) = base();
    let s = open(&m, files, None);
    let config = Config::new(b"/index".to_vec(), b"/repo".to_vec());
    (Index::new(config, b"/repo".to_vec(), s), m)
}

fn aged(size: u64) -> Observed {
    Observed::Present { size, mtime_secs: 10, mtime_nanos: 0 }
}

#[test]
fn a_flush_reaches_a_later_process() {
    let (mut index, m) = index();
    index.notify_change(b"/repo/f1", &ParentSight::Plain).unwrap();
    index.notify_change(b"/repo/new", &ParentSight::Plain).unwrap();
    index.notify_delete(b"/repo/f2", &ParentSight::Plain).unwrap();
    let take = index.begin_commit();
    let text = |c: &[u8], g: u64| ChangedFile::Indexed { content: c.to_vec(), grams: vec![g] };
    index.commit_batch(take, vec![text(b"one", 7), text(b"new", 7)], NOW).unwrap();
    let live: Vec<u32> = index.snapshot().all_doc_ids().iter().collect();
    assert_eq!(live, vec![0, 3, 4, 5]);

    let mut observed: PathMap<Observed> = PathMap::new();
    observed.insert(b"f1", aged(3));
    observed.insert(b"new", aged(3));
    observed.insert(b"f2", Observed::Absent);
    let out = index.flush_overlay(&m, observed, NOW, 9).unwrap().expect("something to flush");
    assert_eq!(index.flush_book.read_epoch, None);
    assert_eq!(out.manifest.base_commit, Some(b"commit".to_vec()));
    assert_eq!(out.manifest.overlay_gen, 4);
    assert_eq!(out.manifest.total_files_indexed, 6);
    assert_eq!(out.manifest.created_at, 9);
    assert_eq!(out.manifest.segments.len(), 5);
    assert_eq!(out.manifest.segments[4].base_doc_id, Some(4));

    // Another process opens what was written.
    let (_, mut files) = base();
    files.push(SegmentBytes {
        main: out.files[0].image.dict.clone(),
        post: out.files[0].image.post.clone(),
    });
    for (i, f) in files.iter().enumerate().take(4) {
        assert_eq!(out.manifest.segments[i].post_len, Some(f.post.len() as u64));
    }
    let deletes = out.deletes.as_ref().map(|d| d.bytes.clone());
    let again = open(&out.manifest, files, deletes);
    let live: Vec<u32> = again.all_doc_ids().iter().collect();
    assert_eq!(live, vec![0, 3, 4, 5]);
    let seg = &again.base_segments()[4];
    assert_eq!(seg.get_doc(0).unwrap().path, b"f1");
    assert_eq!(
        seg.get_doc(1).unwrap().content_hash,
        xxhash_rust::xxh64::xxh64(b"new", 0)
    );
    assert_eq!(seg.lookup_gram(7).unwrap().to_vec().unwrap(), vec![4, 5]);

    // The flushed paths do not count as changed.
    let anchor = out.anchor.as_ref().expect("an anchor");
    assert_eq!(out.manifest.worktree_anchor_file.as_ref(), Some(&anchor.name));
    let m2 = Some(out.manifest);
    let loaded = load_worktree_anchor(&m2, &Some(anchor.bytes.clone()));
    assert_eq!(loaded.len(), 3);
    assert!(loaded.is_unchanged(b"f1", Some(aged(3))));
    assert!(loaded.is_unchanged(b"f2", Some(Observed::Absent)));
    assert!(!loaded.is_unchanged(b"f1", Some(aged(4))));
    assert!(load_worktree_anchor(&m2, &Some(b"junk".to_vec())).is_empty());
    assert!(load_worktree_anchor(&None, &None).is_empty());
}

#[test]
fn nothing_to_flush_writes_nothing() {
    let (mut index, m) = index();
    assert!(index.flush_overlay(&m, PathMap::new(), NOW, 0).unwrap().is_none());
}

#[test]
fn a_commit_of_deletions_alone_is_flushed_too() {
    let (mut index, m) = index();
    index.notify_delete(b"/repo/f0", &ParentSight::Plain).unwrap();
    let take = index.begin_commit();
    index.commit_batch(take, Vec::new(), NOW).unwrap();
    let mut observed: PathMap<Observed> = PathMap::new();
    observed.insert(b"f0", Observed::Absent);
    let out = index.flush_overlay(&m, observed, NOW, 0).unwrap().expect("a flush");
    assert!(out.files.is_empty());
    assert_eq!(out.manifest.segments.len(), 4);
    let deletes = out.deletes.expect("a delete set");
    assert_eq!(out.manifest.overlay_deletes_file.as_ref(), Some(&deletes.name));
    let gone = deletes_idx::read_deletes_idx(&deletes.name, &deletes.bytes).unwrap();
    assert_eq!(gone.iter().collect::<Vec<u32>>(), vec![0]);
    assert!(out.anchor.is_some());
}

fn inputs(read_epoch: Option<u128>) -> AnchorInputs {
    AnchorInputs {
        book: FlushBookkeeping { read_epoch, non_doc_paths: PathSet::new() },
        previous: WorktreeAnchor::new(),
        observed: PathMap::new(),
        now: NOW,
    }
}

#[test]
fn flushes_of_commits_record_the_head() {
    let (index, m) = index();
    let head = FlushAnchor::AdvanceHead(Some(b"next".to_vec()));
    let out = flush_overlay_durable(&index.snapshot, &m, head, &inputs(None), 0).unwrap();
    assert_eq!(out.manifest.base_commit, Some(b"next".to_vec()));
    assert!(out.anchor.is_none());
    assert!(out.deletes.is_none());
    assert_eq!(out.manifest.paths_idx_version, Some(paths_idx::FORMAT_VERSION));
    let saved = out.final_manifest(true, false);
    assert_eq!(saved.paths_idx_version, None);
}

#[test]
fn a_manifest_of_another_base_is_refused() {
    let (index, mut m) = index();
    m.segments.pop();
    let r = flush_overlay_durable(&index.snapshot, &m, FlushAnchor::KeepHead, &inputs(None), 0);
    assert!(matches!(
        r.err(),
        Some(IndexError::CorruptIndex(Corruption::IndexChanged))
    ));
}

#[test]
fn a_full_overlay_leaves_nothing_to_flush() {
    assert!(matches!(after_flush_commit(Ok(())), Ok(true)));
    let full = IndexError::OverlayFull { overlay_docs: 1, base_docs: 1 };
    assert!(matches!(after_flush_commit(Err(full)), Ok(false)));
    let other = IndexError::PathOutsideRepo(Vec::new());
    assert!(after_flush_commit(Err(other)).is_err());
}

#[test]
fn the_first_commit_sets_the_time() {
    let mut book = FlushBookkeeping::default();
    let mut paths = PathSet::new();
    paths.insert(b"a");
    assert!(!book.has_flush_bookkeeping());
    book.note_commit_for_flush(5, &PathSet::new());
    book.note_commit_for_flush(9, &paths);
    assert_eq!(book.read_epoch, Some(5));
    assert!(book.has_flush_bookkeeping());
    let taken = book.take_anchor_inputs();
    assert_eq!(taken.read_epoch, Some(5));
    assert!(!book.has_flush_bookkeeping());
    assert_eq!(book.read_epoch, None);
}

#[test]
fn compactions_are_asked_for_or_needed() {
    let (mut index, m) = index();
    assert!(index.maybe_compact(&m, None, 0).unwrap().is_none());
    assert!(index.compact(&m, None, 0).unwrap().is_none());
    index.config.max_segments = 2;
    let out = index.maybe_compact(&m, Some(b"h".to_vec()), 1).unwrap().expect("needed");
    assert_eq!(out.manifest.segments.len(), 2);
    assert_eq!(out.manifest.total_files_indexed, 4);
    let stats = index.stats(&None, None, &Vec::new());
    assert_eq!(stats.total_documents, 4);
    let sealed = m.seal(b"m");
    assert!(index.verify(&sealed, &None).is_ok());
    let _shared: Arc<IndexSnapshot> = index.snapshot();
}
