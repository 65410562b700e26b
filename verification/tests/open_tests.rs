use roaring::RoaringBitmap;
use std::sync::Arc;
use syntext::commit::{base_doc_id_limit, commit_batch, ChangedFile};
use syntext::compact_index::compact_index;
use syntext::compact_plan::{CompactionPlan, CompactionReason};
use syntext::byte_map::ByteMap;
use syntext::config::Config;
use syntext::deletes_idx;
use syntext::error::{Corruption, IndexError};
use syntext::manifest::{Manifest, SegmentRef};
use syntext::open::{
    check_permissions, open_inner, segment_files, verify, SegmentBytes, SegmentFiles, Sidecars,
};
use syntext::overlay::OverlayView;
use syntext::path_index::PathIndex;
use syntext::paths::PathMap;
use syntext::paths_idx;
use syntext::paths_idx::PathsIdx;
use syntext::pending::PendingEdits;
use syntext::segment::reader::MmapSegment;
use syntext::segment::writer::SegmentWriter;
use syntext::snapshot::{new_snapshot, BaseSegments, IndexSnapshot};
use std::collections::HashMap;

const NEEDLE: u64 = 77;

/// A segment with one document.
fn segment(doc_id: u32, path: &str, gram: u64) -> (SegmentRef, SegmentBytes) {
    let mut w = SegmentWriter::new();
    w.add_document(doc_id, path.as_bytes(), 1, 10);
    w.add_gram_posting(gram, doc_id);
    let (meta, image) = w.write_to_dir().unwrap();
    let bytes = SegmentBytes { main: image.dict, post: image.post };
    (SegmentRef::from_meta(meta, Some(doc_id)), bytes)
}

fn none() -> Sidecars {
    Sidecars { deletes: None, paths_idx: None }
}

/// Two segments with a gap between their ids.
fn sparse() -> (Manifest, Vec<SegmentBytes>) {
    let (a, fa) = segment(0, "a.rs", NEEDLE);
    let (b, fb) = segment(5, "b.rs", NEEDLE + 1);
    (Manifest::new(vec![a, b], 2, 0), vec![fa, fb])
}

fn opened() -> (IndexSnapshot, Manifest) {
    let (m, files) = sparse();
    let s = open_inner(&Config::default(), &m, files, none()).expect("opens");
    (s, m)
}

fn hits(s: &IndexSnapshot, gram: u64) -> usize {
    s.base_segments()
        .iter()
        .filter_map(|seg| seg.lookup_gram(gram))
        .map(|list| list.to_vec().unwrap().len())
        .sum()
}

#[test]
fn open_accepts_manifest_with_gapped_base_doc_ids() {
    let (snapshot, _) = opened();
    assert_eq!(snapshot.segment_base_ids(), &[0, 5]);
    let all_doc_ids: Vec<u32> = snapshot.all_doc_ids().iter().collect();
    assert_eq!(all_doc_ids, vec![0, 5]);
    assert_eq!(hits(&snapshot, NEEDLE), 1);
    assert_eq!(hits(&snapshot, NEEDLE + 1), 1);
}

#[test]
fn commit_batch_overlay_ids_start_after_max_base_doc_id() {
    let (snap, _) = opened();
    let mut pending = PendingEdits::new();
    pending.notify_change(b"c.rs");
    let take = pending.take_for_commit();
    let outcome = ChangedFile::Indexed { content: b"fn gamma() {}\n".to_vec(), grams: vec![9] };
    let next = commit_batch(&mut pending, &snap, take, vec![outcome]).unwrap();
    let overlay_ids: Vec<u32> = next.overlay.docs.iter().map(|doc| doc.doc_id).collect();
    assert_eq!(overlay_ids, vec![6]);
}

#[test]
fn compact_preserves_actual_total_files_for_gapped_prefix_manifest() {
    let (snapshot, m) = opened();
    let plan = CompactionPlan {
        reason: CompactionReason::ExplicitRequest,
        suffix_start: 1,
        batch_size_bytes: 1000,
        target_segments: 1,
    };
    let manifest = compact_index(&snapshot, &m, &plan, None, 0).unwrap().manifest;
    assert_eq!(
        manifest.total_files_indexed, 2,
        "compact() must record actual live file count, not max doc_id + 1, when base ranges are sparse"
    );
    assert_eq!(
        manifest.total_docs(),
        manifest.total_files_indexed,
        "manifest doc_count sum and reported total files should stay aligned after gapped compaction"
    );
}

#[test]
fn base_doc_id_limit_overflow_returns_error() {
    let (_, bytes) = segment(0, "a.rs", 1);
    let seg = MmapSegment::open(bytes.main).unwrap();
    assert_eq!(seg.doc_count, 1);

    // The base is the last id, so base plus count is one too many.
    let base = BaseSegments {
        segments: vec![seg],
        base_ids: vec![u32::MAX],
        base_doc_paths: vec![],
        path_doc_ids: PathMap::new(),
    };
    let snap = new_snapshot(
        Arc::new(base),
        OverlayView::empty(),
        RoaringBitmap::new(),
        PathIndex::build(&Vec::new()),
        HashMap::new(),
    );
    let result = base_doc_id_limit(&snap);
    assert!(
        result.is_err(),
        "base_doc_id_limit must return Err on overflow, not silently drop"
    );
    assert!(matches!(
        result.err(),
        Some(IndexError::DocIdOverflow { base_doc_count: u32::MAX, overlay_docs: 1 })
    ));
}

#[test]
fn overlapping_base_doc_ids_rejected_on_open() {
    let (a, fa) = segment(0, "a.rs", 1);
    let (b, fb) = segment(0, "b.rs", 2);
    let m = Manifest::new(vec![a, b], 2, 0);
    let result = open_inner(&Config::default(), &m, vec![fa, fb], none());
    assert!(matches!(
        result.err(),
        Some(IndexError::CorruptIndex(Corruption::BaseDocIdRegresses { base: 0, end: 1 }))
    ));
}

#[test]
fn a_changed_postings_length_is_reported() {
    let (a, mut fa) = segment(0, "a.rs", 1);
    let actual = fa.post.len() as u64 - 1;
    fa.post.pop();
    let m = Manifest::new(vec![a], 1, 0);
    match open_inner(&Config::default(), &m, vec![fa], none()) {
        Err(IndexError::CorruptIndex(Corruption::PostLengthChanged { expected, actual: got })) => {
            assert_eq!(expected, actual + 1);
            assert_eq!(got, actual);
        }
        other => panic!("expected a changed length, got {:?}", other.err()),
    }
}

#[test]
fn only_full_checks_read_the_postings() {
    let (a, fa) = segment(0, "a.rs", 1);
    let corrupt = || {
        let mut post = fa.post.clone();
        post[9] ^= 0xFF;
        SegmentBytes { main: fa.main.clone(), post }
    };
    let m = Manifest::new(vec![a], 1, 0).seal(b"text");
    let snap = open_inner(&Config::default(), &m, vec![corrupt()], none()).expect("opens");
    assert!(matches!(
        verify(&snap, &m, &None).err(),
        Some(IndexError::CorruptIndex(Corruption::PostChecksumMismatch))
    ));
    let strict = Config { verify_on_open: true, ..Config::default() };
    assert!(open_inner(&strict, &m, vec![corrupt()], none()).is_err());
}

#[test]
fn a_document_out_of_place_is_refused() {
    let (mut a, fa) = segment(3, "a.rs", 1);
    a.base_doc_id = Some(2);
    let m = Manifest::new(vec![a], 1, 0);
    assert!(matches!(
        open_inner(&Config::default(), &m, vec![fa], none()).err(),
        Some(IndexError::CorruptIndex(Corruption::DocIdMismatch { found: 3, wanted: 2 }))
    ));
}

#[test]
fn open_rejects_permissive_index_dir_mode() {
    let strict = Config { strict_permissions: true, ..Config::default() };
    assert!(matches!(
        check_permissions(0o755, &strict).err(),
        Some(IndexError::CorruptIndex(Corruption::PermissiveMode { mode: 0o755 }))
    ));
    assert!(check_permissions(0o700, &strict).is_ok());
}

#[test]
fn open_allows_permissive_mode_when_strict_permissions_disabled() {
    let relaxed = Config { strict_permissions: false, ..Config::default() };
    assert!(check_permissions(0o755, &relaxed).is_ok());
}

#[test]
fn segment_names_must_stay_in_the_directory() {
    let (mut a, _) = segment(0, "a.rs", 1);
    assert!(matches!(segment_files(&a, 0), Ok(SegmentFiles::Split { .. })));
    a.dict_filename = b"../x.dict".to_vec();
    assert!(matches!(
        segment_files(&a, 4).err(),
        Some(IndexError::CorruptIndex(Corruption::InvalidSegmentFilename { segment: 4 }))
    ));
}

#[test]
fn the_delete_set_is_read_or_the_index_refused() {
    let (mut m, files) = sparse();
    let name = deletes_idx::new_filename();
    let gone: RoaringBitmap = [5u32].into_iter().collect();
    let bytes = deletes_idx::write_deletes_idx(&name, &gone).unwrap();
    m.overlay_deletes_file = Some(name);
    let side = Sidecars { deletes: Some(bytes.clone()), paths_idx: None };
    let s = open_inner(&Config::default(), &m, files, side).unwrap();
    assert_eq!(s.all_doc_ids().iter().collect::<Vec<u32>>(), vec![0]);
    let m = m.seal(b"text");
    assert!(verify(&s, &m, &Some(bytes)).is_ok());
    assert!(matches!(
        verify(&s, &m, &Some(b"junk".to_vec())).err(),
        Some(IndexError::CorruptIndex(Corruption::DeletesUnreadable))
    ));
    let (_, files) = sparse();
    let lost = open_inner(&Config::default(), &m, files, none());
    assert!(lost.is_err());
}

#[test]
fn a_manifest_without_a_checksum_does_not_verify() {
    let (s, m) = opened();
    assert!(matches!(
        verify(&s, &m, &None).err(),
        Some(IndexError::CorruptIndex(Corruption::MissingChecksum))
    ));
    let sealed = m.seal(b"text");
    assert!(verify(&s, &sealed, &None).is_ok());
}

#[test]
fn a_path_list_counts_only_with_its_version() {
    let cache = PathsIdx {
        paths: vec![b"a.rs".to_vec(), b"b.rs".to_vec(), b"from-cache.rs".to_vec()],
        extensions: ByteMap::new(),
        components: ByteMap::new(),
    };
    let bytes = paths_idx::encode(&cache).unwrap();
    for (version, cached) in [(Some(paths_idx::FORMAT_VERSION), true), (Some(99), false), (None, false)] {
        let (mut m, files) = sparse();
        m.paths_idx_version = version;
        let side = Sidecars { deletes: None, paths_idx: Some(bytes.clone()) };
        let s = open_inner(&Config::default(), &m, files, side).unwrap();
        assert_eq!(s.path_index.file_id(b"from-cache.rs").is_some(), cached);
        assert_eq!(s.path_index.file_id(b"b.rs"), Some(1));
    }
}
