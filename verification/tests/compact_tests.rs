use roaring::RoaringBitmap;
use std::sync::Arc;
use syntext::compact_index::{compact_index, manifest_segment_bases};
use syntext::compact_plan::{
    forced_plan, plan, CompactionPlan, CompactionReason, BATCH_SIZE_BYTES,
};
use syntext::config::Config;
use syntext::error::{Corruption, IndexError};
use syntext::manifest::{Manifest, SegmentRef};
use syntext::open::{open_inner, SegmentBytes, Sidecars};
use syntext::overlay::{NewFile, OverlayView};
use syntext::path_index::PathIndex;
use syntext::paths::{PathMap, PathSet};
use syntext::paths_idx;
use syntext::segment::reader::{DictVerify, MmapSegment, PostVerify};
use syntext::segment::writer::SegmentWriter;
use syntext::snapshot::{map_overlay_docs, new_snapshot, BaseSegments, IndexSnapshot};

fn build_snapshot(
    segments: &[Vec<(u32, &'static str, u64)>],
    overlay: OverlayView,
    delete_set: RoaringBitmap,
) -> (IndexSnapshot, Vec<SegmentRef>) {
    let mut opened = Vec::new();
    let mut refs = Vec::new();
    let mut base_ids = Vec::new();
    let mut base_doc_paths: Vec<Option<Vec<u8>>> = Vec::new();
    let mut path_doc_ids: PathMap<Vec<u32>> = PathMap::new();
    let mut all = PathSet::new();
    let mut total_docs = 0u32;
    for docs in segments {
        let mut writer = SegmentWriter::new();
        base_ids.push(docs.first().map(|doc| doc.0).unwrap_or(total_docs));
        for &(doc_id, path, size_bytes) in docs {
            writer.add_document(doc_id, path.as_bytes(), doc_id as u64, size_bytes);
            if base_doc_paths.len() <= doc_id as usize {
                base_doc_paths.resize(doc_id as usize + 1, None);
            }
            base_doc_paths[doc_id as usize] = Some(path.as_bytes().to_vec());
            path_doc_ids.push_id(path.as_bytes(), doc_id);
            all.insert(path.as_bytes());
            total_docs = total_docs.max(doc_id.saturating_add(1));
        }
        let (meta, image) = writer.write_to_dir().expect("written");
        refs.push(SegmentRef::from_meta(meta, None));
        opened.push(
            MmapSegment::open_split(image.dict, image.post, PostVerify::Full, DictVerify::Full)
                .expect("opens"),
        );
    }
    let path_index = PathIndex::build(&all.paths);
    let ids = map_overlay_docs(&overlay, &path_index);
    let base = BaseSegments {
        segments: opened,
        base_ids,
        base_doc_paths,
        path_doc_ids,
    };
    (new_snapshot(Arc::new(base), overlay, delete_set, path_index, ids), refs)
}

fn file(path: &str, content: &[u8]) -> NewFile {
    NewFile {
        path: path.as_bytes().to_vec(),
        content: Arc::new(content.to_vec()),
        grams: vec![content.len() as u64],
    }
}

#[test]
fn plan_uses_segment_limit_and_snapshot_sizes() {
    let (snapshot, _) = build_snapshot(
        &[
            vec![(0, "a.rs", 300_000_000)],
            vec![(1, "b.rs", 400_000_000)],
            vec![(2, "c.rs", 500_000_000)],
        ],
        OverlayView::empty(),
        RoaringBitmap::new(),
    );
    let config = Config {
        max_segments: 2,
        ..Config::default()
    };
    let plan = plan(&snapshot, &config).unwrap();
    assert_eq!(plan.reason, CompactionReason::SegmentLimit);
    assert_eq!(plan.suffix_start, 1);
    assert_eq!(plan.target_segments, 1);
    assert_eq!(plan.batch_size_bytes, 900_000_000);
}

#[test]
fn plan_ignores_deleted_base_docs_when_sizing() {
    let mut delete_set = RoaringBitmap::new();
    delete_set.insert(0);
    let (snapshot, _) = build_snapshot(
        &[
            vec![(0, "a.rs", 300_000_000)],
            vec![(1, "b.rs", 500_000_000)],
        ],
        OverlayView::empty(),
        delete_set,
    );
    let config = Config {
        max_segments: 1,
        ..Config::default()
    };
    let plan = plan(&snapshot, &config).unwrap();
    assert_eq!(plan.reason, CompactionReason::SegmentLimit);
    assert_eq!(plan.suffix_start, 0);
    assert_eq!(plan.batch_size_bytes, 500_000_000);
}

fn ten_segments() -> Vec<Vec<(u32, &'static str, u64)>> {
    let names = [
        "base_0.rs", "base_1.rs", "base_2.rs", "base_3.rs", "base_4.rs", "base_5.rs", "base_6.rs",
        "base_7.rs", "base_8.rs", "base_9.rs",
    ];
    names.iter().enumerate().map(|(i, n)| vec![(i as u32, *n, 10)]).collect()
}

fn two_dirty() -> OverlayView {
    OverlayView::build(
        10,
        vec![
            file("dirty_1.rs", b"fn dirty_1() {}\n"),
            file("dirty_2.rs", b"fn dirty_2() {}\n"),
        ],
    )
    .unwrap()
}

#[test]
fn plan_prioritizes_overlay_ratio_trigger() {
    let (snapshot, _) = build_snapshot(&ten_segments(), two_dirty(), RoaringBitmap::new());
    let config = Config {
        max_segments: 20,
        ..Config::default()
    };
    let plan = plan(&snapshot, &config).unwrap();
    assert_eq!(plan.reason, CompactionReason::OverlayRatio);
    assert_eq!(plan.suffix_start, 10);
    assert_eq!(plan.target_segments, 1);
    assert_eq!(plan.batch_size_bytes, BATCH_SIZE_BYTES);
}

fn three_segments() -> Vec<Vec<(u32, &'static str, u64)>> {
    vec![vec![(0, "a.rs", 10)], vec![(1, "b.rs", 10)], vec![(2, "c.rs", 10)]]
}

#[test]
fn forced_plan_rewrites_from_earliest_deleted_segment() {
    let mut delete_set = RoaringBitmap::new();
    delete_set.insert(1);
    let (snapshot, _) = build_snapshot(&three_segments(), OverlayView::empty(), delete_set);
    let config = Config {
        max_segments: 10,
        ..Config::default()
    };
    let plan = forced_plan(&snapshot, &config).unwrap();
    assert_eq!(plan.reason, CompactionReason::ExplicitRequest);
    assert_eq!(plan.suffix_start, 1);
    assert_eq!(plan.target_segments, 1);
}

#[test]
fn nothing_is_planned_without_need() {
    let (snapshot, _) =
        build_snapshot(&three_segments(), OverlayView::empty(), RoaringBitmap::new());
    let config = Config::default();
    assert!(plan(&snapshot, &config).is_none());
    assert!(forced_plan(&snapshot, &config).is_none());
}

fn request(suffix_start: usize) -> CompactionPlan {
    CompactionPlan {
        reason: CompactionReason::ExplicitRequest,
        suffix_start,
        batch_size_bytes: 1,
        target_segments: 1,
    }
}

#[test]
fn compact_rejects_snapshot_manifest_base_id_divergence() {
    let (snapshot, mut seg_refs) = build_snapshot(
        &[vec![(0, "a.rs", 10)]],
        OverlayView::empty(),
        RoaringBitmap::new(),
    );
    seg_refs[0].base_doc_id = Some(7);
    let manifest = Manifest::new(seg_refs, 1, 0);
    let result = compact_index(&snapshot, &manifest, &request(0), None, 0);
    let err = match result {
        Err(IndexError::CorruptIndex(c)) => c,
        Ok(_) => panic!("expected CorruptIndex for base-id divergence, got Ok(_)"),
        Err(other) => panic!("expected CorruptIndex for base-id divergence, got {other:?}"),
    };
    assert_eq!(
        err,
        Corruption::BaseIdDiverges { segment: 0, snapshot_base: 0, manifest_base: 7 }
    );
}

#[test]
fn compaction_folds_the_overlay_in_and_drops_deleted_documents() {
    let mut delete_set = RoaringBitmap::new();
    delete_set.insert(1);
    let overlay = OverlayView::build(3, vec![file("b.rs", b"new b")]).unwrap();
    let (snapshot, refs) = build_snapshot(&three_segments(), overlay, delete_set);
    let previous = Manifest::new(refs, 3, 0);
    let plan = CompactionPlan { batch_size_bytes: 1000, ..request(1) };
    let head = Some(b"head".to_vec());
    let out = compact_index(&snapshot, &previous, &plan, head, 5).unwrap();
    assert_eq!(out.manifest.segments.len(), 2);
    assert_eq!(out.manifest.segments[0].segment_id, previous.segments[0].segment_id);
    assert_eq!(out.manifest.segments[1].base_doc_id, Some(1));
    assert_eq!(out.manifest.total_files_indexed, 3);
    assert_eq!(out.manifest.total_docs(), 3);
    assert_eq!(out.manifest.base_commit, Some(b"head".to_vec()));
    assert_eq!(out.manifest.created_at, 5);
    assert_eq!(out.manifest.paths_idx_version, Some(paths_idx::FORMAT_VERSION));
    let f = &out.files[0].image;
    let seg = MmapSegment::open_split(
        f.dict.clone(),
        f.post.clone(),
        PostVerify::Full,
        DictVerify::Full,
    )
    .unwrap();
    let docs: Vec<(u32, Vec<u8>)> = (0..seg.doc_count)
        .map(|i| seg.get_doc(i).unwrap())
        .map(|d| (d.doc_id, d.path))
        .collect();
    assert_eq!(docs, vec![(1, b"c.rs".to_vec()), (2, b"b.rs".to_vec())]);
    assert_eq!(seg.lookup_gram(5).unwrap().to_vec().unwrap(), vec![2]);
}

#[test]
fn small_batches_give_one_segment_per_document() {
    let (snapshot, refs) =
        build_snapshot(&three_segments(), OverlayView::empty(), RoaringBitmap::new());
    let previous = Manifest::new(refs, 3, 0);
    let out = compact_index(&snapshot, &previous, &request(0), None, 0).unwrap();
    let bases: Vec<Option<u32>> = out.manifest.segments.iter().map(|r| r.base_doc_id).collect();
    assert_eq!(bases, vec![Some(0), Some(1), Some(2)]);
}

#[test]
fn a_plan_beyond_the_segments_is_refused() {
    let (snapshot, refs) =
        build_snapshot(&three_segments(), OverlayView::empty(), RoaringBitmap::new());
    let previous = Manifest::new(refs, 3, 0);
    assert!(matches!(
        compact_index(&snapshot, &previous, &request(4), None, 0).err(),
        Some(IndexError::CorruptIndex(Corruption::SuffixTooLong { suffix: 4, segments: 3 }))
    ));
    let fewer = Manifest::new(Vec::new(), 0, 0);
    assert!(matches!(
        compact_index(&snapshot, &fewer, &request(0), None, 0).err(),
        Some(IndexError::CorruptIndex(Corruption::SegmentCountDiverges {
            in_snapshot: 3,
            in_manifest: 0
        }))
    ));
}

#[test]
fn segments_without_a_base_follow_the_one_before() {
    let (_, mut refs) =
        build_snapshot(&three_segments(), OverlayView::empty(), RoaringBitmap::new());
    refs[1].base_doc_id = Some(5);
    assert_eq!(manifest_segment_bases(&refs), vec![0, 5, 6]);
    refs[2].base_doc_id = Some(5);
    assert_eq!(manifest_segment_bases(&refs), vec![0, 5, 5]);
}

#[test]
fn a_compacted_index_opens() {
    let overlay = OverlayView::build(3, vec![file("d.rs", b"new d")]).unwrap();
    let mut delete_set = RoaringBitmap::new();
    delete_set.insert(0);
    let (snapshot, refs) = build_snapshot(&three_segments(), overlay, delete_set);
    let previous = Manifest::new(refs, 3, 0);
    let out = compact_index(&snapshot, &previous, &request(0), None, 0).unwrap();
    let contents = out
        .files
        .iter()
        .map(|f| SegmentBytes { main: f.image.dict.clone(), post: f.image.post.clone() })
        .collect();
    let none = Sidecars { deletes: None, paths_idx: None };
    let config = Config { verify_on_open: true, ..Config::default() };
    let opened = open_inner(&config, &out.manifest, contents, none).expect("opens");
    let paths: Vec<Option<&[u8]>> =
        opened.base.base_doc_paths.iter().map(|p| p.as_deref()).collect();
    let expected: Vec<Option<&[u8]>> = vec![Some(b"b.rs"), Some(b"c.rs"), Some(b"d.rs")];
    assert_eq!(paths, expected);
    assert!(opened.delete_set.is_empty());
}

#[test]
fn a_manifest_with_overlapping_ranges_is_compacted() {
    let (snapshot, mut refs) =
        build_snapshot(&three_segments(), OverlayView::empty(), RoaringBitmap::new());
    refs[1].doc_count = 7;
    refs[2].base_doc_id = Some(2);
    let previous = Manifest::new(refs, 9, 0);
    let out = compact_index(&snapshot, &previous, &request(1), None, 0).unwrap();
    let bases: Vec<Option<u32>> = out.manifest.segments.iter().map(|r| r.base_doc_id).collect();
    assert_eq!(bases, vec![Some(0), Some(1), Some(2)]);
    assert_eq!(out.manifest.total_files_indexed, 3);
}
