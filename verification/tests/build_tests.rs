use syntext::config::Config;
use syntext::error::IndexError;
use syntext::full_build::{
    build_index_from_file_list, is_dense, scan_file, Build, FileResult, Scan,
};
use syntext::open::{open_inner, SegmentBytes, Sidecars};
use syntext::stats::{compute_stats, SegmentSizes};
use syntext::summary::format_build_summary;
use syntext::walk::{split_batches, FileRecord};

#[test]
fn build_summary_omits_skips_when_none() {
    assert_eq!(
        format_build_summary(10, 1, 0, 0, 0),
        "syntext: indexed 10 files into 1 segment(s)"
    );
}

#[test]
fn build_summary_breaks_down_skips_by_reason() {
    assert_eq!(
        format_build_summary(3802, 1, 240, 20, 3),
        "syntext: indexed 3802 files into 1 segment(s) \
         (skipped 263: 240 binary, 20 unreadable, 3 too large)"
    );
    assert_eq!(
        format_build_summary(5, 2, 0, 0, 1),
        "syntext: indexed 5 files into 2 segment(s) (skipped 1: 1 too large)"
    );
}

fn record(name: &str, size: u64) -> FileRecord {
    (format!("/repo/{name}").into_bytes(), name.as_bytes().to_vec(), size)
}

fn indexed(gram: u64) -> FileResult {
    FileResult::Indexed { content_hash: gram, grams: vec![gram, 1, gram] }
}

#[test]
fn files_are_scanned_by_path_then_content() {
    assert!(matches!(scan_file(&vec![b'p'; 65_536], None), Scan::OversizedPath));
    assert!(matches!(scan_file(b"a", None), Scan::Unreadable));
    assert!(matches!(scan_file(b"a", Some(b"x\0")), Scan::Binary));
    match scan_file(b"a", Some(b"\xEF\xBB\xBFhi")) {
        Scan::Text { content, content_hash } => {
            assert_eq!(content, b"hi");
            assert_eq!(content_hash, xxhash_rust::xxh64::xxh64(b"hi", 0));
        }
        other => panic!("expected text, got {other:?}"),
    }
}

fn build() -> syntext::full_build::BuiltIndex {
    let files = vec![
        record("a", 5),
        record("b", 5),
        record("c", 8),
        record("d", 9),
        record("e", 1),
    ];
    assert_eq!(split_batches(&files, 10).len(), 3);
    let results = vec![
        vec![indexed(10), FileResult::Binary],
        vec![indexed(30)],
        vec![FileResult::Unreadable, indexed(50)],
    ];
    build_index_from_file_list(&files, &results, 10, Some(b"head".to_vec()), 7)
        .expect("builds")
}

#[test]
fn builds_number_documents_across_batches() {
    let out = build();
    let m = &out.manifest;
    assert_eq!(m.total_files_indexed, 3);
    assert_eq!(m.base_commit, Some(b"head".to_vec()));
    assert_eq!(m.created_at, 7);
    let bases: Vec<Option<u32>> = m.segments.iter().map(|r| r.base_doc_id).collect();
    assert_eq!(bases, vec![Some(0), Some(1), Some(2)]);
    assert_eq!(out.skipped.binary, 1);
    assert_eq!(out.skipped.unreadable, 1);
    assert_eq!(out.skipped.oversized_path, 0);
    assert_eq!(out.path_index.file_id(b"c"), Some(1));
    assert_eq!(out.path_index.file_id(b"b"), None);
}

#[test]
fn built_segments_open_and_are_counted() {
    let out = build();
    let contents: Vec<SegmentBytes> = out
        .files
        .iter()
        .map(|f| SegmentBytes { main: f.image.dict.clone(), post: f.image.post.clone() })
        .collect();
    let sizes: Vec<SegmentSizes> = out
        .files
        .iter()
        .map(|f| SegmentSizes {
            dict: Some(f.image.dict.len() as u64),
            post: Some(f.image.post.len() as u64),
            single: Some(1_000_000),
        })
        .collect();
    let expected: u64 = sizes.iter().map(|s| s.dict.unwrap() + s.post.unwrap()).sum();
    let none = Sidecars { deletes: None, paths_idx: None };
    let snap = open_inner(&Config::default(), &out.manifest, contents, none).expect("opens");
    assert_eq!(snap.all_doc_ids().iter().collect::<Vec<u32>>(), vec![0, 1, 2]);
    assert_eq!(snap.path_index.file_id(b"e"), Some(2));
    let seg = &snap.base_segments()[2];
    assert_eq!(seg.get_doc(0).unwrap().path, b"e");
    assert_eq!(seg.lookup_gram(50).unwrap().to_vec().unwrap(), vec![2]);
    assert_eq!(seg.gram_cardinality(50), Some(1));

    let stats = compute_stats(&snap, &Some(out.manifest), Some(100), &sizes, 4);
    assert_eq!(stats.total_documents, 3);
    assert_eq!(stats.total_segments, 3);
    assert_eq!(stats.total_grams, 6);
    assert_eq!(stats.index_size_bytes, expected + 100);
    assert_eq!(stats.base_commit, Some(b"head".to_vec()));
    assert_eq!(stats.overlay_generations, 0);
    assert_eq!(stats.pending_edits, 4);
    let bare = compute_stats(&snap, &None, None, &Vec::new(), 0);
    assert_eq!(bare.index_size_bytes, 0);
    assert_eq!(bare.base_commit, None);
}

#[test]
fn a_batch_without_documents_gives_no_segment() {
    let mut b = Build::new();
    b.add_batch(&vec![record("a", 1)], &vec![FileResult::OversizedPath]).unwrap();
    assert!(b.refs.is_empty());
    assert_eq!(b.skipped.oversized_path, 1);
    assert_eq!(b.next_doc_id, 0);
}

#[test]
fn ids_that_run_out_fail_the_batch_and_change_nothing() {
    let mut b = Build::new();
    b.next_doc_id = u32::MAX;
    let r = b.add_batch(&vec![record("a", 1)], &vec![indexed(1)]);
    assert!(matches!(
        r.err(),
        Some(IndexError::DocIdOverflow { base_doc_count: u32::MAX, overlay_docs: 0 })
    ));
    assert!(b.refs.is_empty());
    assert_eq!(b.next_doc_id, u32::MAX);
}

#[test]
fn dense_segments_are_noticed() {
    assert!(is_dense(51, 100));
    assert!(!is_dense(50, 100));
    assert!(!is_dense(50, 0));
    assert!(is_dense(1, 1));
}
