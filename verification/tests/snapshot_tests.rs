use roaring::RoaringBitmap;
use std::sync::Arc;
use syntext::index::Index;
use syntext::path_index::PathIndex;
use syntext::paths::{PathMap, PathSet};
use syntext::snapshot::{BaseSegments, IndexSnapshot, PostingCache};

fn bitmap(id: u32) -> Arc<RoaringBitmap> {
    Arc::new(RoaringBitmap::from_iter([id]))
}

#[test]
fn posting_cache_evicts_oldest_first_under_byte_budget() {
    let mut cache = PostingCache::new();
    let one = bitmap(0).serialized_size();
    let budget = one * 2;

    cache.insert_with_budget(0, bitmap(0), budget);
    cache.insert_with_budget(1, bitmap(1), budget);
    cache.insert_with_budget(2, bitmap(2), budget);

    assert!(cache.get(0).is_none(), "oldest entry must be evicted");
    assert!(
        cache.get(1).is_some(),
        "recent entry must survive the cliff"
    );
    assert!(cache.get(2).is_some(), "newest entry must be present");
    assert!(cache.bytes() <= budget, "byte total stays bounded");
}

#[test]
fn posting_cache_keeps_new_entry_even_if_alone_over_budget() {
    let mut cache = PostingCache::new();
    cache.insert_with_budget(7, bitmap(7), 0);
    assert!(cache.get(7).is_some());
}

#[test]
fn posting_cache_dedups_and_returns_existing() {
    let mut cache = PostingCache::new();
    let first = cache.insert(3, bitmap(3));
    let second = cache.insert(3, bitmap(3));
    assert!(Arc::ptr_eq(&first, &second), "duplicate returns stored Arc");
    assert_eq!(cache.len(), 1);
}

#[test]
fn index_is_send_sync() {
    fn assert_send_sync<T: Send + Sync>() {}
    assert_send_sync::<Index>();
    assert_send_sync::<Arc<IndexSnapshot>>();
}

fn set(paths: &[&str]) -> PathSet {
    let mut s = PathSet::new();
    for p in paths {
        s.insert(p.as_bytes());
    }
    s
}

#[test]
fn file_ids_are_positions_and_stay() {
    let list = vec![b"a".to_vec(), b"b".to_vec(), b"c".to_vec()];
    let first = PathIndex::build(&list);
    assert_eq!(first.file_id(b"b"), Some(1));
    assert_eq!(first.file_id(b"x"), None);
    let second = PathIndex::build_incremental(&first, &set(&["a"]), &set(&["d", "b"]));
    assert_eq!(second.file_id(b"a"), None);
    assert_eq!(second.file_id(b"b"), Some(1));
    assert_eq!(second.file_id(b"c"), Some(2));
    assert_eq!(second.file_id(b"d"), Some(3));
    assert_eq!(second.next_file_id(), 4);
    assert_eq!(second.live_path_count(), 3);
}

#[test]
fn base_documents_without_a_path_have_no_file_id() {
    let base = BaseSegments {
        segments: Vec::new(),
        base_ids: Vec::new(),
        base_doc_paths: vec![Some(b"b".to_vec()), None, Some(b"gone".to_vec())],
        path_doc_ids: PathMap::new(),
    };
    let ids = PathIndex::build(&vec![b"a".to_vec(), b"b".to_vec()]);
    assert_eq!(base.base_doc_to_file_id(&ids), vec![1, u32::MAX, u32::MAX]);
}

#[test]
fn path_sets_are_ordered_by_component() {
    let s = set(&["a/b", "a.rs", "a", "a/b"]);
    let names: Vec<&[u8]> = s.paths.iter().map(|p| p.as_slice()).collect();
    assert_eq!(names, vec![&b"a"[..], &b"a/b"[..], &b"a.rs"[..]]);
    assert!(s.contains(b"a.rs"));
    assert!(!s.contains(b"b"));
}
