use std::sync::Arc;
use syntext::error::IndexError;
use syntext::mem_index::{InMemoryIndex, MemIndex};
use syntext::paths::PathMap;

fn content(bytes: &[u8]) -> Arc<Vec<u8>> {
    Arc::new(bytes.to_vec())
}

fn commit(idx: &mut MemIndex) -> Result<(), IndexError> {
    let grams = idx.texts().iter().map(|t| vec![t.len() as u64]).collect();
    idx.commit(grams)
}

/// How many shown documents hold the text.
fn search_count(idx: &MemIndex, pattern: &str) -> usize {
    let docs = &idx.snapshot.overlay.docs;
    docs.iter()
        .filter(|d| d.content.windows(pattern.len()).any(|w| w == pattern.as_bytes()))
        .count()
}

#[test]
fn mem_index_is_send_sync() {
    fn assert_send_sync<T: Send + Sync>() {}
    assert_send_sync::<MemIndex>();
}

#[test]
fn empty_index_searches_to_nothing() {
    let idx = MemIndex::new().expect("new");
    assert_eq!(search_count(&idx, "anything"), 0);
}

#[test]
fn add_is_visible_only_after_commit() {
    let mut idx = MemIndex::new().expect("new");
    idx.add(b"chats/a", content(b"the needle hides here"))
        .expect("add");
    assert_eq!(search_count(&idx, "needle"), 0, "uncommitted add visible");
    commit(&mut idx).expect("commit");
    assert_eq!(search_count(&idx, "needle"), 1, "committed add missing");
}

#[test]
fn remove_stops_matching_after_commit() {
    let mut idx = MemIndex::new().expect("new");
    idx.add(b"chats/a", content(b"the needle hides here"))
        .expect("add");
    commit(&mut idx).expect("commit");
    idx.remove(b"chats/a").expect("remove");
    assert_eq!(
        search_count(&idx, "needle"),
        1,
        "uncommitted remove visible"
    );
    commit(&mut idx).expect("commit");
    assert_eq!(
        search_count(&idx, "needle"),
        0,
        "removed doc still matching"
    );
}

#[test]
fn same_id_replace_reindexes() {
    let mut idx = MemIndex::new().expect("new");
    idx.add(b"chats/a", content(b"first version mentions zebra"))
        .expect("add");
    commit(&mut idx).expect("commit");
    idx.add(b"chats/a", content(b"second version mentions yak"))
        .expect("replace");
    commit(&mut idx).expect("commit");
    assert_eq!(search_count(&idx, "zebra"), 0, "old content still indexed");
    assert_eq!(search_count(&idx, "yak"), 1, "new content missing");
}

#[test]
fn rejects_traversal_and_empty_ids() {
    let mut idx = MemIndex::new().expect("new");
    for bad in ["../x", "/x", "a/../b", ""] {
        match idx.add(bad.as_bytes(), content(b"m")) {
            Err(IndexError::PathOutsideRepo(_)) => {}
            other => panic!("expected PathOutsideRepo for {bad:?}, got {other:?}"),
        }
    }
}

#[test]
fn rejects_degenerate_separator_ids() {
    let mut idx = MemIndex::new().expect("new");
    for bad in ["chats/1/", "chats//1", "chats/./1", "."] {
        match idx.add(bad.as_bytes(), content(b"m")) {
            Err(IndexError::PathOutsideRepo(_)) => {}
            other => panic!("expected PathOutsideRepo for {bad:?}, got {other:?}"),
        }
    }
    assert!(idx.remove(b"a/..").is_err());
    assert!(idx.remove(b"absent").is_ok());
}

#[test]
fn binary_content_skipped_at_commit() {
    let mut idx = MemIndex::new().expect("new");
    idx.add(
        b"chats/bin",
        content(b"needle\x00\x01\x02\x00\x03\x00\x04\x00"),
    )
    .expect("add");
    commit(&mut idx).expect("commit");
    assert_eq!(search_count(&idx, "needle"), 0);
}

fn build(files: &[(&str, &[u8])]) -> Result<InMemoryIndex, IndexError> {
    let mut map: PathMap<Arc<Vec<u8>>> = PathMap::new();
    for (k, v) in files {
        map.insert_key(k.as_bytes(), content(v));
    }
    let grams = files.iter().map(|_| Vec::new()).collect();
    InMemoryIndex::build(&map, grams)
}

fn is_outside(result: &Result<InMemoryIndex, IndexError>) -> bool {
    matches!(result, Err(IndexError::PathOutsideRepo(_)))
}

#[test]
fn build_rejects_parent_dir_traversal() {
    assert!(is_outside(&build(&[("../../etc/passwd", b"root:x:0:0")])));
}

#[test]
fn build_rejects_absolute_path() {
    assert!(is_outside(&build(&[("/etc/passwd", b"root:x:0:0")])));
}

#[test]
fn build_rejects_embedded_traversal() {
    assert!(is_outside(&build(&[("src/../../../etc/shadow", b"secret")])));
}

#[test]
fn build_rejects_empty_path() {
    assert!(is_outside(&build(&[("", b"orphan")])));
}

#[test]
fn build_accepts_clean_relative_paths() {
    let files: &[(&str, &[u8])] =
        &[("src/main.rs", b"fn main() {}"), ("lib/util.rs", b"pub fn hello() {}")];
    assert!(build(files).is_ok());
}

#[test]
fn build_rejects_degenerate_separator_ids() {
    for bad in ["chats/1/", "chats//1", "chats/./1", "."] {
        assert!(is_outside(&build(&[(bad, b"content")])));
    }
}

#[test]
fn build_strips_bom_even_on_zero_copy_path() {
    let mut bytes = vec![0xEF, 0xBB, 0xBF];
    bytes.extend_from_slice(b"needle here");
    let idx = build(&[("a.txt", &bytes)]).expect("build");
    let docs = &idx.snapshot.overlay.docs;
    assert_eq!(docs.len(), 1);
    let at = docs[0].content.windows(6).position(|w| w == b"needle");
    assert_eq!(at, Some(0), "BOM bytes leaked into offsets");
    assert_eq!(docs[0].content.as_slice(), b"needle here");
}

#[test]
fn documents_are_numbered_in_the_order_of_their_ids() {
    let files: &[(&str, &[u8])] = &[("b", b"bb"), ("a", b"a\0"), ("c", b"cc")];
    let idx = build(files).expect("build");
    let docs: Vec<(u32, Vec<u8>)> =
        idx.snapshot.overlay.docs.iter().map(|d| (d.doc_id, d.path.clone())).collect();
    assert_eq!(docs, vec![(0, b"b".to_vec()), (1, b"c".to_vec())]);
    assert_eq!(idx.snapshot.path_index.file_id(b"c"), Some(1));
    assert_eq!(idx.snapshot.overlay_doc_to_file_id[&1], 1);
}

#[test]
fn ids_that_differ_name_documents_of_their_own() {
    let ids = ["a", "a/b", "b", "-y", "a b", ".a", "..."];
    let files: Vec<(&str, &[u8])> = ids.iter().map(|id| (*id, id.as_bytes())).collect();
    let idx = build(&files).expect("build");
    let overlay = &idx.snapshot.overlay;
    assert_eq!(overlay.docs.len(), ids.len());
    for id in ids {
        let doc = overlay.get_doc_by_path(id.as_bytes()).expect("found");
        assert_eq!(doc.content.as_slice(), id.as_bytes());
    }
}
