use std::sync::Arc;
use syntext::error::IndexError;
use syntext::overlay::{NewFile, OverlayView};
use syntext::paths::PathSet;

fn grams(content: &[u8]) -> Vec<u64> {
    content
        .windows(3)
        .map(|w| w.iter().fold(7u64, |h, &c| h * 131 + c as u64))
        .collect()
}

fn file(path: &str, content: &[u8]) -> NewFile {
    NewFile {
        path: path.as_bytes().to_vec(),
        content: Arc::new(content.to_vec()),
        grams: grams(content),
    }
}

fn set(paths: &[&str]) -> PathSet {
    let mut s = PathSet::new();
    for p in paths {
        s.insert(p.as_bytes());
    }
    s
}

fn after_a_change() -> OverlayView {
    let overlay1 = OverlayView::build(
        0,
        vec![
            file("a.rs", b"fn alpha_one() {}"),
            file("b.rs", b"fn beta_two() {}"),
        ],
    )
    .unwrap();
    OverlayView::build_incremental(
        0,
        &overlay1,
        vec![file("a.rs", b"fn alpha_changed() {}")],
        &set(&["a.rs"]),
        &set(&[]),
    )
    .unwrap()
}

/// One old document, no new files, but two changed paths; another base makes it a
/// full rebuild.
fn after_more_changes_than_documents() -> Result<OverlayView, IndexError> {
    let overlay1 = OverlayView::build(0, vec![file("a.rs", b"fn alpha() {}")]).unwrap();
    assert_eq!(overlay1.docs.len(), 1);
    OverlayView::build_incremental(
        1,
        &overlay1,
        vec![],
        &set(&["a.rs", "ghost.rs"]),
        &set(&[]),
    )
}

#[test]
fn overlay_incremental_delta_posting_lists_are_sorted() {
    for (hash, ids) in &after_a_change().gram_index {
        assert!(
            ids.windows(2).all(|w| w[0] < w[1]),
            "gram {hash:#x} posting list is not strictly sorted: {ids:?}"
        );
    }
}

#[test]
fn overlay_build_incremental_no_underflow() {
    let result = after_more_changes_than_documents();
    assert!(result.is_ok(), "must not panic or error");
    assert_eq!(
        result.unwrap().docs.len(),
        0,
        "all old docs are in newly_changed with no replacements \u{2192} empty overlay"
    );
}

#[test]
fn overlay_tests_incremental_delta_posting_lists_are_sorted() {
    for (hash, ids) in &after_a_change().gram_index {
        assert!(
            ids.windows(2).all(|w| w[0] < w[1]),
            "gram {hash:#x} posting list is not strictly sorted: {ids:?}"
        );
    }
}

#[test]
fn overlay_tests_build_incremental_no_underflow() {
    let result = after_more_changes_than_documents();
    assert!(result.is_ok(), "must not panic or error");
    assert_eq!(
        result.unwrap().docs.len(),
        0,
        "all old docs are in newly_changed with no replacements \u{2192} empty overlay"
    );
}

#[test]
fn ids_start_at_the_base_and_documents_are_found() {
    let v = OverlayView::build(5, vec![file("a.rs", b"abcd"), file("b.rs", b"bcde")]).unwrap();
    assert_eq!(v.docs[0].doc_id, 5);
    assert_eq!(v.docs[1].doc_id, 6);
    assert_eq!(v.next_doc_id, 7);
    assert_eq!(v.get_doc(6).unwrap().path, b"b.rs");
    assert!(v.get_doc(4).is_none());
    assert!(v.get_doc(7).is_none());
    assert_eq!(v.get_doc_by_path(b"a.rs").unwrap().doc_id, 5);
    assert!(v.get_doc_by_path(b"c.rs").is_none());
    let shared = grams(b"bcd");
    assert_eq!(v.gram_index[&shared[0]], vec![5, 6]);
}

#[test]
fn unchanged_documents_keep_their_ids_under_the_same_base() {
    let v = OverlayView::build(0, vec![file("a.rs", b"abcd"), file("b.rs", b"bcde")]).unwrap();
    let w = OverlayView::build_incremental(
        0,
        &v,
        vec![file("a.rs", b"xyz")],
        &set(&["a.rs"]),
        &set(&[]),
    )
    .unwrap();
    let ids: Vec<(Vec<u8>, u32)> = w.docs.iter().map(|d| (d.path.clone(), d.doc_id)).collect();
    assert_eq!(ids, vec![(b"b.rs".to_vec(), 1), (b"a.rs".to_vec(), 2)]);
    assert!(!w.gram_index.contains_key(&grams(b"abc")[0]));
    let moved =
        OverlayView::build_incremental(10, &w, vec![], &set(&[]), &set(&["b.rs"])).unwrap();
    assert_eq!(moved.docs.len(), 1);
    assert_eq!(moved.docs[0].doc_id, 10);
}

#[test]
fn ids_that_run_out_are_an_error() {
    let r = OverlayView::build(u32::MAX, vec![file("a.rs", b"abc")]);
    assert!(matches!(
        r.err(),
        Some(IndexError::DocIdOverflow { base_doc_count: u32::MAX, overlay_docs: 1 })
    ));
    assert!(OverlayView::build(u32::MAX - 1, vec![file("a.rs", b"abc")]).is_ok());
}

#[test]
fn documents_are_found_by_the_components_of_their_paths() {
    let overlay = OverlayView::build(0, vec![file("src/a.rs", b"x")]).unwrap();
    assert!(overlay.get_doc_by_path(b"src//./a.rs").is_some());
    assert!(overlay.get_doc_by_path(b"src/a.rs/").is_some());
    assert!(overlay.get_doc_by_path(b"/src/a.rs").is_none());
}

#[test]
fn changed_paths_are_told_apart_by_their_components() {
    let old = OverlayView::build(
        0,
        vec![file("a//b", b"one"), file("c", b"two"), file("d/./e", b"three")],
    )
    .unwrap();
    let next =
        OverlayView::build_incremental(0, &old, vec![], &set(&["a/b"]), &set(&["d/e"])).unwrap();
    assert!(next.get_doc_by_path(b"a/b").is_none());
    assert!(next.get_doc_by_path(b"a//b").is_none());
    assert!(next.get_doc_by_path(b"d/e").is_none());
    assert_eq!(next.get_doc_by_path(b"c").unwrap().content.as_slice(), b"two");

    let again = OverlayView::build_incremental(
        0,
        &old,
        vec![file("a/b", b"new"), file("f", b"four")],
        &set(&["a/./b", "f", "gone"]),
        &set(&[]),
    )
    .unwrap();
    let found = again.get_doc_by_path(b"a//b").unwrap();
    assert_eq!(found.path, b"a/b");
    assert_eq!(found.content.as_slice(), b"new");
    assert_eq!(again.get_doc_by_path(b"f").unwrap().content.as_slice(), b"four");
    assert!(again.get_doc_by_path(b"gone").is_none());
    let kept = again.get_doc_by_path(b"d/e").unwrap();
    assert_eq!(kept.path, b"d/./e");
    assert_eq!(kept.content.as_slice(), b"three");
    assert_eq!(again.docs.len(), 4);
}
