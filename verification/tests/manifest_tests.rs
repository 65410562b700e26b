use syntext::manifest::{Manifest, ManifestError, SegmentRef, MAX_MANIFEST_SIZE};

const ID: &str = "6f8d1f0e-2b1c-4c6a-9c49-0d5a3e7b8a11";

fn seg_ref(id: &str, base: Option<u32>, docs: u32) -> SegmentRef {
    SegmentRef {
        segment_id: id.as_bytes().to_vec(),
        base_doc_id: base,
        filename: Vec::new(),
        dict_filename: format!("{id}.dict").into_bytes(),
        post_filename: format!("{id}.post").into_bytes(),
        doc_count: docs,
        gram_count: 10,
        post_len: None,
        doc_bytes: None,
    }
}

#[test]
fn load_rejects_oversized_manifest() {
    let m = Manifest::new(Vec::new(), 0, 0);
    let result = Manifest::load(m, 11 * 1024 * 1024, b"");
    assert!(matches!(
        result.err(),
        Some(ManifestError::TooLarge { bytes: 11_534_336 })
    ));
}

#[test]
fn load_accepts_normal_manifest() {
    let text = b"{}";
    let saved = Manifest::new(Vec::new(), 0, 0).seal(text);
    let loaded = Manifest::load(saved, 100, text).unwrap();
    assert_eq!(loaded.total_docs(), 0);
}

#[test]
fn segment_ref_round_trips_with_post_filename() {
    let text = b"{...}";
    let m = Manifest::new(vec![seg_ref(ID, Some(12), 5)], 5, 0).seal(text);
    let loaded = Manifest::load(m, 10, text).unwrap();
    assert_eq!(loaded.segments[0].base_doc_id, Some(12));
    assert_eq!(loaded.segments[0].dict_filename, format!("{ID}.dict").into_bytes());
    assert_eq!(loaded.segments[0].post_filename, format!("{ID}.post").into_bytes());
    assert_eq!(loaded.total_docs(), 5);
}

#[test]
fn manifest_rejects_non_uuid_segment_id() {
    let text = b"{}";
    let mut bad = seg_ref("../../etc/passwd", None, 1);
    bad.dict_filename = b"a.dict".to_vec();
    bad.post_filename = b"a.post".to_vec();
    bad.gram_count = 1;
    let m = Manifest::new(vec![bad], 1, 0).seal(text);
    let result = Manifest::load(m, 10, text);
    assert!(matches!(
        result.err(),
        Some(ManifestError::BadSegmentId { segment: 0 })
    ));
}

#[test]
fn a_changed_manifest_fails_its_checksum() {
    let m = Manifest::new(Vec::new(), 3, 0).seal(b"total 3");
    assert!(matches!(
        Manifest::load(m, 10, b"total 4").err(),
        Some(ManifestError::ChecksumMismatch { .. })
    ));
    // Old manifests have no checksum.
    let old = Manifest::new(Vec::new(), 3, 0);
    assert!(Manifest::load(old, MAX_MANIFEST_SIZE, b"anything").is_ok());
}

#[test]
fn the_checksum_is_that_of_the_text() {
    let m = Manifest::new(Vec::new(), 0, 0).seal(b"abc");
    assert_eq!(m.checksum, Some(xxhash_rust::xxh64::xxh64(b"abc", 0)));
}

#[test]
fn gc_removes_orphan_dict_and_post_files() {
    let mut kept = seg_ref("kept", Some(0), 0);
    kept.gram_count = 0;
    let m = Manifest::new(vec![kept], 0, 0);
    let names: Vec<Vec<u8>> = ["orphan.dict", "orphan.post", "kept.dict", "kept.post"]
        .iter()
        .map(|n| n.as_bytes().to_vec())
        .collect();
    let removed: Vec<&[u8]> =
        m.gc_orphan_segments(&names).into_iter().map(|i| names[i].as_slice()).collect();
    assert!(removed.contains(&&b"orphan.dict"[..]), "orphan .dict must be removed");
    assert!(removed.contains(&&b"orphan.post"[..]), "orphan .post must be removed");
    assert!(!removed.contains(&&b"kept.dict"[..]), "referenced .dict must be kept");
    assert!(!removed.contains(&&b"kept.post"[..]), "referenced .post must be kept");
}

#[test]
fn gc_knows_the_files_of_an_index() {
    let mut m = Manifest::new(vec![seg_ref(ID, Some(0), 1)], 1, 0);
    m.overlay_deletes_file = Some(b"deletes-now.idx".to_vec());
    let names: Vec<Vec<u8>> = [
        format!("{ID}.dict"),
        format!("{ID}.post"),
        "orphan.dict".to_string(),
        "orphan.post".to_string(),
        "orphan.seg".to_string(),
        "deletes-now.idx".to_string(),
        "deletes-then.idx".to_string(),
        "worktree-then.idx".to_string(),
        "paths.idx".to_string(),
        "write.lock".to_string(),
    ]
    .iter()
    .map(|n| n.clone().into_bytes())
    .collect();
    assert_eq!(m.gc_orphan_segments(&names), vec![2, 3, 4, 6, 7]);
}

#[test]
fn gc_removes_stale_manifest_tmp_files() {
    let m = Manifest::new(Vec::new(), 0, 0);
    let names = vec![
        b"write.lock".to_vec(),
        b"manifest-stale.tmp".to_vec(),
    ];
    assert_eq!(m.gc_orphan_segments(&names), vec![1]);
}

#[test]
fn gc_keeps_the_sidecars_that_are_named() {
    let mut m = Manifest::new(vec![seg_ref(ID, Some(0), 1)], 1, 0);
    m.overlay_deletes_file = Some(b"deletes-now.idx".to_vec());
    m.worktree_anchor_file = Some(b"worktree-now.idx".to_vec());
    let names: Vec<Vec<u8>> =
        ["deletes-now.idx", "worktree-now.idx", "worktree-then.idx"].map(|n| n.into()).to_vec();
    assert_eq!(m.gc_orphan_segments(&names), vec![2]);
}

#[test]
fn segment_ids_have_one_of_four_forms() {
    let loads = |id: &str| {
        let m = Manifest::new(vec![seg_ref(id, None, 1)], 1, 0).seal(b"{}");
        Manifest::load(m, 10, b"{}").is_ok()
    };
    assert!(loads(ID));
    assert!(loads(&ID.to_uppercase()));
    assert!(loads(&ID.replace('-', "")));
    assert!(loads(&format!("{{{ID}}}")));
    assert!(loads(&format!("urn:uuid:{ID}")));
    assert!(loads(&format!("URN:uuid:{ID}")));
    assert!(!loads(&ID.replace('-', "_")));
    assert!(!loads(&ID.replace('6', "g")));
    assert!(!loads(&ID[1..]));
    assert!(!loads(&format!("({ID})")));
    assert!(!loads(&format!("uri:uuid:{ID}")));
    assert!(!loads(""));
}
