use roaring::RoaringBitmap;
use syntext::byte_map::ByteMap;
use syntext::deletes_idx;
use syntext::frame::{FrameError, HEADER_LEN};
use syntext::path_index::PathIndex;
use syntext::paths::PathMap;
use syntext::paths_idx;
use syntext::paths_idx::PathsIdx;
use syntext::worktree_anchor::{Observed, WorktreeAnchor};
use syntext::worktree_codec;

fn sample_bitmap() -> RoaringBitmap {
    let mut bm = RoaringBitmap::new();
    for id in [0u32, 1, 5, 42, 1000, u32::MAX - 1] {
        bm.insert(id);
    }
    bm
}

#[test]
fn round_trip_non_empty() {
    let name = deletes_idx::new_filename();
    let bm = sample_bitmap();
    let file = deletes_idx::write_deletes_idx(&name, &bm).unwrap();
    let got = deletes_idx::read_deletes_idx(&name, &file).unwrap();
    assert_eq!(got, bm);
}

#[test]
fn round_trip_empty() {
    let name = deletes_idx::new_filename();
    let bm = RoaringBitmap::new();
    let file = deletes_idx::write_deletes_idx(&name, &bm).unwrap();
    let got = deletes_idx::read_deletes_idx(&name, &file).unwrap();
    assert!(got.is_empty());
}

fn deletes_fault(change: impl Fn(&mut Vec<u8>)) -> deletes_idx::SidecarError {
    let name = deletes_idx::new_filename();
    let mut bytes = deletes_idx::write_deletes_idx(&name, &sample_bitmap()).unwrap();
    change(&mut bytes);
    deletes_idx::read_deletes_idx(&name, &bytes).unwrap_err()
}

#[test]
fn bad_magic_rejected() {
    let e = deletes_fault(|b| b[0] = b'X');
    assert!(matches!(e, deletes_idx::SidecarError::Frame(FrameError::BadMagic)));
}

#[test]
fn wrong_version_rejected() {
    let e = deletes_fault(|b| b[4] = b[4].wrapping_add(9));
    assert!(matches!(
        e,
        deletes_idx::SidecarError::Frame(FrameError::UnsupportedVersion(10))
    ));
}

#[test]
fn checksum_mismatch_rejected() {
    let e = deletes_fault(|b| {
        let last = b.len() - 1;
        b[last] ^= 0xFF;
    });
    assert!(matches!(
        e,
        deletes_idx::SidecarError::Frame(FrameError::ChecksumMismatch)
    ));
}

#[test]
fn truncated_header_rejected() {
    let e = deletes_fault(|b| *b = b"ST".to_vec());
    assert!(matches!(e, deletes_idx::SidecarError::Frame(FrameError::TooShort)));
}

#[test]
fn escaping_filename_rejected() {
    for bad in ["../evil.idx", "sub/deletes.idx", "..", ""] {
        assert!(matches!(
            deletes_idx::read_deletes_idx(bad.as_bytes(), b"").unwrap_err(),
            deletes_idx::SidecarError::BadFilename
        ));
        assert!(deletes_idx::write_deletes_idx(bad.as_bytes(), &sample_bitmap()).is_err());
    }
}

#[test]
fn generated_names_differ() {
    assert_ne!(deletes_idx::new_filename(), deletes_idx::new_filename());
    assert!(deletes_idx::new_filename().starts_with(b"deletes-"));
    assert!(worktree_codec::new_filename().starts_with(b"worktree-"));
}

fn ids(of: &[u32]) -> RoaringBitmap {
    of.iter().copied().collect()
}

fn sample_paths() -> PathsIdx {
    let mut extensions: ByteMap<RoaringBitmap> = ByteMap::new();
    extensions.insert(b"rs", ids(&[0, 1]));
    extensions.insert(b"md", ids(&[2]));
    let mut components: ByteMap<RoaringBitmap> = ByteMap::new();
    components.insert(b"src", ids(&[0, 1]));
    components.insert(b"docs", ids(&[2]));
    PathsIdx {
        paths: vec![
            b"src/lib.rs".to_vec(),
            b"src/main.rs".to_vec(),
            b"docs/readme.md".to_vec(),
        ],
        extensions,
        components,
    }
}

#[test]
fn round_trip_preserves_paths_and_bitmaps() {
    let index = sample_paths();
    let bytes = paths_idx::encode(&index).unwrap();
    let decoded = paths_idx::decode(&bytes).unwrap();

    assert_eq!(decoded.paths, index.paths);
    assert_eq!(
        PathIndex::build(&decoded.paths).file_id(b"src/main.rs"),
        PathIndex::build(&index.paths).file_id(b"src/main.rs")
    );
    assert_eq!(decoded.extensions.get(b"rs"), index.extensions.get(b"rs"));
    assert_eq!(decoded.components.get(b"src"), index.components.get(b"src"));
}

#[test]
fn table_rows_are_written_in_the_order_of_their_keys() {
    let mut components: ByteMap<RoaringBitmap> = ByteMap::new();
    for key in [&b"a/b"[..], b"..", b"a-b", b"-y"] {
        components.insert(key, ids(&[0]));
    }
    components.insert(b"..", ids(&[1]));
    let expected: Vec<Vec<u8>> =
        vec![b"-y".to_vec(), b"..".to_vec(), b"a-b".to_vec(), b"a/b".to_vec()];
    assert_eq!(components.keys, expected);
    assert_eq!(components.get(b".."), Some(&ids(&[1])));
    let index = PathsIdx { paths: Vec::new(), extensions: ByteMap::new(), components };
    let bytes = paths_idx::encode(&index).unwrap();
    let at = |key: &[u8]| {
        let mut row = (key.len() as u32).to_le_bytes().to_vec();
        row.extend_from_slice(key);
        bytes.windows(row.len()).position(|w| w == row).expect("written")
    };
    let places: Vec<usize> = expected.iter().map(|k| at(k)).collect();
    assert!(places.windows(2).all(|w| w[0] < w[1]));
}

#[test]
fn round_trip_empty_index() {
    let index = PathsIdx {
        paths: Vec::new(),
        extensions: ByteMap::new(),
        components: ByteMap::new(),
    };
    let bytes = paths_idx::encode(&index).unwrap();
    let decoded = paths_idx::decode(&bytes).unwrap();
    assert!(decoded.paths.is_empty());
}

#[test]
fn read_paths_idx_round_trips_through_write() {
    let index = sample_paths();
    let bytes = paths_idx::encode(&index).unwrap();
    let decoded = paths_idx::read_paths_idx(&bytes).expect("valid sidecar must decode");
    assert_eq!(decoded.paths, index.paths);
    assert_eq!(
        PathIndex::build(&decoded.paths).file_id(b"src/main.rs"),
        PathIndex::build(&index.paths).file_id(b"src/main.rs")
    );
    assert_eq!(decoded.extensions.get(b"rs"), index.extensions.get(b"rs"));
}

fn two_paths() -> PathsIdx {
    let mut extensions: ByteMap<RoaringBitmap> = ByteMap::new();
    extensions.insert(b"rs", ids(&[0]));
    extensions.insert(b"py", ids(&[1]));
    let mut components: ByteMap<RoaringBitmap> = ByteMap::new();
    components.insert(b"b", ids(&[1]));
    PathsIdx { paths: vec![b"a.rs".to_vec(), b"b/c.py".to_vec()], extensions, components }
}

fn paths_fault(change: impl Fn(&mut Vec<u8>)) -> paths_idx::SidecarError {
    let mut bytes = paths_idx::encode(&two_paths()).unwrap();
    change(&mut bytes);
    match paths_idx::read_paths_idx(&bytes) {
        Ok(_) => panic!("must be refused"),
        Err(e) => e,
    }
}

#[test]
fn read_paths_idx_flipped_byte_fails_checksum() {
    let e = paths_fault(|b| {
        let flip_at = HEADER_LEN + b.len().saturating_sub(HEADER_LEN) / 2;
        b[flip_at] ^= 0xFF;
    });
    assert!(matches!(
        e,
        paths_idx::SidecarError::Frame(FrameError::ChecksumMismatch)
    ));
}

#[test]
fn read_paths_idx_bad_magic_is_rejected() {
    let e = paths_fault(|b| *b = b"NOPE0000truncated".to_vec());
    assert!(matches!(e, paths_idx::SidecarError::Frame(FrameError::BadMagic)));
}

#[test]
fn read_paths_idx_truncated_body_is_rejected() {
    let e = paths_fault(|b| b.truncate(b.len() - 3));
    assert!(matches!(
        e,
        paths_idx::SidecarError::Frame(FrameError::ChecksumMismatch)
            | paths_idx::SidecarError::Truncated
    ));
}

#[test]
fn read_paths_idx_unsupported_version_is_rejected() {
    let e = paths_fault(|b| {
        b[4..8].copy_from_slice(&(paths_idx::FORMAT_VERSION + 1).to_le_bytes());
    });
    match e {
        paths_idx::SidecarError::Frame(FrameError::UnsupportedVersion(v)) => {
            assert_eq!(v, paths_idx::FORMAT_VERSION + 1);
        }
        other => panic!("expected UnsupportedVersion, got {other:?}"),
    }
}

fn sample() -> WorktreeAnchor {
    let mut entries: PathMap<Observed> = PathMap::new();
    entries.insert(b"src/a.rs", Observed::Absent);
    entries.insert(
        b"src/nested/b.rs",
        Observed::Present {
            size: 4096,
            mtime_secs: 1_777_000_000,
            mtime_nanos: 123_456_789,
        },
    );
    WorktreeAnchor::from_entries(entries)
}

fn entries_of(anchor: &WorktreeAnchor) -> Vec<(Vec<u8>, Observed)> {
    let keys = anchor.entries.keys.paths.iter().cloned();
    keys.zip(anchor.entries.values.iter().copied()).collect()
}

#[test]
fn round_trips_both_observation_kinds() {
    let name = worktree_codec::new_filename();
    let original = sample();
    let file = worktree_codec::write_worktree_anchor(&name, &original).unwrap();
    let loaded = worktree_codec::read_worktree_anchor(&name, &file).unwrap();
    assert_eq!(entries_of(&loaded), entries_of(&original));
    assert_eq!(loaded.len(), 2);
}

#[test]
fn an_empty_anchor_round_trips() {
    let name = worktree_codec::new_filename();
    let file = worktree_codec::write_worktree_anchor(&name, &WorktreeAnchor::new()).unwrap();
    assert!(worktree_codec::read_worktree_anchor(&name, &file).unwrap().is_empty());
}

#[test]
fn encoding_is_deterministic_so_the_checksum_is_reproducible() {
    assert_eq!(worktree_codec::encode(&sample()), worktree_codec::encode(&sample()));
}

#[test]
fn a_corrupt_file_is_rejected_rather_than_half_decoded() {
    let name = worktree_codec::new_filename();
    let good = worktree_codec::write_worktree_anchor(&name, &sample()).unwrap();
    for at in 0..good.len() {
        let mut bad = good.clone();
        bad[at] ^= 0xFF;
        assert!(worktree_codec::read_worktree_anchor(&name, &bad).is_err(), "byte {at}");
    }
    for len in 0..good.len() {
        assert!(worktree_codec::read_worktree_anchor(&name, &good[..len]).is_err());
    }
}

#[test]
fn a_filename_that_could_escape_the_index_dir_is_refused_both_ways() {
    let file = worktree_codec::encode(&sample());
    for name in ["../escape.idx", "sub/dir.idx", "", "/abs.idx"] {
        assert!(
            worktree_codec::read_worktree_anchor(name.as_bytes(), &file).is_err(),
            "read {name}"
        );
        assert!(
            worktree_codec::write_worktree_anchor(name.as_bytes(), &sample()).is_err(),
            "write {name}"
        );
    }
}

#[test]
fn bytes_after_an_anchor_are_refused() {
    let good = worktree_codec::encode(&sample());
    for extra in [&b"\0"[..], &b"more"[..]] {
        let longer = [&good[..], extra].concat();
        assert!(worktree_codec::decode(&longer).is_err());
        // With a checksum that fits, the entries leave bytes behind.
        let mut sealed = longer.clone();
        let sum = xxhash_rust::xxh64::xxh64(&longer[HEADER_LEN..], 0);
        sealed[8..16].copy_from_slice(&sum.to_le_bytes());
        assert_eq!(
            worktree_codec::decode(&sealed).err(),
            Some(worktree_codec::SidecarError::TrailingBytes)
        );
    }
    for len in 0..HEADER_LEN {
        assert_eq!(
            worktree_codec::decode(&good[..len]).err(),
            Some(worktree_codec::SidecarError::Frame(FrameError::TooShort))
        );
    }
}
