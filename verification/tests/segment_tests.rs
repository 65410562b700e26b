use syntext::error::{Corruption, IndexError};
use syntext::posting::{varint_decode, varint_encode, PostingList, VarintError};
use syntext::segment::layout::{
    DICT_ENTRY_SIZE, FOOTER_SIZE, FORMAT_VERSION, FORMAT_VERSION_V2, FORMAT_VERSION_V3,
    HEADER_SIZE,
};
use syntext::segment::reader::{DictVerify, MmapSegment, PostVerify};
use syntext::segment::writer::{SegmentError, SegmentImage, SegmentMeta, SegmentWriter};

fn write_file(w: SegmentWriter) -> (SegmentMeta, SegmentImage) {
    w.write_to_file(b"segment").expect("written")
}

fn write_dir(w: SegmentWriter) -> (SegmentMeta, SegmentImage) {
    w.write_to_dir().expect("written")
}

fn open_split(image: SegmentImage) -> MmapSegment {
    MmapSegment::open_split(image.dict, image.post, PostVerify::Full, DictVerify::Full)
        .expect("opens")
}

fn two_docs() -> SegmentWriter {
    let mut writer = SegmentWriter::new();
    writer.add_document(0, b"src/main.rs", 0xDEAD, 100);
    writer.add_document(1, b"src/lib.rs", 0xBEEF, 200);
    writer
}

#[test]
fn segment_round_trip_empty_segment() {
    let writer = SegmentWriter::new();
    let (meta, image) = write_file(writer);
    assert_eq!(meta.doc_count, 0);
    assert_eq!(meta.gram_count, 0);

    let seg = open_split(image);
    assert_eq!(seg.doc_count, 0);
    assert_eq!(seg.gram_count, 0);
}

#[test]
fn segment_round_trip_with_docs_and_grams() {
    let mut writer = two_docs();
    writer.add_gram_posting(0xAAAA, 0);
    writer.add_gram_posting(0xAAAA, 1);
    writer.add_gram_posting(0xBBBB, 0);
    let (meta, image) = write_file(writer);
    assert_eq!(meta.doc_count, 2);
    assert_eq!(meta.gram_count, 2);

    let seg = open_split(image);
    assert_eq!(seg.doc_count, 2);

    let d0 = seg.get_doc(0).unwrap();
    assert_eq!(d0.path, b"src/main.rs");
    assert_eq!(d0.content_hash, 0xDEAD);

    let pl = seg.lookup_gram(0xAAAA).unwrap();
    let ids = pl.to_vec().unwrap();
    assert_eq!(ids, vec![0, 1]);

    let pl2 = seg.lookup_gram(0xBBBB).unwrap();
    assert_eq!(pl2.to_vec().unwrap(), vec![0]);

    assert!(seg.lookup_gram(0xCCCC).is_none());
}

#[test]
fn segment_duplicate_postings_are_deduplicated() {
    let mut writer = two_docs();
    writer.add_gram_posting(0xAAAA, 0);
    writer.add_gram_posting(0xAAAA, 0);
    writer.add_gram_posting(0xAAAA, 1);
    let (meta, image) = write_file(writer);
    assert_eq!(meta.gram_count, 1);

    let seg = open_split(image);
    assert_eq!(seg.gram_cardinality(0xAAAA), Some(2));
    assert_eq!(
        seg.lookup_gram(0xAAAA).unwrap().to_vec().unwrap(),
        vec![0, 1]
    );
}

#[test]
fn segment_corrupt_file_rejected() {
    assert!(MmapSegment::open(b"not a valid segment".to_vec()).is_err());
}

fn one_doc() -> SegmentWriter {
    let mut writer = SegmentWriter::new();
    writer.add_document(0, b"a.rs", 1, 10);
    writer
}

#[test]
fn segment_verify_integrity_passes_on_clean_segment() {
    let mut writer = one_doc();
    writer.add_gram_posting(0xAA, 0);
    let (_, image) = write_file(writer);
    let seg = open_split(image);
    assert!(seg.verify_integrity().is_ok());
}

#[test]
fn segment_open_rejects_segment_exceeding_size_limit() {
    let (_, image) = write_file(one_doc());
    let seg = MmapSegment::open(image.dict);
    assert!(
        seg.is_ok(),
        "valid segment under size limit must open successfully"
    );
}

fn over_hint() -> SegmentWriter {
    let mut writer = SegmentWriter::with_capacity(1, 2);
    writer.add_document(0, b"a.rs", 1, 10);
    for i in 0u64..100 {
        writer.add_gram_posting(i, 0);
    }
    writer
}

#[test]
fn segment_with_capacity_hint_does_not_panic_when_exceeded() {
    assert!(over_hint().write_to_file(b"segment").is_ok());
}

fn repeated_id() -> SegmentWriter {
    let mut writer = SegmentWriter::new();
    writer.add_document(0, b"a.rs", 1, 10);
    writer.add_document(1, b"b.rs", 2, 20);
    writer.add_document(1, b"c.rs", 3, 30);
    writer
}

#[test]
fn segment_add_document_rejects_duplicate_doc_ids() {
    let result = repeated_id().write_to_file(b"segment");
    assert!(result.is_err(), "duplicate doc_id must be rejected");
    assert!(matches!(result.err(), Some(SegmentError::DuplicateDocId { doc_id: 1 })));
}

#[test]
fn tests_round_trip_empty_segment() {
    let writer = SegmentWriter::default();
    let (meta, image) = write_dir(writer);
    assert_eq!(meta.doc_count, 0);
    assert_eq!(meta.gram_count, 0);
    assert!(meta.dict_filename.ends_with(b".dict"));
    assert!(meta.post_filename.ends_with(b".post"));

    let seg = MmapSegment::open(image.dict).unwrap();
    assert_eq!(seg.doc_count, 0);
    assert_eq!(seg.gram_count, 0);
}

#[test]
fn tests_round_trip_with_docs_and_grams() {
    let mut writer = two_docs();
    writer.add_gram_posting(0xAAAA, 0);
    writer.add_gram_posting(0xAAAA, 1);
    writer.add_gram_posting(0xBBBB, 0);
    let (meta, image) = write_dir(writer);
    assert_eq!(meta.doc_count, 2);
    assert_eq!(meta.gram_count, 2);
    assert!(meta.dict_filename.ends_with(b".dict"));
    assert!(meta.post_filename.ends_with(b".post"));

    let seg = open_split(image);
    assert_eq!(seg.doc_count, 2);

    let d0 = seg.get_doc(0).unwrap();
    assert_eq!(d0.path, b"src/main.rs");
    assert_eq!(d0.content_hash, 0xDEAD);

    let pl = seg.lookup_gram(0xAAAA).unwrap();
    let ids = pl.to_vec().unwrap();
    assert_eq!(ids, vec![0, 1]);
}

#[test]
fn tests_duplicate_postings_are_deduplicated() {
    let mut writer = two_docs();
    writer.add_gram_posting(0xAAAA, 0);
    writer.add_gram_posting(0xAAAA, 0);
    writer.add_gram_posting(0xAAAA, 1);
    let (meta, image) = write_dir(writer);
    assert_eq!(meta.gram_count, 1);
    assert!(meta.dict_filename.ends_with(b".dict"));
    assert!(meta.post_filename.ends_with(b".post"));

    let seg = open_split(image);
    assert_eq!(seg.gram_cardinality(0xAAAA), Some(2));
}

#[test]
fn tests_verify_integrity_passes_on_clean_segment() {
    let mut writer = one_doc();
    writer.add_gram_posting(0xAA, 0);
    let (_, image) = write_dir(writer);
    let seg = MmapSegment::open(image.dict).unwrap();
    assert!(seg.verify_integrity().is_ok());
}

#[test]
fn tests_open_rejects_segment_exceeding_size_limit() {
    let (_, image) = write_dir(one_doc());
    let seg = MmapSegment::open(image.dict);
    assert!(
        seg.is_ok(),
        "valid segment under size limit must open successfully"
    );
}

#[test]
fn tests_with_capacity_hint_does_not_panic_when_exceeded() {
    assert!(over_hint().write_to_dir().is_ok());
}

#[test]
fn tests_add_document_rejects_duplicate_doc_ids() {
    let result = repeated_id().write_to_dir();
    assert!(result.is_err(), "duplicate doc_id must be rejected");
}

#[test]
fn format_version_constants_are_distinct() {
    assert_ne!(FORMAT_VERSION_V2, FORMAT_VERSION_V3);
    assert_eq!(FORMAT_VERSION, FORMAT_VERSION_V3);
}

#[test]
fn dict_entry_size_matches_components() {
    // The gram, the offset of its postings, and their number.
    assert_eq!(DICT_ENTRY_SIZE, 20);
}

#[test]
fn v3_round_trip_lookup_gram() {
    let mut writer = two_docs();
    writer.add_gram_posting(0xAAAA, 0);
    writer.add_gram_posting(0xAAAA, 1);
    writer.add_gram_posting(0xBBBB, 0);
    let (_, image) = write_dir(writer);
    let seg = open_split(image);

    assert_eq!(seg.doc_count, 2);
    let d0 = seg.get_doc(0).unwrap();
    assert_eq!(d0.path, b"src/main.rs");

    let pl = seg.lookup_gram(0xAAAA).unwrap();
    assert_eq!(pl.to_vec().unwrap(), vec![0, 1]);

    let pl2 = seg.lookup_gram(0xBBBB).unwrap();
    assert_eq!(pl2.to_vec().unwrap(), vec![0]);

    assert!(seg.lookup_gram(0xCCCC).is_none());
}

#[test]
fn v3_round_trip_get_doc() {
    let mut writer = SegmentWriter::new();
    writer.add_document(0, b"a.rs", 0xAA, 10);
    writer.add_gram_posting(0x11, 0);
    let (_, image) = write_dir(writer);
    let seg = open_split(image);

    let doc = seg.get_doc(0).unwrap();
    assert_eq!(doc.path, b"a.rs");
    assert_eq!(doc.content_hash, 0xAA);
    assert!(seg.get_doc(1).is_none());
}

#[test]
fn documents_are_stored_by_id() {
    let mut writer = SegmentWriter::new();
    writer.add_document(7, b"later.rs", 2, 20);
    writer.add_document(6, b"earlier.rs", 1, 10);
    let (meta, image) = write_dir(writer);
    assert_eq!(meta.doc_bytes, 30);
    assert_eq!(meta.post_len, image.post.len() as u64);
    let seg = open_split(image);
    assert_eq!(seg.get_doc(0).unwrap().doc_id, 6);
    assert_eq!(seg.get_doc(1).unwrap().path, b"later.rs");
    assert_eq!(seg.get_doc(1).unwrap().size_bytes, 20);
}

#[test]
fn long_lists_become_bitmaps_and_read_back() {
    let mut writer = SegmentWriter::new();
    let n: u32 = 9000;
    for id in 0..n {
        writer.add_document(id, format!("f{id}").as_bytes(), 0, 1);
        writer.add_gram_posting(42, id);
    }
    let (_, image) = write_dir(writer);
    let seg = open_split(image);
    let list = seg.lookup_gram(42).unwrap();
    assert!(matches!(list, PostingList::Large(_)));
    assert_eq!(list.to_vec().unwrap(), (0..n).collect::<Vec<u32>>());
    assert_eq!(seg.gram_hashes().unwrap(), vec![42]);
}

#[test]
fn damaged_segments_are_refused_by_reason() {
    let mut writer = two_docs();
    writer.add_gram_posting(0xAAAA, 1);
    let (_, image) = write_dir(writer);
    let open = |dict: Vec<u8>, post: Vec<u8>| {
        match MmapSegment::open_split(dict, post, PostVerify::Full, DictVerify::Full) {
            Ok(_) => None,
            Err(IndexError::CorruptIndex(c)) => Some(c),
            Err(other) => panic!("unexpected {other:?}"),
        }
    };
    assert_eq!(open(image.dict.clone(), image.post.clone()), None);
    assert_eq!(
        open(image.dict[..10].to_vec(), image.post.clone()),
        Some(Corruption::FileTooSmall)
    );
    let mut flipped = image.dict.clone();
    flipped[20] ^= 1;
    assert_eq!(
        open(flipped, image.post.clone()),
        Some(Corruption::ChecksumMismatch)
    );
    let mut magic = image.dict.clone();
    let last = magic.len() - 1;
    magic[last] ^= 1;
    assert_eq!(open(magic, image.post.clone()), Some(Corruption::BadFooterMagic));
    assert!(matches!(
        open(image.dict.clone(), image.post[..3].to_vec()),
        Some(Corruption::PostTooSmall { bytes: 3 })
    ));
    let mut post = image.post.clone();
    post[0] ^= 1;
    assert_eq!(open(image.dict.clone(), post), Some(Corruption::PostBadMagic));
    let mut body = image.post.clone();
    body[9] ^= 1;
    assert_eq!(
        open(image.dict.clone(), body.clone()),
        Some(Corruption::PostChecksumMismatch)
    );
    let lenient =
        MmapSegment::open_split(image.dict, body, PostVerify::Structure, DictVerify::Structure);
    assert!(lenient.unwrap().verify_postings().is_err());
}

#[test]
fn paths_above_the_limit_are_refused() {
    let mut writer = SegmentWriter::new();
    writer.add_document(3, &vec![b'p'; 65_536], 0, 0);
    assert!(matches!(
        writer.serialize().err(),
        Some(SegmentError::PathTooLong { doc_id: 3, bytes: 65_536 })
    ));
    let mut fits = SegmentWriter::new();
    fits.add_document(3, &vec![b'p'; 65_535], 0, 0);
    assert!(fits.serialize().is_ok());
}

#[test]
fn varints_round_trip_and_refuse_what_is_no_list() {
    let ids = vec![0u32, 1, 127, 128, 300, u32::MAX];
    let bytes = varint_encode(&ids).unwrap();
    assert_eq!(varint_decode(&bytes).unwrap(), ids);
    assert_eq!(varint_encode(&[1, 2, 300]).unwrap(), vec![1, 1, 0xAA, 0x02]);
    assert_eq!(varint_encode(&[2, 2]).err(), Some(VarintError::NotAscending));
    assert_eq!(varint_decode(&[0x80]).err(), Some(VarintError::Malformed));
}

#[test]
fn the_lowest_repeated_id_is_named_before_a_long_path() {
    let mut writer = SegmentWriter::new();
    for id in [7u32, 3, 5, 7, 3] {
        writer.add_document(id, &[b'p'; 70_000], 0, 0);
    }
    assert!(matches!(
        writer.serialize().err(),
        Some(SegmentError::DuplicateDocId { doc_id: 3 })
    ));
}

#[test]
fn tests_corrupt_file_rejected() {
    assert!(MmapSegment::open(b"not a valid segment".to_vec()).is_err());
}

#[test]
fn v3_writer_produces_two_files() {
    let mut writer = SegmentWriter::new();
    writer.add_document(0, b"src/lib.rs", 0xABCD, 100);
    writer.add_gram_posting(0x1234, 0);
    let (meta, image) = write_dir(writer);
    assert!(meta.dict_filename.ends_with(b".dict") && !image.dict.is_empty(), "missing .dict");
    assert!(meta.post_filename.ends_with(b".post") && !image.post.is_empty(), "missing .post");
    assert!(meta.filename.is_empty(), "v3 writer must not produce a .seg file");
}

#[test]
fn round_trip_preserves_non_utf8_path_bytes() {
    let mut writer = SegmentWriter::new();
    let path = b"src/odd\xff.rs";
    writer.add_document(0, path, 0xDEAD, 100);
    let (_, image) = write_dir(writer);
    let seg = MmapSegment::open(image.dict).unwrap();
    let d0 = seg.get_doc(0).unwrap();
    assert_eq!(d0.path, path);
}

#[test]
fn v3_post_file_has_magic_and_checksum() {
    let mut writer = SegmentWriter::new();
    writer.add_document(0, b"src/a.rs", 0x1234, 100);
    writer.add_gram_posting(0xAAAA, 0);
    let (_, image) = write_dir(writer);
    let post_bytes = image.post;
    assert_eq!(&post_bytes[..8], b"SNTXPOST", "missing .post magic header");
    assert!(post_bytes.len() >= 17, "post file too short");
    let postings_data = &post_bytes[8..post_bytes.len() - 8];
    let expected_checksum = xxhash_rust::xxh64::xxh64(postings_data, 0);
    let stored_checksum =
        u64::from_le_bytes(post_bytes[post_bytes.len() - 8..].try_into().unwrap());
    assert_eq!(stored_checksum, expected_checksum, "checksum mismatch");
}

#[test]
fn open_split_rejects_corrupt_post_file() {
    let mut writer = SegmentWriter::new();
    writer.add_document(0, b"src/a.rs", 0xABCD, 100);
    writer.add_gram_posting(0x1111, 0);
    let (_, image) = write_dir(writer);
    let mut post_bytes = image.post;
    post_bytes[0] = b'X';
    let result = MmapSegment::open_split(
        image.dict,
        post_bytes,
        PostVerify::Structure,
        DictVerify::Structure,
    );
    assert!(result.is_err(), "open_split must reject corrupt .post magic");
}

/// Puts `value` at `at` and makes the checksum fit again.
fn craft(bytes: &mut Vec<u8>, at: usize, value: u64) {
    bytes[at..at + 8].copy_from_slice(&value.to_le_bytes());
    let footer_start = bytes.len() - FOOTER_SIZE;
    let checksum = xxhash_rust::xxh64::xxh64(&bytes[..footer_start], 0);
    bytes[footer_start + 32..footer_start + 40].copy_from_slice(&checksum.to_le_bytes());
}

fn footer_u64(bytes: &[u8], at: usize) -> u64 {
    let start = bytes.len() - FOOTER_SIZE + at;
    u64::from_le_bytes(bytes[start..start + 8].try_into().unwrap())
}

#[test]
fn get_doc_rejects_abs_off_pointing_into_dict_section() {
    let mut writer = SegmentWriter::new();
    writer.add_document(0, b"a.rs", 0xABCD, 10);
    writer.add_gram_posting(0x1111, 0);
    let (_, image) = write_dir(writer);
    let mut bytes = image.dict;
    let dict_offset = footer_u64(&bytes, 16);
    craft(&mut bytes, HEADER_SIZE, dict_offset + 4);
    let seg = MmapSegment::open(bytes).unwrap();
    assert!(
        seg.get_doc(0).is_none(),
        "get_doc must return None when abs_off points into dict section"
    );
}

#[test]
fn v2_posting_offset_below_postings_start_returns_none() {
    let mut writer = SegmentWriter::new();
    writer.add_document(0, b"a.rs", 0xABCD, 10);
    writer.add_gram_posting(0x1111_2222_3333_4444u64, 0);
    let (_, image) = write_dir(writer);
    let mut bytes = image.dict;
    let doc_table_offset = footer_u64(&bytes, 0);
    let doc_count = footer_u64(&bytes, 24) as u32;
    let dict_offset = footer_u64(&bytes, 16) as usize;
    let postings_start = doc_table_offset as usize + doc_count as usize * 8;
    assert!(postings_start > HEADER_SIZE);
    craft(&mut bytes, dict_offset + 8, doc_table_offset);
    let seg = MmapSegment::open(bytes).unwrap();
    assert!(seg.lookup_gram(0x1111_2222_3333_4444u64).is_none());
}

fn two_short_lists() -> SegmentWriter {
    let mut writer = SegmentWriter::new();
    writer.add_document(1, b"b.rs", 2, 20);
    writer.add_document(0, b"a.rs", 1, 10);
    for (gram, doc) in [(0xAAAA, 1), (0xBBBB, 0), (0xAAAA, 0), (0xAAAA, 1)] {
        writer.add_gram_posting(gram, doc);
    }
    writer
}

fn u32_at(bytes: &[u8], at: usize) -> u32 {
    u32::from_le_bytes(bytes[at..at + 4].try_into().unwrap())
}

fn u64_at(bytes: &[u8], at: usize) -> u64 {
    u64::from_le_bytes(bytes[at..at + 8].try_into().unwrap())
}

#[test]
fn short_lists_are_laid_out_byte_by_byte() {
    let image = two_short_lists().serialize().expect("short lists are never refused");
    assert_eq!(image.doc_count, 2);
    assert_eq!(image.gram_count, 2);
    assert_eq!(image.dict.len(), 4184);
    assert_eq!(u64_at(&image.dict, 4096), 0xAAAA);
    assert_eq!(u32_at(&image.dict, 4112), 2);
    assert_eq!(u64_at(&image.dict, 4116), 0xBBBB);
    assert_eq!(u32_at(&image.dict, 4132), 1);
    assert!(image.post.starts_with(b"SNTXPOST"));
    // Encoding, count, payload length, deltas.
    assert_eq!(image.post[8..19], [0, 2, 0, 0, 0, 2, 0, 0, 0, 0, 1]);
}

#[test]
fn equal_contents_give_equal_files() {
    let mut other = SegmentWriter::with_capacity(1, 1);
    for (gram, doc) in [(0xAAAA, 0), (0xAAAA, 1), (0xBBBB, 0)] {
        other.add_gram_posting(gram, doc);
    }
    other.add_document(0, b"a.rs", 1, 10);
    other.add_document(1, b"b.rs", 2, 20);
    let (a, b) = (two_short_lists().serialize().unwrap(), other.serialize().unwrap());
    assert_eq!(a.dict, b.dict);
    assert_eq!(a.post, b.post);
    assert_eq!((a.doc_count, a.gram_count), (b.doc_count, b.gram_count));
}

#[test]
fn equal_bitmaps_give_equal_files() {
    let written = |order: Vec<u32>| {
        let mut writer = SegmentWriter::new();
        for doc in order {
            writer.add_gram_posting(7, doc);
            writer.add_gram_posting(7, doc / 2);
        }
        writer.serialize().unwrap()
    };
    let a = written((0..20_000).collect());
    let b = written((0..20_000).rev().collect());
    assert_eq!(a.post[8], 1);
    assert_eq!(a.post, b.post);
    assert_eq!(a.dict, b.dict);
}

#[test]
fn a_hint_is_no_limit() {
    let mut writer = SegmentWriter::with_capacity(1, 2);
    for gram in 0..100 {
        writer.add_gram_posting(gram, 0);
    }
    assert_eq!(writer.serialize().unwrap().gram_count, 100);
}

#[test]
fn files_are_named_after_the_stem_of_the_path() {
    let names = |path: &[u8]| {
        let (meta, _) = SegmentWriter::new().write_to_file(path).unwrap();
        (
            String::from_utf8(meta.dict_filename).unwrap(),
            String::from_utf8(meta.post_filename).unwrap(),
        )
    };
    let pair = |stem: &str| (format!("{stem}.dict"), format!("{stem}.post"));
    assert_eq!(names(b"/tmp/idx/test.seg"), pair("test"));
    assert_eq!(names(b"a.b.seg"), pair("a.b"));
    assert_eq!(names(b"idx/plain/"), pair("plain"));
    assert_eq!(names(b"idx/.hidden"), pair(".hidden"));
    assert_eq!(names(b"idx/.."), pair("segment"));
    assert_eq!(names(b"/"), pair("segment"));
    assert_eq!(names(b"idx/\xFF.seg"), pair("segment"));
}

#[test]
fn a_file_is_probed_by_whole_entries_and_memory_by_grams() {
    let mut writer = SegmentWriter::new();
    writer.add_document(0, b"a.rs", 1, 10);
    writer.add_gram_posting(5, 0);
    let mut image = writer.serialize().unwrap();
    // The third probe position has room for a gram, not for an entry.
    let at = image.dict.len() - FOOTER_SIZE + 28;
    image.dict[at..at + 4].copy_from_slice(&6u32.to_le_bytes());
    let mapped = MmapSegment::from_bytes(image.dict.clone(), image.post.clone()).unwrap();
    assert_eq!(mapped.lookup_gram(5).unwrap().to_vec().unwrap(), vec![0]);
    assert!(open_split(image).lookup_gram(5).is_none());
}
