//! The segment file format, version 3.
//!
//! A segment is two files. The dictionary file holds
//!
//! header (40 bytes) | document offsets | document records | zero padding to a
//! page boundary | dictionary | footer (48 bytes)
//!
//! and the postings file holds `SNTXPOST`, the posting records, and the
//! checksum of the records. All integers are little-endian.

use crate::bitmap;
use crate::hash;
use crate::le;
use crate::order;
use crate::posting;
use vstd::prelude::*;

verus! {

/// Segment format version 2: a single combined file.
pub const FORMAT_VERSION_V2: u32 = 2;

/// Segment format version 3: split dictionary and postings files.
pub const FORMAT_VERSION_V3: u32 = 3;

/// The version that is written.
pub const FORMAT_VERSION: u32 = FORMAT_VERSION_V3;

/// The dictionary starts at a multiple of this.
pub const PAGE_SIZE: usize = 4096;

/// Bytes before the document offsets.
pub const HEADER_SIZE: usize = 40;

/// Bytes after the dictionary.
pub const FOOTER_SIZE: usize = 48;

/// Bytes of one dictionary entry: gram hash, offset, count.
pub const DICT_ENTRY_SIZE: usize = 20;

/// Segments above this size are refused: 1 GiB.
pub const MAX_SEGMENT_SIZE: u64 = 1_073_741_824;

/// Bytes of a document record before its path.
pub const DOC_RECORD_FIXED: usize = 22;

/// Bytes of a posting record before its payload: encoding, count, length.
pub const POSTING_HEADER: usize = 9;

/// Bytes of the magic of a postings file.
pub const POST_MAGIC_SIZE: usize = 8;

/// The least size of a postings file: magic and checksum.
pub const POST_MIN_SIZE: usize = 16;

/// A payload above this size is not read from a postings file: 8 MiB.
pub const MAX_POSTING_BYTES: usize = 8_388_608;

/// Document metadata stored in a segment's document table.
#[derive(Debug, Clone)]
pub struct DocEntry {
    /// Id of the document.
    pub doc_id: u32,
    /// Hash of the file's bytes.
    pub content_hash: u64,
    /// File size at index time.
    pub size_bytes: u64,
    /// Repository-relative path.
    pub path: Vec<u8>,
}

/// What a [`DocEntry`] holds.
#[verifier::ext_equal]
pub struct DocView {
    pub doc_id: u32,
    pub content_hash: u64,
    pub size_bytes: u64,
    pub path: Seq<u8>,
}

impl View for DocEntry {
    type V = DocView;

    open spec fn view(&self) -> DocView {
        DocView {
            doc_id: self.doc_id,
            content_hash: self.content_hash,
            size_bytes: self.size_bytes,
            path: self.path@,
        }
    }
}

/// The views of a list of entries.
pub open spec fn doc_views(docs: Seq<DocEntry>) -> Seq<DocView> {
    Seq::new(docs.len(), |i: int| docs[i]@)
}

/// One dictionary entry.
#[derive(Debug, Clone, Copy, PartialEq, Eq, Structural)]
pub struct DictEntry {
    pub gram: u64,
    pub offset: u64,
    pub count: u32,
}

/// `SNTX`.
pub open spec fn magic() -> Seq<u8> {
    seq![0x53u8, 0x4E, 0x54, 0x58]
}

/// `SNTXPOST`.
pub open spec fn post_magic() -> Seq<u8> {
    seq![0x53u8, 0x4E, 0x54, 0x58, 0x50, 0x4F, 0x53, 0x54]
}

/// Id, hash, size, path length and path.
pub open spec fn doc_record(d: DocView) -> Seq<u8> {
    le::le32(d.doc_id) + le::le64(d.content_hash) + le::le64(d.size_bytes) + le::le16(
        d.path.len() as u16,
    ) + d.path
}

/// The records of `docs`, one after the other.
pub open spec fn doc_records(docs: Seq<DocView>) -> Seq<u8>
    decreases docs.len(),
{
    if docs.len() == 0 {
        Seq::empty()
    } else {
        doc_records(docs.drop_last()) + doc_record(docs.last())
    }
}

/// Where the record of document `i` starts.
pub open spec fn doc_offset(docs: Seq<DocView>, i: int) -> int {
    HEADER_SIZE + 8 * docs.len() + doc_records(docs.take(i)).len()
}

/// The offsets of the first `k` documents.
pub open spec fn doc_table(docs: Seq<DocView>, k: nat) -> Seq<u8>
    decreases k,
{
    if k == 0 {
        Seq::empty()
    } else {
        doc_table(docs, (k - 1) as nat) + le::le64(doc_offset(docs, k - 1) as u64)
    }
}

/// Hash, offset and count of one gram.
pub open spec fn dict_record(e: DictEntry) -> Seq<u8> {
    le::le64(e.gram) + le::le64(e.offset) + le::le32(e.count)
}

/// The entries, one after the other.
pub open spec fn dict_records(es: Seq<DictEntry>) -> Seq<u8>
    decreases es.len(),
{
    if es.len() == 0 {
        Seq::empty()
    } else {
        dict_records(es.drop_last()) + dict_record(es.last())
    }
}

/// Where the padding before the dictionary starts.
pub open spec fn docs_end(docs: Seq<DocView>) -> int {
    HEADER_SIZE + 8 * docs.len() + doc_records(docs).len()
}

/// How many zero bytes bring `len` to a page boundary.
pub open spec fn padding(len: int) -> int {
    (PAGE_SIZE - len % PAGE_SIZE as int) % PAGE_SIZE as int
}

/// Where the dictionary starts.
pub open spec fn dict_start(docs: Seq<DocView>) -> int {
    docs_end(docs) + padding(docs_end(docs))
}

/// `n` zero bytes.
pub open spec fn zeros(n: int) -> Seq<u8> {
    Seq::new(n as nat, |i: int| 0u8)
}

pub open spec fn header(docs: Seq<DocView>, es: Seq<DictEntry>) -> Seq<u8> {
    magic() + le::le32(FORMAT_VERSION) + le::le32(docs.len() as u32) + le::le32(es.len() as u32)
        + le::le64(HEADER_SIZE as u64) + le::le64(0) + le::le64(dict_start(docs) as u64)
}

/// Everything before the footer.
pub open spec fn dict_content(docs: Seq<DocView>, es: Seq<DictEntry>) -> Seq<u8> {
    header(docs, es) + doc_table(docs, docs.len()) + doc_records(docs) + zeros(
        padding(docs_end(docs)),
    ) + dict_records(es)
}

pub open spec fn footer(docs: Seq<DocView>, es: Seq<DictEntry>) -> Seq<u8> {
    le::le64(HEADER_SIZE as u64) + le::le64(0) + le::le64(dict_start(docs) as u64) + le::le32(
        docs.len() as u32,
    ) + le::le32(es.len() as u32) + le::le64(hash::xxh64_of(dict_content(docs, es), 0))
        + le::le32(FORMAT_VERSION) + magic()
}

/// The dictionary file.
#[verifier::opaque]
pub open spec fn dict_image(docs: Seq<DocView>, es: Seq<DictEntry>) -> Seq<u8> {
    dict_content(docs, es) + footer(docs, es)
}

/// A posting record: encoding, number of ids, payload length, payload.
pub open spec fn record(kind: u8, count: u32, data: Seq<u8>) -> Seq<u8> {
    seq![kind] + le::le32(count) + le::le32(data.len() as u32) + data
}

/// `rec` stores `ids`: as deltas below the threshold, as a bitmap from it on.
#[verifier::opaque]
pub open spec fn posting_record(rec: Seq<u8>, ids: Seq<u32>) -> bool {
    let data = rec.skip(POSTING_HEADER as int);
    &&& rec.len() >= POSTING_HEADER
    &&& data.len() <= u32::MAX
    &&& ids.len() <= u32::MAX
    &&& if ids.len() >= posting::ROARING_THRESHOLD {
        rec == record(1, ids.len() as u32, data) && data == bitmap::collected_image(ids)
            && bitmap::parsed(data) == Some(ids.to_set())
    } else {
        rec == record(0, ids.len() as u32, data) && data == posting::varint_list(ids, 0)
    }
}

/// The postings of one gram as pairs.
pub open spec fn group_pairs(g: (u64, Seq<u32>)) -> Seq<(u64, u32)> {
    Seq::new(g.1.len(), |k: int| (g.0, g.1[k]))
}

/// The postings of all grams as pairs.
pub open spec fn all_pairs(gs: Seq<(u64, Seq<u32>)>) -> Seq<(u64, u32)>
    decreases gs.len(),
{
    if gs.len() == 0 {
        Seq::empty()
    } else {
        all_pairs(gs.drop_last()) + group_pairs(gs.last())
    }
}

/// Grams ascend, and each has at least one id, ascending.
pub open spec fn groups_ok(gs: Seq<(u64, Seq<u32>)>) -> bool {
    &&& forall|i: int|
        #![trigger gs[i]]
        0 <= i < gs.len() ==> gs[i].1.len() > 0 && bitmap::strictly_ascending(gs[i].1)
    &&& forall|i: int, j: int| 0 <= i < j < gs.len() ==> gs[i].0 < gs[j].0
}

/// The records, one after the other.
pub open spec fn concat_all(rs: Seq<Seq<u8>>) -> Seq<u8>
    decreases rs.len(),
{
    if rs.len() == 0 {
        Seq::empty()
    } else {
        concat_all(rs.drop_last()) + rs.last()
    }
}

/// Record and dictionary entry `i` belong to group `i`.
pub open spec fn post_parts(
    gs: Seq<(u64, Seq<u32>)>,
    rs: Seq<Seq<u8>>,
    es: Seq<DictEntry>,
) -> bool {
    &&& gs.len() == rs.len()
    &&& gs.len() == es.len()
    &&& groups_ok(gs)
    &&& forall|i: int|
        #![trigger gs[i]]
        #![trigger rs[i]]
        #![trigger es[i]]
        0 <= i < gs.len() ==> {
            &&& posting_record(rs[i], gs[i].1)
            &&& es[i].gram == gs[i].0
            &&& es[i].offset == concat_all(rs.take(i)).len()
            &&& es[i].count == gs[i].1.len()
        }
}

/// The postings file.
#[verifier::opaque]
pub open spec fn post_image(rs: Seq<Seq<u8>>) -> Seq<u8> {
    post_magic() + concat_all(rs) + le::le64(hash::xxh64_of(concat_all(rs), 0))
}

/// Documents in ascending order of their ids, without repetition.
pub open spec fn ids_ascending(docs: Seq<DocView>) -> bool {
    forall|i: int, j: int| 0 <= i < j < docs.len() ==> docs[i].doc_id < docs[j].doc_id
}

/// The two files are those of the documents `docs`, in the order of their ids,
/// and of the postings that `gs` groups by gram.
pub open spec fn segment_parts(
    dict: Seq<u8>,
    post: Seq<u8>,
    docs: Seq<DocView>,
    gs: Seq<(u64, Seq<u32>)>,
    rs: Seq<Seq<u8>>,
    es: Seq<DictEntry>,
) -> bool {
    &&& ids_ascending(docs)
    &&& forall|i: int| #![trigger docs[i]] 0 <= i < docs.len() ==> docs[i].path.len() <= u16::MAX
    &&& docs.len() <= u32::MAX
    &&& es.len() <= u32::MAX
    &&& post_parts(gs, rs, es)
    &&& dict == dict_image(docs, es)
    &&& post == post_image(rs)
}

/// The two files are a segment for these documents and postings, in whatever
/// order they were handed over.
pub open spec fn is_segment(
    dict: Seq<u8>,
    post: Seq<u8>,
    docs: Seq<DocView>,
    postings: Seq<(u64, u32)>,
) -> bool {
    exists|
        sorted: Seq<DocView>,
        gs: Seq<(u64, Seq<u32>)>,
        rs: Seq<Seq<u8>>,
        es: Seq<DictEntry>,
    |
        #![trigger segment_parts(dict, post, sorted, gs, rs, es)]
        segment_parts(dict, post, sorted, gs, rs, es) && order::rearranged(docs, sorted) && (forall|
            x: (u64, u32),
        |
            all_pairs(gs).contains(x) <==> postings.contains(x))
}

} // verus!
