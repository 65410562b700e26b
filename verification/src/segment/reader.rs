//! Reads segments: layout checks, document lookup, gram lookup.

use crate::bitmap;
use crate::error::{Corruption, IndexError};
use crate::hash;
use crate::le;
use crate::posting::PostingList;
use crate::segment::layout;
use crate::segment::layout::{
    DocEntry, DocView, DICT_ENTRY_SIZE, DOC_RECORD_FIXED, FOOTER_SIZE, FORMAT_VERSION_V2,
    FORMAT_VERSION_V3, HEADER_SIZE, MAX_POSTING_BYTES, MAX_SEGMENT_SIZE, POSTING_HEADER,
    POST_MAGIC_SIZE, POST_MIN_SIZE,
};
use vstd::prelude::*;
use vstd::slice::slice_subrange;

verus! {

/// How much of a postings file is checked when a segment is opened.
#[derive(Debug, Clone, Copy, PartialEq, Eq, Structural)]
pub enum PostVerify {
    /// Size, magic and checksum.
    Full,
    /// Size and magic.
    Structure,
}

/// How much of a dictionary file is checked when a segment is opened.
#[derive(Debug, Clone, Copy, PartialEq, Eq, Structural)]
pub enum DictVerify {
    /// Structure and checksum.
    Full,
    /// Structure.
    Structure,
}

/// Where the parts of a segment lie.
#[derive(Debug, Clone, Copy, PartialEq, Eq, Structural)]
pub struct SegmentLayout {
    pub doc_table_offset: usize,
    pub dict_offset: usize,
    pub doc_count: u32,
    pub gram_count: u32,
    pub postings_start: u64,
}

/// Where the posting records of a segment are.
pub enum PostingsBacking {
    /// In the dictionary file itself.
    V2Mmap,
    /// In a postings file that is read record by record.
    V3File(Vec<u8>),
    /// In a postings file held whole.
    InMemory(Vec<u8>),
}

/// A segment that passed its layout checks.
pub struct MmapSegment {
    /// The dictionary file.
    pub bytes: Vec<u8>,
    /// Number of documents.
    pub doc_count: u32,
    /// Number of distinct grams.
    pub gram_count: u32,
    /// Where the document offsets start.
    pub doc_table_offset: usize,
    /// Where the dictionary starts.
    pub dict_offset: usize,
    /// The first offset at which a posting record may lie in this file.
    pub postings_start: u64,
    /// Where the posting records are.
    pub postings: PostingsBacking,
    /// Sum of the document sizes, where the manifest records it.
    pub doc_bytes: Option<u64>,
}

/// The checksum that the footer of `b` stores.
pub open spec fn stored_checksum(b: Seq<u8>) -> u64 {
    le::u64_at(b, b.len() - FOOTER_SIZE + 32)
}

/// The content of `b` has the checksum that its footer stores.
pub open spec fn checksum_ok(b: Seq<u8>) -> bool {
    hash::xxh64_of(b.take(b.len() - FOOTER_SIZE), 0) == stored_checksum(b)
}

/// The first offset at which a posting record may lie: past the document
/// offsets, clamped to 64 bits.
pub open spec fn postings_start_of(table: u64, doc_count: u32) -> u64 {
    if table + 8 * doc_count > u64::MAX {
        u64::MAX
    } else {
        (table + 8 * doc_count) as u64
    }
}

/// What the layout checks make of a dictionary file.
pub open spec fn layout_of(b: Seq<u8>, versions: Seq<u32>, verify: DictVerify) -> Result<
    SegmentLayout,
    Corruption,
> {
    let foot = b.len() - FOOTER_SIZE;
    let version = le::u32_at(b, foot + 40);
    let table = le::u64_at(b, foot);
    let dict = le::u64_at(b, foot + 16);
    let doc_count = le::u32_at(b, foot + 24);
    let gram_count = le::u32_at(b, foot + 28);
    if b.len() < HEADER_SIZE + FOOTER_SIZE {
        Err(Corruption::FileTooSmall)
    } else if b.subrange(foot + 44, foot + 48) != layout::magic() {
        Err(Corruption::BadFooterMagic)
    } else if !versions.contains(version) {
        Err(Corruption::UnsupportedVersion { version })
    } else if verify == DictVerify::Full && !checksum_ok(b) {
        Err(Corruption::ChecksumMismatch)
    } else if b.take(4) != layout::magic() {
        Err(Corruption::BadHeaderMagic)
    } else if table < HEADER_SIZE || table > foot {
        Err(Corruption::DocTableOffsetOutOfRange)
    } else if dict < HEADER_SIZE || dict > foot {
        Err(Corruption::DictOffsetOutOfRange)
    } else if dict < table {
        Err(Corruption::DictBeforeDocTable)
    } else {
        Ok(
            SegmentLayout {
                doc_table_offset: table as usize,
                dict_offset: dict as usize,
                doc_count,
                gram_count,
                postings_start: postings_start_of(table, doc_count),
            },
        )
    }
}

fn is_magic(b: &[u8], off: usize) -> (r: bool)
    requires
        off + 4 <= b@.len(),
    ensures
        r == (b@.subrange(off as int, off + 4) == layout::magic()),
{
    let _len: usize = b.len();
    let s = slice_subrange(b, off, off + 4);
    let r = s[0] == 0x53 && s[1] == 0x4E && s[2] == 0x54 && s[3] == 0x58;
    proof {
        let w = b@.subrange(off as int, off + 4);
        if r {
            assert(w =~= layout::magic());
        } else {
            assert(layout::magic()[0] == 0x53 && layout::magic()[1] == 0x4E && layout::magic()[2]
                == 0x54 && layout::magic()[3] == 0x58);
        }
    }
    r
}

fn contains_version(versions: &[u32], version: u32) -> (r: bool)
    ensures
        r == versions@.contains(version),
{
    let mut i: usize = 0;
    while i < versions.len()
        invariant
            i <= versions@.len(),
            forall|k: int| 0 <= k < i ==> versions@[k] != version,
        decreases versions@.len() - i,
    {
        if versions[i] == version {
            return true;
        }
        i = i + 1;
    }
    false
}

/// Checks a dictionary file and finds its parts.
pub fn parse_segment_mmap(bytes: &[u8], accepted_versions: &[u32], dict_verify: DictVerify) -> (r:
    Result<SegmentLayout, Corruption>)
    ensures
        r == layout_of(bytes@, accepted_versions@, dict_verify),
        r matches Ok(l) ==> HEADER_SIZE <= l.doc_table_offset <= l.dict_offset <= bytes@.len()
            - FOOTER_SIZE,
{
    let len: usize = bytes.len();
    if len < HEADER_SIZE + FOOTER_SIZE {
        return Err(Corruption::FileTooSmall);
    }
    let foot: usize = len - FOOTER_SIZE;
    if !is_magic(bytes, foot + 44) {
        return Err(Corruption::BadFooterMagic);
    }
    let version: u32 = le::read_u32_at(bytes, foot + 40);
    if !contains_version(accepted_versions, version) {
        return Err(Corruption::UnsupportedVersion { version });
    }
    let stored: u64 = le::read_u64_at(bytes, foot + 32);
    if dict_verify == DictVerify::Full {
        let content = slice_subrange(bytes, 0, foot);
        assert(content@ =~= bytes@.take(bytes@.len() - FOOTER_SIZE));
        if hash::xxh64(content, 0) != stored {
            return Err(Corruption::ChecksumMismatch);
        }
    }
    assert(bytes@.subrange(0, 4) =~= bytes@.take(4));
    if !is_magic(bytes, 0) {
        return Err(Corruption::BadHeaderMagic);
    }
    let table: u64 = le::read_u64_at(bytes, foot);
    let dict: u64 = le::read_u64_at(bytes, foot + 16);
    let doc_count: u32 = le::read_u32_at(bytes, foot + 24);
    let gram_count: u32 = le::read_u32_at(bytes, foot + 28);
    if table < HEADER_SIZE as u64 || table > foot as u64 {
        return Err(Corruption::DocTableOffsetOutOfRange);
    }
    if dict < HEADER_SIZE as u64 || dict > foot as u64 {
        return Err(Corruption::DictOffsetOutOfRange);
    }
    if dict < table {
        return Err(Corruption::DictBeforeDocTable);
    }
    let rows: u64 = 8 * (doc_count as u64);
    let postings_start: u64 = table.saturating_add(rows);
    Ok(
        SegmentLayout {
            doc_table_offset: table as usize,
            dict_offset: dict as usize,
            doc_count,
            gram_count,
            postings_start,
        },
    )
}

/// The document record that entry `id` of the document table points to, if the
/// record lies between the table and the dictionary.
pub open spec fn doc_in(b: Seq<u8>, table: int, dict: int, id: u32) -> Option<DocView> {
    let at = table + 8 * id;
    let off = le::u64_at(b, at) as int;
    let path_len = le::u16_at(b, off + 20) as int;
    if at + 8 > b.len() || off < table || off + DOC_RECORD_FIXED > dict || off + DOC_RECORD_FIXED
        + path_len > dict {
        None
    } else {
        Some(
            DocView {
                doc_id: le::u32_at(b, off),
                content_hash: le::u64_at(b, off + 4),
                size_bytes: le::u64_at(b, off + 12),
                path: b.subrange(off + DOC_RECORD_FIXED, off + DOC_RECORD_FIXED + path_len),
            },
        )
    }
}

/// The posting record at `off`: its encoding and its payload.
pub open spec fn raw_record(b: Seq<u8>, off: int) -> Option<(u8, Seq<u8>)> {
    let n = le::u32_at(b, off + 5) as int;
    if off + POSTING_HEADER > b.len() || off + POSTING_HEADER + n > b.len() {
        None
    } else {
        Some((b[off], b.subrange(off + POSTING_HEADER, off + POSTING_HEADER + n)))
    }
}

/// `r` is the posting list that a record stores: deltas under encoding 0, a
/// valid bitmap under encoding 1, and none otherwise.
pub open spec fn list_of(r: Option<PostingList>, raw: Option<(u8, Seq<u8>)>) -> bool {
    match raw {
        None => r is None,
        Some((kind, data)) => if kind == 0 {
            r matches Some(PostingList::Small(v)) && v@ == data
        } else if kind == 1 {
            match bitmap::parsed(data) {
                None => r is None,
                Some(ids) => r matches Some(PostingList::Large(b)) && bitmap::values(b) == ids,
            }
        } else {
            r is None
        },
    }
}

fn read_record(b: &[u8], off: u64, max: usize) -> (r: Option<PostingList>)
    ensures
        list_of(r, match raw_record(b@, off as int) {
            Some((kind, data)) => if data.len() > max { None } else { Some((kind, data)) },
            None => None,
        }),
{
    let len: usize = b.len();
    if len < POSTING_HEADER || off > (len - POSTING_HEADER) as u64 {
        return None;
    }
    let at: usize = off as usize;
    let n: u32 = le::read_u32_at(b, at + 5);
    let start: usize = at + POSTING_HEADER;
    if n as u64 > (len - start) as u64 {
        return None;
    }
    let n: usize = n as usize;
    let ghost data = b@.subrange(start as int, start + n);
    assert(raw_record(b@, off as int) == Some((b@[at as int], data)));
    if n > max {
        return None;
    }
    let kind: u8 = b[at];
    if kind == 0 {
        Some(PostingList::Small(le::copy_range(b, start, start + n)))
    } else if kind == 1 {
        match bitmap::deserialize(slice_subrange(b, start, start + n)) {
            Some(bm) => Some(PostingList::Large(bm)),
            None => None,
        }
    } else {
        None
    }
}

/// Checks the size and the magic of a postings file.
pub fn check_post_file_structure(post: &[u8]) -> (r: Result<(), Corruption>)
    ensures
        r == post_structure(post@),
{
    let len: usize = post.len();
    if len < POST_MIN_SIZE {
        return Err(Corruption::PostTooSmall { bytes: len as u64 });
    }
    let good = is_magic(post, 0) && post[4] == 0x50 && post[5] == 0x4F && post[6] == 0x53 && post[7]
        == 0x54;
    proof {
        let m = layout::post_magic();
        assert(m[0] == 0x53 && m[1] == 0x4E && m[2] == 0x54 && m[3] == 0x58 && m[4] == 0x50 && m[5]
            == 0x4F && m[6] == 0x53 && m[7] == 0x54);
        assert(m.take(4) =~= layout::magic());
        assert(post@.subrange(0, 4) =~= post@.take(8).take(4));
        if good {
            assert forall|k: int| 0 <= k < 8 implies post@.take(8)[k] == m[k] by {
                if k < 4 {
                    assert(post@.take(8)[k] == post@.subrange(0, 4)[k]);
                    assert(m[k] == layout::magic()[k]);
                }
            }
            assert(post@.take(8) =~= m);
        } else if post@.take(8) == m {
            assert(post@[4] == post@.take(8)[4] && post@[5] == post@.take(8)[5] && post@[6]
                == post@.take(8)[6] && post@[7] == post@.take(8)[7]);
        }
    }
    if !good {
        return Err(Corruption::PostBadMagic);
    }
    Ok(())
}

/// Size and magic of a postings file.
pub open spec fn post_structure(post: Seq<u8>) -> Result<(), Corruption> {
    if post.len() < POST_MIN_SIZE {
        Err(Corruption::PostTooSmall { bytes: post.len() as u64 })
    } else if post.take(8) != layout::post_magic() {
        Err(Corruption::PostBadMagic)
    } else {
        Ok(())
    }
}

/// The records of a postings file have the checksum at its end.
pub open spec fn post_checksum_ok(post: Seq<u8>) -> bool {
    hash::xxh64_of(post.subrange(8, post.len() - 8), 0) == le::u64_at(post, post.len() - 8)
}

/// Checks the checksum of a postings file.
pub fn verify_post_file_checksum(post: &[u8]) -> (r: Result<(), Corruption>)
    ensures
        r == (if post@.len() < POST_MIN_SIZE {
            Err::<(), Corruption>(Corruption::PostTooSmall { bytes: post@.len() as u64 })
        } else if post_checksum_ok(post@) {
            Ok::<(), Corruption>(())
        } else {
            Err::<(), Corruption>(Corruption::PostChecksumMismatch)
        }),
{
    let len: usize = post.len();
    if len < POST_MIN_SIZE {
        return Err(Corruption::PostTooSmall { bytes: len as u64 });
    }
    let stored: u64 = le::read_u64_at(post, len - 8);
    if hash::xxh64(slice_subrange(post, 8, len - 8), 0) != stored {
        return Err(Corruption::PostChecksumMismatch);
    }
    Ok(())
}

/// Structure, then checksum.
pub open spec fn post_verdict(post: Seq<u8>, verify: PostVerify) -> Result<(), Corruption> {
    match post_structure(post) {
        Err(c) => Err(c),
        Ok(_) => if verify == PostVerify::Full && !post_checksum_ok(post) {
            Err(Corruption::PostChecksumMismatch)
        } else {
            Ok(())
        },
    }
}

fn check_post(post: &[u8], verify: PostVerify) -> (r: Result<(), Corruption>)
    ensures
        r == post_verdict(post@, verify),
{
    match check_post_file_structure(post) {
        Err(c) => {
            return Err(c);
        },
        Ok(_) => {},
    }
    if verify == PostVerify::Full {
        return verify_post_file_checksum(post);
    }
    Ok(())
}

impl MmapSegment {
    /// The bytes of the dictionary file.
    pub open spec fn bytes(self) -> Seq<u8> {
        self.bytes@
    }

    /// Where the document offsets start.
    pub open spec fn table(self) -> int {
        self.doc_table_offset as int
    }

    /// Where the dictionary starts.
    pub open spec fn dict(self) -> int {
        self.dict_offset as int
    }

    /// The first offset at which a posting record may lie in this file.
    pub open spec fn postings_start(self) -> u64 {
        self.postings_start
    }

    /// Where the posting records are.
    pub open spec fn backing(self) -> PostingsBacking {
        self.postings
    }

    /// The table and the dictionary lie inside the content.
    pub open spec fn wf(self) -> bool {
        HEADER_SIZE <= self.table() <= self.dict() <= self.bytes().len() - FOOTER_SIZE
    }

    /// The segment has the parts that `l` says, over these bytes.
    pub open spec fn has_layout(self, b: Seq<u8>, l: SegmentLayout) -> bool {
        &&& self.wf()
        &&& self.bytes() == b
        &&& self.table() == l.doc_table_offset
        &&& self.dict() == l.dict_offset
        &&& self.doc_count == l.doc_count
        &&& self.gram_count == l.gram_count
    }

    /// A segment held in memory: dictionary file and postings file.
    pub fn from_bytes(dict_bytes: Vec<u8>, post_bytes: Vec<u8>) -> (r: Result<Self, IndexError>)
        ensures
            match layout_of(
                dict_bytes@,
                seq![FORMAT_VERSION_V2, FORMAT_VERSION_V3],
                DictVerify::Full,
            ) {
                Err(c) => r == Err::<Self, IndexError>(IndexError::CorruptIndex(c)),
                Ok(l) => r matches Ok(s) && s.has_layout(dict_bytes@, l) && s.postings_start()
                    == l.postings_start && s.backing() == PostingsBacking::InMemory(post_bytes)
                    && s.doc_bytes is None,
            },
    {
        let versions: [u32; 2] = [FORMAT_VERSION_V2, FORMAT_VERSION_V3];
        assert(versions@ =~= seq![FORMAT_VERSION_V2, FORMAT_VERSION_V3]);
        match parse_segment_mmap(dict_bytes.as_slice(), &versions, DictVerify::Full) {
            Err(c) => Err(IndexError::CorruptIndex(c)),
            Ok(l) => Ok(
                MmapSegment {
                    bytes: dict_bytes,
                    doc_count: l.doc_count,
                    gram_count: l.gram_count,
                    doc_table_offset: l.doc_table_offset,
                    dict_offset: l.dict_offset,
                    postings_start: l.postings_start,
                    postings: PostingsBacking::InMemory(post_bytes),
                    doc_bytes: None,
                },
            ),
        }
    }

    /// A segment from the contents of a single file, its postings among them.
    pub fn open(bytes: Vec<u8>) -> (r: Result<Self, IndexError>)
        ensures
            if bytes@.len() > MAX_SEGMENT_SIZE {
                r == Err::<Self, IndexError>(
                    IndexError::CorruptIndex(
                        Corruption::SegmentTooLarge { bytes: bytes@.len() as u64 },
                    ),
                )
            } else {
                match layout_of(
                    bytes@,
                    seq![FORMAT_VERSION_V2, FORMAT_VERSION_V3],
                    DictVerify::Full,
                ) {
                    Err(c) => r == Err::<Self, IndexError>(IndexError::CorruptIndex(c)),
                    Ok(l) => r matches Ok(s) && s.has_layout(bytes@, l) && s.postings_start()
                        == l.postings_start && s.backing() is V2Mmap && s.doc_bytes is None,
                }
            },
    {
        if bytes.len() as u64 > MAX_SEGMENT_SIZE {
            return Err(
                IndexError::CorruptIndex(Corruption::SegmentTooLarge { bytes: bytes.len() as u64 }),
            );
        }
        let versions: [u32; 2] = [FORMAT_VERSION_V2, FORMAT_VERSION_V3];
        assert(versions@ =~= seq![FORMAT_VERSION_V2, FORMAT_VERSION_V3]);
        match parse_segment_mmap(bytes.as_slice(), &versions, DictVerify::Full) {
            Err(c) => Err(IndexError::CorruptIndex(c)),
            Ok(l) => Ok(
                MmapSegment {
                    bytes,
                    doc_count: l.doc_count,
                    gram_count: l.gram_count,
                    doc_table_offset: l.doc_table_offset,
                    dict_offset: l.dict_offset,
                    postings_start: l.postings_start,
                    postings: PostingsBacking::V2Mmap,
                    doc_bytes: None,
                },
            ),
        }
    }

    /// A segment from the contents of its dictionary and postings files.
    pub fn open_split(
        dict_bytes: Vec<u8>,
        post_bytes: Vec<u8>,
        verify: PostVerify,
        dict_verify: DictVerify,
    ) -> (r: Result<Self, IndexError>)
        ensures
            if dict_bytes@.len() > MAX_SEGMENT_SIZE {
                r == Err::<Self, IndexError>(
                    IndexError::CorruptIndex(
                        Corruption::SegmentTooLarge { bytes: dict_bytes@.len() as u64 },
                    ),
                )
            } else {
                match layout_of(dict_bytes@, seq![FORMAT_VERSION_V3], dict_verify) {
                    Err(c) => r == Err::<Self, IndexError>(IndexError::CorruptIndex(c)),
                    Ok(l) => match post_verdict(post_bytes@, verify) {
                        Err(c) => r == Err::<Self, IndexError>(IndexError::CorruptIndex(c)),
                        Ok(_) => r matches Ok(s) && s.has_layout(dict_bytes@, l)
                            && s.postings_start() == 0 && s.backing() == PostingsBacking::V3File(
                            post_bytes,
                        ) && s.doc_bytes is None,
                    },
                }
            },
    {
        if dict_bytes.len() as u64 > MAX_SEGMENT_SIZE {
            return Err(
                IndexError::CorruptIndex(
                    Corruption::SegmentTooLarge { bytes: dict_bytes.len() as u64 },
                ),
            );
        }
        let versions: [u32; 1] = [FORMAT_VERSION_V3];
        assert(versions@ =~= seq![FORMAT_VERSION_V3]);
        let l = match parse_segment_mmap(dict_bytes.as_slice(), &versions, dict_verify) {
            Err(c) => {
                return Err(IndexError::CorruptIndex(c));
            },
            Ok(l) => l,
        };
        match check_post(post_bytes.as_slice(), verify) {
            Err(c) => Err(IndexError::CorruptIndex(c)),
            Ok(_) => Ok(
                MmapSegment {
                    bytes: dict_bytes,
                    doc_count: l.doc_count,
                    gram_count: l.gram_count,
                    doc_table_offset: l.doc_table_offset,
                    dict_offset: l.dict_offset,
                    postings_start: 0,
                    postings: PostingsBacking::V3File(post_bytes),
                    doc_bytes: None,
                },
            ),
        }
    }

    /// Checks the content against the stored checksum again.
    pub fn verify_integrity(&self) -> (r: Result<(), IndexError>)
        requires
            self.wf(),
        ensures
            r == (if checksum_ok(self.bytes()) {
                Ok::<(), IndexError>(())
            } else {
                Err::<(), IndexError>(IndexError::CorruptIndex(Corruption::ChecksumMismatch))
            }),
    {
        let len: usize = self.bytes.len();
        let foot: usize = len - FOOTER_SIZE;
        let content = slice_subrange(self.bytes.as_slice(), 0, foot);
        assert(content@ =~= self.bytes@.take(self.bytes@.len() - FOOTER_SIZE));
        if hash::xxh64(content, 0) != le::read_u64_at(self.bytes.as_slice(), foot + 32) {
            return Err(IndexError::CorruptIndex(Corruption::ChecksumMismatch));
        }
        Ok(())
    }

    /// Checks the postings file in full. Postings inside the dictionary file
    /// are covered by its own checksum.
    pub fn verify_postings(&self) -> (r: Result<(), IndexError>)
        ensures
            match self.backing() {
                PostingsBacking::V2Mmap => r is Ok,
                PostingsBacking::V3File(post) => match post_verdict(post@, PostVerify::Full) {
                    Ok(_) => r is Ok,
                    Err(c) => r == Err::<(), IndexError>(IndexError::CorruptIndex(c)),
                },
                PostingsBacking::InMemory(post) => match post_verdict(post@, PostVerify::Full) {
                    Ok(_) => r is Ok,
                    Err(c) => r == Err::<(), IndexError>(IndexError::CorruptIndex(c)),
                },
            },
    {
        let verdict = match &self.postings {
            PostingsBacking::V2Mmap => Ok(()),
            PostingsBacking::V3File(post) => check_post(post.as_slice(), PostVerify::Full),
            PostingsBacking::InMemory(post) => check_post(post.as_slice(), PostVerify::Full),
        };
        match verdict {
            Ok(_) => Ok(()),
            Err(c) => Err(IndexError::CorruptIndex(c)),
        }
    }

    /// Document number `doc_id` of this segment.
    pub fn get_doc(&self, doc_id: u32) -> (r: Option<DocEntry>)
        requires
            self.wf(),
        ensures
            match (if doc_id < self.doc_count {
                doc_in(self.bytes(), self.table(), self.dict(), doc_id)
            } else {
                None
            }) {
                None => r is None,
                Some(d) => r matches Some(e) && e@ == d,
            },
    {
        if doc_id >= self.doc_count {
            return None;
        }
        let b = self.bytes.as_slice();
        let len: usize = b.len();
        let at: u64 = self.doc_table_offset as u64;
        let row: u64 = 8 * (doc_id as u64);
        if row > (len - self.doc_table_offset - 8) as u64 {
            return None;
        }
        let off: u64 = le::read_u64_at(b, self.doc_table_offset + row as usize);
        if off < at || self.dict_offset < DOC_RECORD_FIXED || off > (self.dict_offset
            - DOC_RECORD_FIXED) as u64 {
            return None;
        }
        let off: usize = off as usize;
        let doc_id_r: u32 = le::read_u32_at(b, off);
        let content_hash: u64 = le::read_u64_at(b, off + 4);
        let size_bytes: u64 = le::read_u64_at(b, off + 12);
        let path_len: usize = le::read_u16_at(b, off + 20) as usize;
        let start: usize = off + DOC_RECORD_FIXED;
        if path_len > self.dict_offset - start {
            return None;
        }
        let path = le::copy_range(b, start, start + path_len);
        Some(DocEntry { doc_id: doc_id_r, content_hash, size_bytes, path })
    }

    /// Dictionary entry `i` lies in the file and is that of `gram`.
    pub open spec fn is_entry(self, gram: u64, i: int) -> bool {
        &&& 0 <= i < self.gram_count
        &&& self.dict() + DICT_ENTRY_SIZE * i + DICT_ENTRY_SIZE <= self.bytes().len()
        &&& self.gram_at(i) == gram
    }

    /// The gram of dictionary entry `i`.
    pub open spec fn gram_at(self, i: int) -> u64 {
        le::u64_at(self.bytes(), self.dict() + DICT_ENTRY_SIZE * i)
    }

    /// The posting offset of dictionary entry `i`.
    pub open spec fn offset_at(self, i: int) -> u64 {
        le::u64_at(self.bytes(), self.dict() + DICT_ENTRY_SIZE * i + 8)
    }

    /// The number of documents of dictionary entry `i`.
    pub open spec fn count_at(self, i: int) -> u32 {
        le::u32_at(self.bytes(), self.dict() + DICT_ENTRY_SIZE * i + 16)
    }

    /// The dictionary lies in the file and its grams ascend.
    pub open spec fn dict_sorted(self) -> bool {
        &&& self.dict() + DICT_ENTRY_SIZE * self.gram_count <= self.bytes().len()
        &&& forall|i: int, j: int|
            0 <= i < j < self.gram_count ==> #[trigger] self.gram_at(i) < #[trigger] self.gram_at(j)
    }

    /// How many bytes a probe of the dictionary reads: a whole entry from a file,
    /// the gram alone from memory.
    pub open spec fn probe_len(self) -> int {
        if self.backing() is InMemory {
            8
        } else {
            DICT_ENTRY_SIZE as int
        }
    }

    /// Where halving the range `lo..hi` of the dictionary finds `gram`. A probe
    /// outside the file ends the search.
    pub open spec fn search(self, gram: u64, lo: int, hi: int) -> Option<int>
        decreases hi - lo,
    {
        let mid = lo + (hi - lo) / 2;
        let at = self.dict() + DICT_ENTRY_SIZE * mid;
        if lo >= hi {
            None
        } else if at + self.probe_len() > self.bytes().len() {
            None
        } else if self.gram_at(mid) == gram {
            if at + DICT_ENTRY_SIZE > self.bytes().len() {
                None
            } else {
                Some(mid)
            }
        } else if self.gram_at(mid) < gram {
            self.search(gram, mid + 1, hi)
        } else {
            self.search(gram, lo, mid)
        }
    }

    /// The dictionary entry that a lookup of `gram` uses.
    pub open spec fn find(self, gram: u64) -> Option<int> {
        self.search(gram, 0, self.gram_count as int)
    }

    /// Halving finds only entries of the gram; in a dictionary whose grams
    /// ascend it finds the entry if there is one.
    pub proof fn lemma_find(self, gram: u64)
        ensures
            self.find(gram) matches Some(i) ==> self.is_entry(gram, i),
            self.dict_sorted() ==> forall|i: int|
                #[trigger] self.is_entry(gram, i) ==> self.find(gram) == Some(i),
    {
        self.lemma_search(gram, 0, self.gram_count as int);
    }

    proof fn lemma_search(self, gram: u64, lo: int, hi: int)
        requires
            0 <= lo <= hi <= self.gram_count,
        ensures
            self.search(gram, lo, hi) matches Some(i) ==> self.is_entry(gram, i),
            self.dict_sorted() ==> forall|i: int|
                lo <= i < hi && #[trigger] self.is_entry(gram, i) ==> self.search(gram, lo, hi)
                    == Some(i),
        decreases hi - lo,
    {
        if lo < hi {
            let mid = lo + (hi - lo) / 2;
            self.lemma_search(gram, mid + 1, hi);
            self.lemma_search(gram, lo, mid);
            if self.dict_sorted() {
                assert forall|i: int| lo <= i < hi && #[trigger] self.is_entry(
                    gram,
                    i,
                ) implies self.search(gram, lo, hi) == Some(i) by {
                    if i < mid {
                        assert(self.gram_at(i) < self.gram_at(mid));
                    } else if i > mid {
                        assert(self.gram_at(mid) < self.gram_at(i));
                    }
                }
            }
        }
    }

    /// Searches the dictionary by halving.
    fn dict_lookup(&self, gram_hash: u64) -> (r: Option<(u64, u32)>)
        requires
            self.wf(),
        ensures
            match self.find(gram_hash) {
                None => r is None,
                Some(i) => r == Some((self.offset_at(i), self.count_at(i))),
            },
    {
        let b = self.bytes.as_slice();
        let len: usize = b.len();
        let room: u64 = (len - self.dict_offset) as u64;
        let probe: u64 = match &self.postings {
            PostingsBacking::InMemory(_) => 8,
            _ => DICT_ENTRY_SIZE as u64,
        };
        let mut lo: u64 = 0;
        let mut hi: u64 = self.gram_count as u64;
        while lo < hi
            invariant
                self.wf(),
                b@ == self.bytes(),
                len == b@.len(),
                room == len - self.dict_offset,
                probe == self.probe_len(),
                lo <= hi <= self.gram_count,
                self.find(gram_hash) == self.search(gram_hash, lo as int, hi as int),
            decreases hi - lo,
        {
            let mid: u64 = lo + (hi - lo) / 2;
            let rel: u64 = 20 * mid;
            if room < probe || rel > room - probe {
                return None;
            }
            let base: usize = self.dict_offset + rel as usize;
            let mid_hash: u64 = le::read_u64_at(b, base);
            assert(mid_hash == self.gram_at(mid as int));
            if mid_hash == gram_hash {
                if room < 20 || rel > room - 20 {
                    return None;
                }
                let off: u64 = le::read_u64_at(b, base + 8);
                let count: u32 = le::read_u32_at(b, base + 16);
                return Some((off, count));
            } else if mid_hash < gram_hash {
                lo = mid + 1;
            } else {
                hi = mid;
            }
        }
        None
    }

    /// The record that a posting offset points to.
    pub open spec fn raw_at(self, off: u64) -> Option<(u8, Seq<u8>)> {
        match self.backing() {
            PostingsBacking::V2Mmap => if off < self.postings_start() || off + POSTING_HEADER
                > self.dict() {
                None
            } else {
                raw_record(self.bytes(), off as int)
            },
            PostingsBacking::V3File(post) => match raw_record(post@, off + POST_MAGIC_SIZE) {
                Some((kind, data)) => if data.len() > MAX_POSTING_BYTES {
                    None
                } else {
                    Some((kind, data))
                },
                None => None,
            },
            PostingsBacking::InMemory(post) => raw_record(post@, off + POST_MAGIC_SIZE),
        }
    }

    fn read_posting_list(&self, abs_off: u64) -> (r: Option<PostingList>)
        requires
            self.wf(),
        ensures
            list_of(r, self.raw_at(abs_off)),
    {
        match &self.postings {
            PostingsBacking::V2Mmap => {
                if abs_off < self.postings_start || self.dict_offset < POSTING_HEADER || abs_off > (
                self.dict_offset - POSTING_HEADER) as u64 {
                    return None;
                }
                read_record(self.bytes.as_slice(), abs_off, usize::MAX)
            },
            PostingsBacking::V3File(post) => {
                let _len: usize = post.len();
                match abs_off.checked_add(8) {
                    Some(at) => read_record(post.as_slice(), at, MAX_POSTING_BYTES),
                    None => None,
                }
            },
            PostingsBacking::InMemory(post) => {
                let _len: usize = post.len();
                match abs_off.checked_add(8) {
                    Some(at) => read_record(post.as_slice(), at, usize::MAX),
                    None => None,
                }
            },
        }
    }

    /// The record that a lookup of `gram` reads.
    pub open spec fn record_of(self, gram: u64) -> Option<(u8, Seq<u8>)> {
        match self.find(gram) {
            None => None,
            Some(i) => self.raw_at(self.offset_at(i)),
        }
    }

    /// The posting list of a gram, if the segment has one.
    pub fn lookup_gram(&self, gram_hash: u64) -> (r: Option<PostingList>)
        requires
            self.wf(),
        ensures
            list_of(r, self.record_of(gram_hash)),
    {
        match self.dict_lookup(gram_hash) {
            None => None,
            Some((off, _count)) => self.read_posting_list(off),
        }
    }

    /// How many documents hold a gram, if the segment has it.
    pub fn gram_cardinality(&self, gram_hash: u64) -> (r: Option<u32>)
        requires
            self.wf(),
        ensures
            r == (match self.find(gram_hash) {
                None => None::<u32>,
                Some(i) => Some(self.count_at(i)),
            }),
    {
        match self.dict_lookup(gram_hash) {
            None => None,
            Some((_off, count)) => Some(count),
        }
    }

    /// The grams of the dictionary, in the order they are stored.
    pub fn gram_hashes(&self) -> (r: Result<Vec<u64>, IndexError>)
        requires
            self.wf(),
        ensures
            match r {
                Ok(v) => {
                    &&& self.dict() + DICT_ENTRY_SIZE * self.gram_count <= self.bytes().len()
                    &&& v@.len() == self.gram_count
                    &&& forall|i: int|
                        0 <= i < self.gram_count ==> #[trigger] v@[i] == self.gram_at(i)
                },
                Err(e) => self.dict() + DICT_ENTRY_SIZE * self.gram_count > self.bytes().len() && e
                    == IndexError::CorruptIndex(Corruption::TruncatedDictionary),
            },
    {
        let b = self.bytes.as_slice();
        let len: usize = b.len();
        let need: u64 = 20 * (self.gram_count as u64);
        if need > (len - self.dict_offset) as u64 {
            return Err(IndexError::CorruptIndex(Corruption::TruncatedDictionary));
        }
        let mut out: Vec<u64> = Vec::new();
        let mut i: u32 = 0;
        let mut at: usize = self.dict_offset;
        while i < self.gram_count
            invariant
                self.wf(),
                b@ == self.bytes(),
                i <= self.gram_count,
                self.dict() + DICT_ENTRY_SIZE * self.gram_count <= b@.len(),
                at == self.dict() + DICT_ENTRY_SIZE * i,
                out@.len() == i,
                forall|k: int| 0 <= k < i ==> #[trigger] out@[k] == self.gram_at(k),
            decreases self.gram_count - i,
        {
            let _len: usize = b.len();
            out.push(le::read_u64_at(b, at));
            i = i + 1;
            at = at + 20;
        }
        Ok(out)
    }
}

} // verus!
