//! Errors of the index.

use crate::segment::writer::SegmentError;
use vstd::prelude::*;

verus! {

/// What is wrong with an index file.
#[derive(Debug, Clone, Copy, PartialEq, Eq, Structural)]
pub enum Corruption {
    /// A segment shorter than its header and footer.
    FileTooSmall,
    /// A segment larger than the size limit.
    SegmentTooLarge { bytes: u64 },
    /// The footer does not end in the magic bytes.
    BadFooterMagic,
    /// A segment version that this reader does not take.
    UnsupportedVersion { version: u32 },
    /// The stored checksum is not that of the content.
    ChecksumMismatch,
    /// The header does not start with the magic bytes.
    BadHeaderMagic,
    /// The document table lies outside the content.
    DocTableOffsetOutOfRange,
    /// The dictionary lies outside the content.
    DictOffsetOutOfRange,
    /// The dictionary starts before the document table.
    DictBeforeDocTable,
    /// The dictionary ends outside the file.
    TruncatedDictionary,
    /// A postings file shorter than its magic and checksum.
    PostTooSmall { bytes: u64 },
    /// A postings file without its magic bytes.
    PostBadMagic,
    /// The stored checksum is not that of the postings.
    PostChecksumMismatch,
    /// A segment file name that could leave the index directory.
    InvalidSegmentFilename { segment: usize },
    /// A postings file whose size is not the recorded one.
    PostLengthChanged { expected: u64, actual: u64 },
    /// The ids of a segment start before those of the segment before it end.
    BaseDocIdRegresses { base: u32, end: u32 },
    /// More documents than an index may hold.
    TooManyDocs { total: u32 },
    /// A document that is not at the position of its id.
    DocIdMismatch { found: u32, wanted: u32 },
    /// The delete set that the manifest names cannot be read.
    DeletesUnreadable,
    /// Others may enter the index directory.
    PermissiveMode { mode: u32 },
    /// A manifest without a checksum cannot be verified.
    MissingChecksum,
    /// A compaction that would keep more segments than there are.
    SuffixTooLong { suffix: usize, segments: usize },
    /// The snapshot has another number of segments than the manifest.
    SegmentCountDiverges { in_snapshot: usize, in_manifest: usize },
    /// The snapshot has another number of base ids than of segments.
    BaseIdCountDiverges { base_ids: usize, segments: usize },
    /// A segment starts at another id in the snapshot than in the manifest.
    BaseIdDiverges { segment: usize, snapshot_base: u32, manifest_base: u32 },
    /// A live document that its segment does not hold.
    MissingDoc { segment: usize, doc: u32 },
    /// A gram of the dictionary without a readable posting list.
    MissingPostings { gram: u64 },
    /// A posting list that cannot be decoded.
    BadPostings { gram: u64 },
    /// The manifest no longer describes the base of the snapshot.
    IndexChanged,
}

/// Errors that index operations report.
#[derive(Debug)]
pub enum IndexError {
    /// The files on disk do not form a valid index.
    CorruptIndex(Corruption),
    /// The document ids do not fit in 32 bits.
    DocIdOverflow { base_doc_count: u32, overlay_docs: usize },
    /// A path leaves the repository.
    PathOutsideRepo(Vec<u8>),
    /// The overlay would outgrow its share of the base.
    OverlayFull { overlay_docs: usize, base_docs: usize },
    /// A segment could not be written.
    Segment(SegmentError),
}

} // verus!
