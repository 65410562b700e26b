//! Opening an index: which files belong to it, and which contents it takes.

use crate::bitmap;
use crate::config::Config;
use crate::deletes_idx;
use crate::error::{Corruption, IndexError};
use crate::files;
use crate::le;
use crate::manifest::{Manifest, SegmentRef};
use crate::overlay::{OverlayDocView, OverlayView};
use crate::path_index;
use crate::path_index::PathIndex;
use crate::path_resolve;
use crate::paths;
use crate::paths::PathMap;
use crate::paths_idx;
use crate::segment::layout::{
    DocView, FORMAT_VERSION_V2, FORMAT_VERSION_V3, MAX_SEGMENT_SIZE,
};
use crate::segment::reader;
use crate::segment::reader::{
    DictVerify, MmapSegment, PostVerify, PostingsBacking, SegmentLayout,
};
use crate::snapshot;
use crate::snapshot::{BaseSegments, IndexSnapshot};
use roaring::RoaringBitmap;
use std::collections::HashMap;
use std::sync::Arc;
use vstd::prelude::*;

verus! {

broadcast use vstd::std_specs::hash::group_hash_axioms;

/// The most documents that an index may hold.
pub const MAX_TOTAL_DOCS: u32 = 50_000_000;

/// Bits of a directory mode that let group or others in.
pub const GROUP_OTHER_BITS: u32 = 0o077;

/// Whether an index directory of this mode is taken.
pub open spec fn is_admission(mode: u32, config: Config, r: Result<(), IndexError>) -> bool {
    r == (if mode & GROUP_OTHER_BITS != 0 && config.strict_permissions {
        Err::<(), IndexError>(
            IndexError::CorruptIndex(Corruption::PermissiveMode { mode: mode & 0o777 }),
        )
    } else {
        Ok::<(), IndexError>(())
    })
}

/// Checks the mode of the index directory. Others who may enter it could
/// truncate or replace the files of the index.
pub fn check_permissions(mode: u32, config: &Config) -> (r: Result<(), IndexError>)
    ensures
        is_admission(mode, *config, r),
{
    if mode & GROUP_OTHER_BITS != 0 && config.strict_permissions {
        return Err(IndexError::CorruptIndex(Corruption::PermissiveMode { mode: mode & 0o777 }));
    }
    Ok(())
}

/// The names of the files of a segment.
pub enum SegmentFiles {
    /// A dictionary file and a postings file.
    Split { dict: Vec<u8>, post: Vec<u8> },
    /// One file with both.
    Combined { name: Vec<u8> },
}

/// The segment has a dictionary file and a postings file.
pub open spec fn is_split(r: SegmentRef) -> bool {
    r.dict_filename@.len() > 0 && r.post_filename@.len() > 0
}

/// The name of the single file of a segment that is not split. Manifests of a
/// time between the two formats recorded it as the dictionary file.
pub open spec fn combined_name(r: SegmentRef) -> Seq<u8> {
    if r.filename@.len() > 0 {
        r.filename@
    } else {
        r.dict_filename@
    }
}

/// Every file name of the segment stays inside the index directory.
pub open spec fn names_inside(r: SegmentRef) -> bool {
    if is_split(r) {
        files::stays_inside(r.dict_filename@) && files::stays_inside(r.post_filename@)
    } else {
        files::stays_inside(combined_name(r))
    }
}

fn is_split_ref(r: &SegmentRef) -> (b: bool)
    ensures
        b == is_split(*r),
{
    r.dict_filename.len() > 0 && r.post_filename.len() > 0
}

fn are_names_inside(r: &SegmentRef) -> (b: bool)
    ensures
        b == names_inside(*r),
{
    if is_split_ref(r) {
        files::is_inside(r.dict_filename.as_slice()) && files::is_inside(
            r.post_filename.as_slice(),
        )
    } else if r.filename.len() > 0 {
        files::is_inside(r.filename.as_slice())
    } else {
        files::is_inside(r.dict_filename.as_slice())
    }
}

/// Which files to read for the segment at position `segment` of the manifest.
pub fn segment_files(r: &SegmentRef, segment: usize) -> (f: Result<SegmentFiles, IndexError>)
    ensures
        if !names_inside(*r) {
            f == Err::<SegmentFiles, IndexError>(
                IndexError::CorruptIndex(Corruption::InvalidSegmentFilename { segment }),
            )
        } else if is_split(*r) {
            f matches Ok(SegmentFiles::Split { dict, post }) && dict@ == r.dict_filename@ && post@
                == r.post_filename@
        } else {
            f matches Ok(SegmentFiles::Combined { name }) && name@ == combined_name(*r)
        },
{
    if !are_names_inside(r) {
        return Err(IndexError::CorruptIndex(Corruption::InvalidSegmentFilename { segment }));
    }
    if is_split_ref(r) {
        Ok(
            SegmentFiles::Split {
                dict: le::bytes_clone(r.dict_filename.as_slice()),
                post: le::bytes_clone(r.post_filename.as_slice()),
            },
        )
    } else if r.filename.len() > 0 {
        Ok(SegmentFiles::Combined { name: le::bytes_clone(r.filename.as_slice()) })
    } else {
        Ok(SegmentFiles::Combined { name: le::bytes_clone(r.dict_filename.as_slice()) })
    }
}

/// The contents of the files of a segment: the dictionary file, or the only
/// file; and the postings file, where there is one.
pub struct SegmentBytes {
    pub main: Vec<u8>,
    pub post: Vec<u8>,
}

/// What opening a segment gives: its layout, or the reason it is refused.
pub open spec fn segment_layout(
    r: SegmentRef,
    segment: usize,
    main: Seq<u8>,
    post: Seq<u8>,
    full: bool,
) -> Result<SegmentLayout, IndexError> {
    if !names_inside(r) {
        Err(IndexError::CorruptIndex(Corruption::InvalidSegmentFilename { segment }))
    } else if is_split(r) {
        if r.post_len matches Some(expected) && expected != post.len() {
            Err(
                IndexError::CorruptIndex(
                    Corruption::PostLengthChanged {
                        expected: r.post_len->0,
                        actual: post.len() as u64,
                    },
                ),
            )
        } else if main.len() > MAX_SEGMENT_SIZE {
            Err(IndexError::CorruptIndex(Corruption::SegmentTooLarge { bytes: main.len() as u64 }))
        } else {
            match reader::layout_of(
                main,
                seq![FORMAT_VERSION_V3],
                if full {
                    DictVerify::Full
                } else {
                    DictVerify::Structure
                },
            ) {
                Err(c) => Err(IndexError::CorruptIndex(c)),
                Ok(l) => match reader::post_verdict(
                    post,
                    if full {
                        PostVerify::Full
                    } else {
                        PostVerify::Structure
                    },
                ) {
                    Err(c) => Err(IndexError::CorruptIndex(c)),
                    Ok(_) => Ok(l),
                },
            }
        }
    } else if main.len() > MAX_SEGMENT_SIZE {
        Err(IndexError::CorruptIndex(Corruption::SegmentTooLarge { bytes: main.len() as u64 }))
    } else {
        match reader::layout_of(
            main,
            seq![FORMAT_VERSION_V2, FORMAT_VERSION_V3],
            DictVerify::Full,
        ) {
            Err(c) => Err(IndexError::CorruptIndex(c)),
            Ok(l) => Ok(l),
        }
    }
}

/// The segment that opening these files gives.
pub open spec fn is_opened(
    s: MmapSegment,
    r: SegmentRef,
    main: Seq<u8>,
    post: Seq<u8>,
    l: SegmentLayout,
) -> bool {
    &&& s.has_layout(main, l)
    &&& s.doc_bytes == r.doc_bytes
    &&& if is_split(r) {
        s.postings_start() == 0 && (s.backing() matches PostingsBacking::V3File(p) && p@ == post)
    } else {
        s.postings_start() == l.postings_start && s.backing() is V2Mmap
    }
}

/// Opens the segment at position `segment` of the manifest.
pub fn open_segment(r: &SegmentRef, segment: usize, bytes: SegmentBytes, full: bool) -> (s: Result<
    MmapSegment,
    IndexError,
>)
    ensures
        match segment_layout(*r, segment, bytes.main@, bytes.post@, full) {
            Err(e) => s == Err::<MmapSegment, IndexError>(e),
            Ok(l) => s matches Ok(x) && is_opened(x, *r, bytes.main@, bytes.post@, l),
        },
{
    if !are_names_inside(r) {
        return Err(IndexError::CorruptIndex(Corruption::InvalidSegmentFilename { segment }));
    }
    let opened = if is_split_ref(r) {
        match r.post_len {
            Some(expected) => {
                let actual: u64 = bytes.post.len() as u64;
                if actual != expected {
                    return Err(
                        IndexError::CorruptIndex(
                            Corruption::PostLengthChanged { expected, actual },
                        ),
                    );
                }
            },
            None => {},
        }
        let verify = if full {
            PostVerify::Full
        } else {
            PostVerify::Structure
        };
        let dict_verify = if full {
            DictVerify::Full
        } else {
            DictVerify::Structure
        };
        MmapSegment::open_split(bytes.main, bytes.post, verify, dict_verify)
    } else {
        MmapSegment::open(bytes.main)
    };
    match opened {
        Err(e) => Err(e),
        Ok(x) => {
            let mut x = x;
            x.doc_bytes = r.doc_bytes;
            Ok(x)
        },
    }
}

/// The documents of a segment by position.
pub open spec fn docs_in(b: Seq<u8>, l: SegmentLayout) -> Seq<Option<DocView>> {
    Seq::new(
        l.doc_count as nat,
        |i: int|
            reader::doc_in(b, l.doc_table_offset as int, l.dict_offset as int, i as u32),
    )
}

/// The documents of an opened segment by position.
pub open spec fn segment_docs(s: MmapSegment) -> Seq<Option<DocView>> {
    Seq::new(
        s.doc_count as nat,
        |i: int| reader::doc_in(s.bytes(), s.table(), s.dict(), i as u32),
    )
}

/// Paths and document ids of the segments taken so far.
#[verifier::ext_equal]
pub struct Admitted {
    /// First document id of each segment.
    pub base_ids: Seq<u32>,
    /// The path of each document id, where it has one.
    pub doc_paths: Seq<Option<Seq<u8>>>,
    /// The document ids of each path.
    pub path_ids: Map<Seq<u8>, Seq<u32>>,
    /// The id after the last segment.
    pub end: u32,
}

/// Nothing taken.
pub open spec fn nothing_admitted() -> Admitted {
    Admitted {
        base_ids: Seq::empty(),
        doc_paths: Seq::empty(),
        path_ids: Map::empty(),
        end: 0,
    }
}

/// The first id of the next segment: the recorded one, or the first free one.
pub open spec fn next_base(recorded: Option<u32>, end: u32) -> u32 {
    match recorded {
        Some(b) => b,
        None => end,
    }
}

/// Which of the first `n` documents is the first whose id is not that of its
/// position, as an error.
pub open spec fn misplaced(docs: Seq<Option<DocView>>, base: u32, n: nat) -> Option<IndexError>
    decreases n,
{
    if n == 0 {
        None
    } else {
        match misplaced(docs, base, (n - 1) as nat) {
            Some(e) => Some(e),
            None => match docs[n - 1] {
                Some(d) => if d.doc_id != base + (n - 1) {
                    Some(
                        IndexError::CorruptIndex(
                            Corruption::DocIdMismatch {
                                found: d.doc_id,
                                wanted: (base + (n - 1)) as u32,
                            },
                        ),
                    )
                } else {
                    None
                },
                None => None,
            },
        }
    }
}

/// Why a segment of these documents is not taken, if it is not.
pub open spec fn admission_fault(
    recorded: Option<u32>,
    end: u32,
    docs: Seq<Option<DocView>>,
) -> Option<IndexError> {
    let base = next_base(recorded, end);
    if base < end {
        Some(IndexError::CorruptIndex(Corruption::BaseDocIdRegresses { base, end }))
    } else if base + docs.len() > u32::MAX {
        Some(IndexError::DocIdOverflow { base_doc_count: base, overlay_docs: 0 })
    } else if base + docs.len() > MAX_TOTAL_DOCS {
        Some(
            IndexError::CorruptIndex(Corruption::TooManyDocs { total: (base + docs.len()) as u32 }),
        )
    } else {
        misplaced(docs, base, docs.len())
    }
}

/// `path` at position `id`, with gaps before it as needed.
pub open spec fn place(p: Seq<Option<Seq<u8>>>, id: int, path: Seq<u8>) -> Seq<Option<Seq<u8>>> {
    if p.len() <= id {
        p + Seq::new((id - p.len()) as nat, |i: int| None::<Seq<u8>>) + seq![Some(path)]
    } else {
        p.update(id, Some(path))
    }
}

/// The first `n` documents put at their ids.
pub open spec fn place_docs(
    p: Seq<Option<Seq<u8>>>,
    docs: Seq<Option<DocView>>,
    base: u32,
    n: nat,
) -> Seq<Option<Seq<u8>>>
    decreases n,
{
    if n == 0 {
        p
    } else {
        let before = place_docs(p, docs, base, (n - 1) as nat);
        match docs[n - 1] {
            Some(d) => place(before, base + (n - 1), d.path),
            None => before,
        }
    }
}

/// The first `n` documents put into the lists of their paths, in normal form.
pub open spec fn list_docs(
    m: Map<Seq<u8>, Seq<u32>>,
    docs: Seq<Option<DocView>>,
    base: u32,
    n: nat,
) -> Map<Seq<u8>, Seq<u32>>
    decreases n,
{
    if n == 0 {
        m
    } else {
        let before = list_docs(m, docs, base, (n - 1) as nat);
        match docs[n - 1] {
            Some(d) => paths::with_id(
                before,
                path_resolve::normal(d.path),
                (base + (n - 1)) as u32,
            ),
            None => before,
        }
    }
}

/// What is taken after a segment of these documents, or why it is refused.
pub open spec fn admit_docs(
    a: Admitted,
    recorded: Option<u32>,
    docs: Seq<Option<DocView>>,
) -> Result<Admitted, IndexError> {
    let base = next_base(recorded, a.end);
    match admission_fault(recorded, a.end, docs) {
        Some(e) => Err(e),
        None => Ok(
            Admitted {
                base_ids: a.base_ids.push(base),
                doc_paths: place_docs(a.doc_paths, docs, base, docs.len()),
                path_ids: list_docs(a.path_ids, docs, base, docs.len()),
                end: (base + docs.len()) as u32,
            },
        ),
    }
}

/// What is taken of the first `n` segments, or the first reason to refuse.
pub open spec fn load(
    refs: Seq<SegmentRef>,
    contents: Seq<SegmentBytes>,
    full: bool,
    n: nat,
) -> Result<Admitted, IndexError>
    decreases n,
{
    if n == 0 {
        Ok(nothing_admitted())
    } else {
        let i = n - 1;
        match load(refs, contents, full, (n - 1) as nat) {
            Err(e) => Err(e),
            Ok(a) => match segment_layout(
                refs[i],
                i as usize,
                contents[i].main@,
                contents[i].post@,
                full,
            ) {
                Err(e) => Err(e),
                Ok(l) => admit_docs(a, refs[i].base_doc_id, docs_in(contents[i].main@, l)),
            },
        }
    }
}

/// Optional paths as byte strings.
pub open spec fn optional_views(v: Seq<Option<Vec<u8>>>) -> Seq<Option<Seq<u8>>> {
    Seq::new(
        v.len(),
        |i: int|
            match v[i] {
                Some(p) => Some(p@),
                None => None,
            },
    )
}

/// Collects the segments of an index.
pub struct Admission {
    pub base: BaseSegments,
    pub end: u32,
}

impl View for Admission {
    type V = Admitted;

    open spec fn view(&self) -> Admitted {
        Admitted {
            base_ids: self.base.base_ids@,
            doc_paths: optional_views(self.base.base_doc_paths@),
            path_ids: paths::list_views(self.base.path_doc_ids@),
            end: self.end,
        }
    }
}

/// Puts a path at position `id`, which is not taken yet.
fn place_path(v: &mut Vec<Option<Vec<u8>>>, id: usize, path: &[u8])
    requires
        old(v)@.len() <= id,
    ensures
        optional_views(final(v)@) == place(optional_views(old(v)@), id as int, path@),
        final(v)@.len() == id + 1,
{
    let ghost before = v@;
    while v.len() < id
        invariant
            before.len() <= v@.len() <= id,
            forall|i: int| 0 <= i < before.len() ==> v@[i] == before[i],
            forall|i: int| before.len() <= i < v@.len() ==> v@[i] == None::<Vec<u8>>,
        decreases id - v@.len(),
    {
        v.push(None);
    }
    v.push(Some(le::bytes_clone(path)));
    assert(optional_views(v@) =~= place(optional_views(before), id as int, path@));
}

impl Admission {
    /// The segments passed their checks, and documents, ids and paths stay
    /// below the end.
    pub open spec fn wf(self) -> bool {
        &&& self.base.wf()
        &&& self.base.segments@.len() == self.base.base_ids@.len()
        &&& self.base.base_doc_paths@.len() <= self.end
        &&& self.base.path_doc_ids.values@.len() <= self.end
        &&& snapshot::doc_sum(self.base.segments@) <= self.end
        &&& self.end <= MAX_TOTAL_DOCS
    }

    pub fn new() -> (a: Self)
        ensures
            a.wf(),
            a@ == nothing_admitted(),
            a.base.segments@.len() == 0,
    {
        let base = BaseSegments::empty();
        let a = Admission { base, end: 0 };
        proof {
            a.base.path_doc_ids.keys.lemma_len();
            assert(a.base.path_doc_ids.keys@ =~= Set::<Seq<u8>>::empty()) by {
                assert forall|k: Seq<u8>| !a.base.path_doc_ids.keys@.contains(k) by {
                    assert(!a.base.path_doc_ids@.contains_key(k));
                }
            }
            assert(a@ =~= nothing_admitted());
        }
        a
    }

    /// Takes the next segment, or says why not.
    pub fn take(self, recorded: Option<u32>, seg: MmapSegment) -> (r: Result<Self, IndexError>)
        requires
            self.wf(),
            seg.wf(),
        ensures
            match admit_docs(self@, recorded, segment_docs(seg)) {
                Err(e) => r == Err::<Self, IndexError>(e),
                Ok(a) => r matches Ok(x) && x.wf() && x@ == a && x.base.segments@
                    == self.base.segments@.push(seg),
            },
    {
        let ghost docs = segment_docs(seg);
        let ghost old_view = self@;
        let mut a = self;
        let base: u32 = match recorded {
            Some(b) => b,
            None => a.end,
        };
        if base < a.end {
            return Err(
                IndexError::CorruptIndex(Corruption::BaseDocIdRegresses { base, end: a.end }),
            );
        }
        let end: u32 = match base.checked_add(seg.doc_count) {
            Some(e) => e,
            None => {
                return Err(IndexError::DocIdOverflow { base_doc_count: base, overlay_docs: 0 });
            },
        };
        if end > MAX_TOTAL_DOCS {
            return Err(IndexError::CorruptIndex(Corruption::TooManyDocs { total: end }));
        }
        let mut local: u32 = 0;
        while local < seg.doc_count
            invariant
                seg.wf(),
                docs == segment_docs(seg),
                local <= seg.doc_count,
                end == base + seg.doc_count,
                end <= MAX_TOTAL_DOCS,
                base >= old_view.end,
                a.base.wf(),
                a.end == old_view.end,
                a.base.segments@ == self.base.segments@,
                a.base.base_ids@ == old_view.base_ids,
                a.base.segments@.len() == a.base.base_ids@.len(),
                a.base.base_doc_paths@.len() <= base + local,
                a.base.path_doc_ids.values@.len() <= base + local,
                misplaced(docs, base, local as nat) is None,
                optional_views(a.base.base_doc_paths@) == place_docs(
                    old_view.doc_paths,
                    docs,
                    base,
                    local as nat,
                ),
                paths::list_views(a.base.path_doc_ids@) == list_docs(
                    old_view.path_ids,
                    docs,
                    base,
                    local as nat,
                ),
                admission_fault(recorded, old_view.end, docs) == misplaced(docs, base, docs.len()),
                base == next_base(recorded, old_view.end),
                old_view == self@,
            decreases seg.doc_count - local,
        {
            let id: u32 = base + local;
            assert(docs[local as int] == reader::doc_in(seg.bytes(), seg.table(), seg.dict(), local));
            match seg.get_doc(local) {
                Some(d) => {
                    if d.doc_id != id {
                        proof {
                            lemma_misplaced_stays(docs, base, (local + 1) as nat, docs.len());
                        }
                        return Err(
                            IndexError::CorruptIndex(
                                Corruption::DocIdMismatch { found: d.doc_id, wanted: id },
                            ),
                        );
                    }
                    place_path(&mut a.base.base_doc_paths, id as usize, d.path.as_slice());
                    a.base.path_doc_ids.push_id(d.path.as_slice(), id);
                },
                None => {},
            }
            local = local + 1;
        }
        a.base.base_ids.push(base);
        let ghost segs = a.base.segments@;
        a.base.segments.push(seg);
        assert(a.base.segments@.drop_last() =~= segs);
        a.end = end;
        Ok(a)
    }
}

/// A fault among the first documents stays the fault of all.
proof fn lemma_misplaced_stays(docs: Seq<Option<DocView>>, base: u32, n: nat, m: nat)
    requires
        n <= m <= docs.len(),
        misplaced(docs, base, n) is Some,
    ensures
        misplaced(docs, base, m) == misplaced(docs, base, n),
    decreases m,
{
    if n < m {
        lemma_misplaced_stays(docs, base, n, (m - 1) as nat);
    }
}

proof fn lemma_load_stays(
    refs: Seq<SegmentRef>,
    contents: Seq<SegmentBytes>,
    full: bool,
    n: nat,
    m: nat,
)
    requires
        n <= m,
        load(refs, contents, full, n) is Err,
    ensures
        load(refs, contents, full, m) == load(refs, contents, full, n),
    decreases m,
{
    if n < m {
        lemma_load_stays(refs, contents, full, n, (m - 1) as nat);
    }
}

/// The sidecars of an index as read from disk; nothing where a file could not
/// be read.
pub struct Sidecars {
    /// The delete set that the manifest names.
    pub deletes: Option<Vec<u8>>,
    /// The path index.
    pub paths_idx: Option<Vec<u8>>,
}

/// The ids that the delete-set sidecar holds. Without a name in the manifest
/// nothing is deleted; a named sidecar must be readable.
pub open spec fn deleted_ids(name: Option<Vec<u8>>, bytes: Option<Vec<u8>>) -> Option<Set<u32>> {
    match name {
        None => Some(Set::empty()),
        Some(n) => match bytes {
            None => None,
            Some(b) => if !files::plain(n@) || b@.len() > deletes_idx::MAX_SIDECAR_SIZE {
                None
            } else {
                match deletes_idx::decoded(b@) {
                    Ok(ids) => Some(ids),
                    Err(_) => None,
                }
            },
        },
    }
}

/// Reads the delete set; fails closed.
pub fn load_deletes(name: &Option<Vec<u8>>, bytes: &Option<Vec<u8>>) -> (r: Result<
    RoaringBitmap,
    IndexError,
>)
    ensures
        match deleted_ids(*name, *bytes) {
            Some(ids) => r matches Ok(b) && bitmap::values(b) == ids,
            None => r == Err::<RoaringBitmap, IndexError>(
                IndexError::CorruptIndex(Corruption::DeletesUnreadable),
            ),
        },
{
    match name {
        None => Ok(bitmap::new()),
        Some(n) => match bytes {
            None => Err(IndexError::CorruptIndex(Corruption::DeletesUnreadable)),
            Some(b) => match deletes_idx::read_deletes_idx(n.as_slice(), b.as_slice()) {
                Ok(ids) => Ok(ids),
                Err(_) => Err(IndexError::CorruptIndex(Corruption::DeletesUnreadable)),
            },
        },
    }
}

/// The path list of the path index sidecar, where it can be used: the manifest
/// was written with it, and it is sound.
pub open spec fn cached_paths(version: Option<u32>, bytes: Option<Vec<u8>>) -> Option<
    Seq<Seq<u8>>,
> {
    if version != Some(paths_idx::FORMAT_VERSION) {
        None
    } else {
        match bytes {
            None => None,
            Some(b) => if b@.len() > paths_idx::MAX_SIDECAR_SIZE {
                None
            } else {
                match paths_idx::decoded(b@) {
                    Ok(x) => Some(x.paths),
                    Err(_) => None,
                }
            },
        }
    }
}

/// The file ids of the base: those of the sidecar where it can be used, else
/// the positions of the paths in their order.
pub fn load_path_index(
    version: Option<u32>,
    bytes: &Option<Vec<u8>>,
    ids: &PathMap<Vec<u32>>,
) -> (r: PathIndex)
    requires
        ids.wf(),
        ids.values@.len() <= u32::MAX,
    ensures
        r.wf(),
        ({
            let list = match cached_paths(version, *bytes) {
                Some(list) => list,
                None => ids.keys.seq(),
            };
            r.file_ids() == path_index::positional(list) && r.next_id == list.len()
        }),
{
    if version == Some(paths_idx::FORMAT_VERSION) {
        match bytes {
            Some(b) => match paths_idx::read_paths_idx(b.as_slice()) {
                Ok(x) => {
                    return PathIndex::build(&x.paths);
                },
                Err(_) => {},
            },
            None => {},
        }
    }
    PathIndex::build(&ids.keys.paths)
}

/// What opening an index gives.
pub open spec fn is_opening(
    config: Config,
    manifest: Manifest,
    contents: Seq<SegmentBytes>,
    sidecars: Sidecars,
    r: Result<IndexSnapshot, IndexError>,
) -> bool {
    match load(
        manifest.segments@,
        contents,
        config.verify_on_open,
        manifest.segments@.len(),
    ) {
        Err(e) => r == Err::<IndexSnapshot, IndexError>(e),
        Ok(a) => match deleted_ids(manifest.overlay_deletes_file, sidecars.deletes) {
            None => r == Err::<IndexSnapshot, IndexError>(
                IndexError::CorruptIndex(Corruption::DeletesUnreadable),
            ),
            Some(ids) => r matches Ok(s) && {
                &&& s.wf()
                &&& s.segs().len() == manifest.segments@.len()
                &&& snapshot::doc_sum(s.segs()) <= a.end <= MAX_TOTAL_DOCS
                &&& forall|i: int|
                    0 <= i < s.segs().len() ==> #[trigger] opened_at(
                        s.segs(),
                        manifest.segments@,
                        contents,
                        config.verify_on_open,
                        i,
                    )
                &&& s.base.base_ids@ == a.base_ids
                &&& optional_views(s.base.base_doc_paths@) == a.doc_paths
                &&& paths::list_views(s.base.path_doc_ids@) == a.path_ids
                &&& s.overlay.documents() == Seq::<OverlayDocView>::empty()
                &&& s.overlay.base_doc_count == 0
                &&& s.overlay.next_doc_id == 0
                &&& s.deleted() == ids
                &&& ({
                    let list = match cached_paths(
                        manifest.paths_idx_version,
                        sidecars.paths_idx,
                    ) {
                        Some(list) => list,
                        None => s.base.path_doc_ids.keys.seq(),
                    };
                    s.path_index.file_ids() == path_index::positional(list)
                        && s.path_index.next_id == list.len()
                })
                &&& s.overlay_doc_to_file_id@ == Map::<u32, u32>::empty()
            },
        },
    }
}

/// Opens an index from its manifest, the contents of its segment files, in the
/// order of the manifest, and its sidecars.
///
/// Segments are checked and taken one after the other: ids must not regress,
/// must stay below [`MAX_TOTAL_DOCS`], and must be those of the positions.
pub fn open_inner(
    config: &Config,
    manifest: &Manifest,
    contents: Vec<SegmentBytes>,
    sidecars: Sidecars,
) -> (r: Result<IndexSnapshot, IndexError>)
    requires
        contents@.len() == manifest.segments@.len(),
    ensures
        is_opening(*config, *manifest, contents@, sidecars, r),
{
    let full: bool = config.verify_on_open;
    let ghost refs = manifest.segments@;
    let ghost all = contents@;
    let mut queue = contents;
    let mut adm = Admission::new();
    let mut i: usize = 0;
    assert(all.skip(0) =~= all);
    while i < manifest.segments.len()
        invariant
            refs == manifest.segments@,
            all.len() == refs.len(),
            full == config.verify_on_open,
            i <= refs.len(),
            queue@ == all.skip(i as int),
            all == contents@,
            adm.wf(),
            adm.base.segments@.len() == i,
            load(refs, all, full, i as nat) == Ok::<Admitted, IndexError>(adm@),
            forall|k: int| 0 <= k < i ==> #[trigger] opened_at(adm.base.segments@, refs, all, full, k),
        decreases refs.len() - i,
    {
        let bytes = queue.remove(0);
        assert(bytes == all[i as int]);
        assert(queue@ =~= all.skip(i + 1));
        let r: &SegmentRef = &manifest.segments[i];
        let ghost segs0 = adm.base.segments@;
        match open_segment(r, i, bytes, full) {
            Err(e) => {
                proof {
                    lemma_load_stays(refs, all, full, (i + 1) as nat, refs.len());
                }
                return Err(e);
            },
            Ok(seg) => {
                proof {
                    let l = segment_layout(refs[i as int], i, all[i as int].main@, all[i as int].post@, full)->Ok_0;
                    assert(segment_docs(seg) =~= docs_in(all[i as int].main@, l));
                }
                match adm.take(r.base_doc_id, seg) {
                    Err(e) => {
                        proof {
                            lemma_load_stays(refs, all, full, (i + 1) as nat, refs.len());
                        }
                        return Err(e);
                    },
                    Ok(next) => {
                        adm = next;
                        assert forall|k: int| 0 <= k < i + 1 implies #[trigger] opened_at(
                            adm.base.segments@,
                            refs,
                            all,
                            full,
                            k,
                        ) by {
                            if k < i {
                                assert(opened_at(segs0, refs, all, full, k));
                            }
                        }
                    },
                }
            },
        }
        i = i + 1;
    }
    let path_index = load_path_index(
        manifest.paths_idx_version,
        &sidecars.paths_idx,
        &adm.base.path_doc_ids,
    );
    match load_deletes(&manifest.overlay_deletes_file, &sidecars.deletes) {
        Err(e) => Err(e),
        Ok(delete_set) => Ok(
            snapshot::new_snapshot(
                Arc::new(adm.base),
                OverlayView::empty(),
                delete_set,
                path_index,
                HashMap::new(),
            ),
        ),
    }
}

/// Segment `i` is the one that its files and its entry in the manifest give.
pub open spec fn opened_at(
    segs: Seq<MmapSegment>,
    refs: Seq<SegmentRef>,
    contents: Seq<SegmentBytes>,
    full: bool,
    i: int,
) -> bool {
    segment_layout(
        refs[i],
        i as usize,
        contents[i].main@,
        contents[i].post@,
        full,
    ) matches Ok(l) && is_opened(segs[i], refs[i], contents[i].main@, contents[i].post@, l)
}

/// How many documents segment `i` holds.
pub open spec fn count_at(
    refs: Seq<SegmentRef>,
    contents: Seq<SegmentBytes>,
    full: bool,
    i: int,
) -> int {
    match segment_layout(refs[i], i as usize, contents[i].main@, contents[i].post@, full) {
        Ok(l) => l.doc_count as int,
        Err(_) => 0,
    }
}

/// In an index that opens, the document ids of the segments do not overlap and
/// ascend with the segments; the last of them is below the limit.
pub proof fn law_segment_ranges_ascend(
    refs: Seq<SegmentRef>,
    contents: Seq<SegmentBytes>,
    full: bool,
    n: nat,
    a: Admitted,
)
    requires
        load(refs, contents, full, n) == Ok::<Admitted, IndexError>(a),
    ensures
        a.base_ids.len() == n,
        a.end <= MAX_TOTAL_DOCS,
        forall|i: int|
            0 <= i < n ==> #[trigger] a.base_ids[i] + count_at(refs, contents, full, i) <= a.end,
        forall|i: int, j: int|
            0 <= i < j < n ==> #[trigger] a.base_ids[i] + count_at(refs, contents, full, i)
                <= #[trigger] a.base_ids[j],
    decreases n,
{
    if n > 0 {
        let before = load(refs, contents, full, (n - 1) as nat)->Ok_0;
        law_segment_ranges_ascend(refs, contents, full, (n - 1) as nat, before);
        assert(a.base_ids.drop_last() =~= before.base_ids);
        assert forall|i: int| 0 <= i < n - 1 implies a.base_ids[i] == before.base_ids[i] by {
            assert(a.base_ids.drop_last()[i] == before.base_ids[i]);
        }
    }
}

/// The path at a document id, in its normal form.
pub open spec fn placed(p: Seq<Option<Seq<u8>>>, path: Seq<u8>, id: u32) -> bool {
    id < p.len() && (p[id as int] matches Some(q) && path_resolve::normal(q) == path)
}

/// The id is in the list of the path.
pub open spec fn listed(m: Map<Seq<u8>, Seq<u32>>, path: Seq<u8>, id: u32) -> bool {
    m.contains_key(path) && m[path].contains(id)
}

/// A document has a path exactly if the path lists the document.
pub open spec fn agree(p: Seq<Option<Seq<u8>>>, m: Map<Seq<u8>, Seq<u32>>) -> bool {
    forall|path: Seq<u8>, id: u32|
        #![trigger placed(p, path, id)]
        #![trigger listed(m, path, id)]
        placed(p, path, id) <==> listed(m, path, id)
}

proof fn lemma_agree_step(
    p: Seq<Option<Seq<u8>>>,
    m: Map<Seq<u8>, Seq<u32>>,
    text: Seq<u8>,
    id: u32,
)
    requires
        agree(p, m),
        p.len() <= id,
    ensures
        agree(place(p, id as int, text), paths::with_id(m, path_resolve::normal(text), id)),
{
    let path = path_resolve::normal(text);
    let p2 = place(p, id as int, text);
    let m2 = paths::with_id(m, path, id);
    assert forall|q: Seq<u8>, d: u32|
        #![trigger placed(p2, q, d)]
        #![trigger listed(m2, q, d)]
        placed(p2, q, d) <==> listed(m2, q, d) by {
        assert(placed(p, q, d) <==> listed(m, q, d));
        if q == path {
            if m.contains_key(path) {
                let l = m[path];
                if l.contains(d) {
                    let k = choose|k: int| 0 <= k < l.len() && l[k] == d;
                    assert(l.push(id)[k] == d);
                }
                if l.push(id).contains(d) {
                    let k = choose|k: int| 0 <= k < l.push(id).len() && l.push(id)[k] == d;
                    if k < l.len() {
                        assert(l[k] == d);
                    }
                }
                assert(l.push(id)[l.len() as int] == id);
            } else {
                assert(seq![id][0] == id);
            }
        }
    }
}

proof fn lemma_agree_docs(
    p: Seq<Option<Seq<u8>>>,
    m: Map<Seq<u8>, Seq<u32>>,
    docs: Seq<Option<DocView>>,
    base: u32,
    n: nat,
)
    requires
        agree(p, m),
        p.len() <= base,
        n <= docs.len(),
        base + docs.len() <= u32::MAX,
    ensures
        agree(place_docs(p, docs, base, n), list_docs(m, docs, base, n)),
        place_docs(p, docs, base, n).len() <= base + n,
    decreases n,
{
    if n > 0 {
        lemma_agree_docs(p, m, docs, base, (n - 1) as nat);
        if let Some(d) = docs[n - 1] {
            lemma_agree_step(
                place_docs(p, docs, base, (n - 1) as nat),
                list_docs(m, docs, base, (n - 1) as nat),
                d.path,
                (base + (n - 1)) as u32,
            );
        }
    }
}

/// In an index that opens, the lists of document ids by path and the list of
/// paths by document id say the same.
pub proof fn law_paths_and_ids_agree(
    refs: Seq<SegmentRef>,
    contents: Seq<SegmentBytes>,
    full: bool,
    n: nat,
    a: Admitted,
)
    requires
        load(refs, contents, full, n) == Ok::<Admitted, IndexError>(a),
    ensures
        agree(a.doc_paths, a.path_ids),
        a.doc_paths.len() <= a.end,
    decreases n,
{
    if n == 0 {
        assert forall|q: Seq<u8>, d: u32|
            #![trigger placed(a.doc_paths, q, d)]
            #![trigger listed(a.path_ids, q, d)]
            placed(a.doc_paths, q, d) <==> listed(a.path_ids, q, d) by {}
    } else {
        let i = n - 1;
        let before = load(refs, contents, full, (n - 1) as nat)->Ok_0;
        law_paths_and_ids_agree(refs, contents, full, (n - 1) as nat, before);
        let l = segment_layout(
            refs[i],
            i as usize,
            contents[i].main@,
            contents[i].post@,
            full,
        )->Ok_0;
        let docs = docs_in(contents[i].main@, l);
        lemma_agree_docs(
            before.doc_paths,
            before.path_ids,
            docs,
            next_base(refs[i].base_doc_id, before.end),
            docs.len(),
        );
    }
}

/// Why a base segment does not pass a full check, if it does not.
pub open spec fn segment_fault(s: MmapSegment) -> Option<Corruption> {
    if !reader::checksum_ok(s.bytes()) {
        Some(Corruption::ChecksumMismatch)
    } else {
        match s.backing() {
            PostingsBacking::V2Mmap => None,
            PostingsBacking::V3File(p) => match reader::post_verdict(p@, PostVerify::Full) {
                Ok(_) => None,
                Err(c) => Some(c),
            },
            PostingsBacking::InMemory(p) => match reader::post_verdict(p@, PostVerify::Full) {
                Ok(_) => None,
                Err(c) => Some(c),
            },
        }
    }
}

/// The first fault among the first `n` segments.
pub open spec fn first_fault(segs: Seq<MmapSegment>, n: nat) -> Option<Corruption>
    decreases n,
{
    if n == 0 {
        None
    } else {
        match first_fault(segs, (n - 1) as nat) {
            Some(c) => Some(c),
            None => segment_fault(segs[n - 1]),
        }
    }
}

proof fn lemma_first_fault_stays(segs: Seq<MmapSegment>, n: nat, m: nat)
    requires
        n <= m,
        first_fault(segs, n) is Some,
    ensures
        first_fault(segs, m) == first_fault(segs, n),
    decreases m,
{
    if n < m {
        lemma_first_fault_stays(segs, n, (m - 1) as nat);
    }
}

/// What a full check of an index gives: its first fault, in the order of the
/// segments, the manifest and the delete set.
pub open spec fn is_verification(
    r: Result<(), IndexError>,
    snap: IndexSnapshot,
    manifest: Manifest,
    deletes: Option<Vec<u8>>,
) -> bool {
    match first_fault(snap.segs(), snap.segs().len()) {
        Some(c) => r == Err::<(), IndexError>(IndexError::CorruptIndex(c)),
        None => if manifest.checksum is None {
            r == Err::<(), IndexError>(IndexError::CorruptIndex(Corruption::MissingChecksum))
        } else if deleted_ids(manifest.overlay_deletes_file, deletes) is None {
            r == Err::<(), IndexError>(IndexError::CorruptIndex(Corruption::DeletesUnreadable))
        } else {
            r == Ok::<(), IndexError>(())
        },
    }
}

/// Checks an index in full: the checksums of all segment files, that the
/// manifest has a checksum, and that the delete set it names is readable.
pub fn verify(snap: &IndexSnapshot, manifest: &Manifest, deletes: &Option<Vec<u8>>) -> (r: Result<
    (),
    IndexError,
>)
    requires
        snap.wf(),
    ensures
        is_verification(r, *snap, *manifest, *deletes),
{
    let segments: &Vec<MmapSegment> = snap.base_segments();
    let ghost segs = snap.segs();
    let mut i: usize = 0;
    while i < segments.len()
        invariant
            segs == segments@,
            segs == snap.segs(),
            snapshot::segments_wf(segs),
            i <= segs.len(),
            first_fault(segs, i as nat) is None,
        decreases segs.len() - i,
    {
        let seg: &MmapSegment = &segments[i];
        assert(segs[i as int].wf());
        match seg.verify_integrity() {
            Err(e) => {
                proof {
                    lemma_first_fault_stays(segs, (i + 1) as nat, segs.len());
                }
                return Err(e);
            },
            Ok(_) => {},
        }
        match seg.verify_postings() {
            Err(e) => {
                proof {
                    lemma_first_fault_stays(segs, (i + 1) as nat, segs.len());
                }
                return Err(e);
            },
            Ok(_) => {},
        }
        i = i + 1;
    }
    if manifest.checksum.is_none() {
        return Err(IndexError::CorruptIndex(Corruption::MissingChecksum));
    }
    match load_deletes(&manifest.overlay_deletes_file, deletes) {
        Err(e) => Err(e),
        Ok(_) => Ok(()),
    }
}

} // verus!
