//! The manifest: which segments and sidecars make up the index.

use crate::files;
use crate::hash;
use crate::le;
use crate::segment::writer::SegmentMeta;
use vstd::prelude::*;

verus! {

/// Version of the manifest format.
pub const FORMAT_VERSION: u32 = 1;

/// Larger manifests are refused unread: 10 MiB.
pub const MAX_MANIFEST_SIZE: u64 = 10_485_760;

/// An active base segment.
#[derive(Debug)]
pub struct SegmentRef {
    /// UUID of the segment.
    pub segment_id: Vec<u8>,
    /// First document id of the segment, where it is recorded.
    pub base_doc_id: Option<u32>,
    /// Combined file of a version 2 segment; empty for version 3.
    pub filename: Vec<u8>,
    /// Dictionary file of a version 3 segment; empty for version 2.
    pub dict_filename: Vec<u8>,
    /// Postings file of a version 3 segment; empty for version 2.
    pub post_filename: Vec<u8>,
    /// Number of documents.
    pub doc_count: u32,
    /// Number of distinct grams.
    pub gram_count: u32,
    /// Size of the postings file, where it is recorded.
    pub post_len: Option<u64>,
    /// Sum of the document sizes, where it is recorded.
    pub doc_bytes: Option<u64>,
}

/// What a [`SegmentRef`] holds.
#[verifier::ext_equal]
pub struct SegmentRefView {
    pub segment_id: Seq<u8>,
    pub base_doc_id: Option<u32>,
    pub filename: Seq<u8>,
    pub dict_filename: Seq<u8>,
    pub post_filename: Seq<u8>,
    pub doc_count: u32,
    pub gram_count: u32,
    pub post_len: Option<u64>,
    pub doc_bytes: Option<u64>,
}

impl View for SegmentRef {
    type V = SegmentRefView;

    open spec fn view(&self) -> SegmentRefView {
        SegmentRefView {
            segment_id: self.segment_id@,
            base_doc_id: self.base_doc_id,
            filename: self.filename@,
            dict_filename: self.dict_filename@,
            post_filename: self.post_filename@,
            doc_count: self.doc_count,
            gram_count: self.gram_count,
            post_len: self.post_len,
            doc_bytes: self.doc_bytes,
        }
    }
}

/// The views of a list of references.
pub open spec fn ref_views(refs: Seq<SegmentRef>) -> Seq<SegmentRefView> {
    Seq::new(refs.len(), |i: int| refs[i]@)
}

impl SegmentRef {
    /// The reference to a segment that was just written.
    pub fn from_meta(m: SegmentMeta, base_doc_id: Option<u32>) -> (r: Self)
        ensures
            r@ == (SegmentRefView {
                segment_id: m.segment_id@,
                base_doc_id,
                filename: m.filename@,
                dict_filename: m.dict_filename@,
                post_filename: m.post_filename@,
                doc_count: m.doc_count,
                gram_count: m.gram_count,
                post_len: Some(m.post_len),
                doc_bytes: Some(m.doc_bytes),
            }),
    {
        SegmentRef {
            segment_id: m.segment_id,
            base_doc_id,
            filename: m.filename,
            dict_filename: m.dict_filename,
            post_filename: m.post_filename,
            doc_count: m.doc_count,
            gram_count: m.gram_count,
            post_len: Some(m.post_len),
            doc_bytes: Some(m.doc_bytes),
        }
    }

    /// An owned copy.
    pub fn copy(&self) -> (r: Self)
        ensures
            r@ == self@,
    {
        SegmentRef {
            segment_id: le::bytes_clone(self.segment_id.as_slice()),
            base_doc_id: self.base_doc_id,
            filename: le::bytes_clone(self.filename.as_slice()),
            dict_filename: le::bytes_clone(self.dict_filename.as_slice()),
            post_filename: le::bytes_clone(self.post_filename.as_slice()),
            doc_count: self.doc_count,
            gram_count: self.gram_count,
            post_len: self.post_len,
            doc_bytes: self.doc_bytes,
        }
    }
}

/// Copies of the first `n` references.
pub fn copy_refs(refs: &Vec<SegmentRef>, n: usize) -> (r: Vec<SegmentRef>)
    requires
        n <= refs@.len(),
    ensures
        ref_views(r@) == ref_views(refs@).take(n as int),
{
    let mut r: Vec<SegmentRef> = Vec::new();
    let mut i: usize = 0;
    assert(ref_views(r@) =~= ref_views(refs@).take(0));
    while i < n
        invariant
            i <= n <= refs@.len(),
            ref_views(r@) == ref_views(refs@).take(i as int),
        decreases n - i,
    {
        let ghost before = r@;
        r.push(refs[i].copy());
        proof {
            assert(ref_views(r@) =~= ref_views(before).push(refs@[i as int]@));
            assert(ref_views(refs@).take(i + 1) =~= ref_views(refs@).take(i as int).push(
                refs@[i as int]@,
            ));
        }
        i = i + 1;
    }
    r
}

/// The state of the index on disk.
#[derive(Debug)]
pub struct Manifest {
    /// Format version.
    pub version: u32,
    /// Commit that the base segments reflect, if recorded.
    pub base_commit: Option<Vec<u8>>,
    /// Active base segments.
    pub segments: Vec<SegmentRef>,
    /// Number of durable overlay flushes.
    pub overlay_gen: u64,
    /// Overlay gram index on disk, if any.
    pub overlay_file: Option<Vec<u8>>,
    /// Delete-set sidecar, if any.
    pub overlay_deletes_file: Option<Vec<u8>>,
    /// Working-tree anchor sidecar, if any.
    pub worktree_anchor_file: Option<Vec<u8>>,
    /// Version of the path index sidecar, if one was written.
    pub paths_idx_version: Option<u32>,
    /// Files indexed across all segments.
    pub total_files_indexed: u32,
    /// Unix time at which the manifest was created.
    pub created_at: u64,
    /// Operation stamp.
    pub opstamp: u64,
    /// Checksum of the manifest written without this field.
    pub checksum: Option<u64>,
}

/// Why a manifest was refused.
#[derive(Debug, Clone, Copy, PartialEq, Eq, Structural)]
pub enum ManifestError {
    /// The file is larger than [`MAX_MANIFEST_SIZE`].
    TooLarge { bytes: u64 },
    /// The stored checksum is not the computed one.
    ChecksumMismatch { stored: u64, computed: u64 },
    /// The id of the segment at this position is no UUID.
    BadSegmentId { segment: usize },
}

/// The documents of all segments.
pub open spec fn doc_total(refs: Seq<SegmentRef>) -> nat
    decreases refs.len(),
{
    if refs.len() == 0 {
        0
    } else {
        doc_total(refs.drop_last()) + refs.last().doc_count as nat
    }
}

/// A prefix has no more documents than the whole.
pub proof fn lemma_doc_total_prefix(refs: Seq<SegmentRef>, i: int)
    requires
        0 <= i <= refs.len(),
    ensures
        doc_total(refs.take(i)) <= doc_total(refs),
    decreases refs.len() - i,
{
    if i < refs.len() {
        lemma_doc_total_prefix(refs, i + 1);
        assert(refs.take(i + 1).drop_last() =~= refs.take(i));
    } else {
        assert(refs.take(i) =~= refs);
    }
}

/// Whether the documents of the segments can be counted in 32 bits.
pub fn counts_fit(segments: &Vec<SegmentRef>) -> (r: bool)
    ensures
        r == (doc_total(segments@) <= u32::MAX),
{
    let mut n: u32 = 0;
    let mut i: usize = 0;
    assert(segments@.take(0).len() == 0);
    while i < segments.len()
        invariant
            i <= segments@.len(),
            n == doc_total(segments@.take(i as int)),
        decreases segments@.len() - i,
    {
        proof {
            assert(segments@.take(i + 1).drop_last() =~= segments@.take(i as int));
            lemma_doc_total_prefix(segments@, i + 1);
        }
        match n.checked_add(segments[i].doc_count) {
            Some(m) => {
                n = m;
            },
            None => {
                return false;
            },
        }
        i = i + 1;
    }
    assert(segments@.take(i as int) =~= segments@);
    true
}

/// The documents of all segments together.
pub fn manifest_total_docs(segments: &Vec<SegmentRef>) -> (n: u32)
    requires
        doc_total(segments@) <= u32::MAX,
    ensures
        n == doc_total(segments@),
{
    let mut n: u32 = 0;
    let mut i: usize = 0;
    while i < segments.len()
        invariant
            i <= segments@.len(),
            doc_total(segments@) <= u32::MAX,
            n == doc_total(segments@.take(i as int)),
        decreases segments@.len() - i,
    {
        proof {
            lemma_doc_total_prefix(segments@, i + 1);
            assert(segments@.take(i + 1).drop_last() =~= segments@.take(i as int));
        }
        n = n + segments[i].doc_count;
        i = i + 1;
    }
    assert(segments@.take(i as int) =~= segments@);
    n
}

/// One of the segment's files has this name.
pub open spec fn names_file(r: SegmentRef, name: Seq<u8>) -> bool {
    (r.filename@.len() > 0 && r.filename@ == name) || (r.dict_filename@.len() > 0
        && r.dict_filename@ == name) || (r.post_filename@.len() > 0 && r.post_filename@ == name)
}

/// `.seg`, `.dict` and `.post` files hold segments.
pub open spec fn is_segment_name(name: Seq<u8>) -> bool {
    files::ends_with(name, seq![0x2Eu8, 0x73, 0x65, 0x67]) || files::ends_with(
        name,
        seq![0x2Eu8, 0x64, 0x69, 0x63, 0x74],
    ) || files::ends_with(name, seq![0x2Eu8, 0x70, 0x6F, 0x73, 0x74])
}

/// `deletes-*.idx` files hold delete sets.
pub open spec fn is_deletes_name(name: Seq<u8>) -> bool {
    files::starts_with(name, seq![0x64u8, 0x65, 0x6C, 0x65, 0x74, 0x65, 0x73, 0x2D])
        && files::ends_with(name, seq![0x2Eu8, 0x69, 0x64, 0x78])
}

/// `worktree-*.idx` files hold working-tree anchors.
pub open spec fn is_worktree_name(name: Seq<u8>) -> bool {
    files::starts_with(name, seq![0x77u8, 0x6F, 0x72, 0x6B, 0x74, 0x72, 0x65, 0x65, 0x2D])
        && files::ends_with(name, seq![0x2Eu8, 0x69, 0x64, 0x78])
}

/// `.tmp` files are left by interrupted writes.
pub open spec fn is_tmp_name(name: Seq<u8>) -> bool {
    files::ends_with(name, seq![0x2Eu8, 0x74, 0x6D, 0x70])
}

/// The optional name is this one.
pub open spec fn is_named(o: Option<Vec<u8>>, name: Seq<u8>) -> bool {
    o matches Some(n) && n@ == name
}

fn named(o: &Option<Vec<u8>>, name: &[u8]) -> (r: bool)
    ensures
        r == is_named(*o, name@),
{
    match o {
        Some(n) => le::bytes_eq(n.as_slice(), name),
        None => false,
    }
}

impl Manifest {
    /// A manifest of these segments, created at this time.
    pub fn new(segments: Vec<SegmentRef>, total_files_indexed: u32, created_at: u64) -> (m: Self)
        ensures
            m == (Manifest {
                version: FORMAT_VERSION,
                base_commit: None,
                segments,
                overlay_gen: 0,
                overlay_file: None,
                overlay_deletes_file: None,
                worktree_anchor_file: None,
                paths_idx_version: None,
                total_files_indexed,
                created_at,
                opstamp: 0,
                checksum: None,
            }),
    {
        Manifest {
            version: FORMAT_VERSION,
            base_commit: None,
            segments,
            overlay_gen: 0,
            overlay_file: None,
            overlay_deletes_file: None,
            worktree_anchor_file: None,
            paths_idx_version: None,
            total_files_indexed,
            created_at,
            opstamp: 0,
            checksum: None,
        }
    }

    /// Why a manifest read from disk is refused, if it is: its size, then its
    /// checksum over `canonical`, the text of the manifest without the
    /// checksum, then the ids of its segments.
    pub open spec fn fault(self, file_len: u64, canonical: Seq<u8>) -> Option<ManifestError> {
        if file_len > MAX_MANIFEST_SIZE {
            Some(ManifestError::TooLarge { bytes: file_len })
        } else if self.checksum matches Some(stored) && stored != hash::xxh64_of(canonical, 0) {
            Some(
                ManifestError::ChecksumMismatch {
                    stored: self.checksum->0,
                    computed: hash::xxh64_of(canonical, 0),
                },
            )
        } else {
            bad_segment_id(self.segments@)
        }
    }

    /// What taking a manifest that was parsed from a file gives.
    pub open spec fn is_taken(
        self,
        file_len: u64,
        canonical: Seq<u8>,
        r: Result<Manifest, ManifestError>,
    ) -> bool {
        match self.fault(file_len, canonical) {
            Some(e) => r == Err::<Manifest, ManifestError>(e),
            None => r == Ok::<Manifest, ManifestError>(self),
        }
    }

    /// Takes a manifest that was parsed from a file, or refuses it.
    pub fn load(parsed: Manifest, file_len: u64, canonical: &[u8]) -> (r: Result<
        Manifest,
        ManifestError,
    >)
        ensures
            parsed.is_taken(file_len, canonical@, r),
    {
        if file_len > MAX_MANIFEST_SIZE {
            return Err(ManifestError::TooLarge { bytes: file_len });
        }
        match parsed.checksum {
            Some(stored) => {
                let computed: u64 = hash::xxh64(canonical, 0);
                if computed != stored {
                    return Err(ManifestError::ChecksumMismatch { stored, computed });
                }
            },
            None => {},
        }
        let mut i: usize = 0;
        assert(parsed.segments@.skip(0) =~= parsed.segments@);
        while i < parsed.segments.len()
            invariant
                i <= parsed.segments@.len(),
                forall|k: int|
                    0 <= k < i ==> files::uuid_text((#[trigger] parsed.segments@[k]).segment_id@),
                parsed.fault(file_len, canonical@) == bad_segment_id(parsed.segments@),
            decreases parsed.segments@.len() - i,
        {
            if !files::is_uuid(parsed.segments[i].segment_id.as_slice()) {
                proof {
                    lemma_bad_segment_id(parsed.segments@, i as int);
                }
                return Err(ManifestError::BadSegmentId { segment: i });
            }
            i = i + 1;
        }
        Ok(parsed)
    }

    /// This manifest with the checksum of `canonical`, its text without one.
    pub fn seal(self, canonical: &[u8]) -> (m: Self)
        ensures
            m == (Manifest { checksum: Some(hash::xxh64_of(canonical@, 0)), ..self }),
    {
        let checksum: u64 = hash::xxh64(canonical, 0);
        Manifest { checksum: Some(checksum), ..self }
    }

    /// A file that garbage collection removes: a segment file of no listed
    /// segment, a sidecar that the manifest does not name, or a temporary.
    pub open spec fn is_orphan(self, name: Seq<u8>) -> bool {
        ||| is_segment_name(name) && !(exists|i: int|
            0 <= i < self.segments@.len() && names_file(#[trigger] self.segments@[i], name))
        ||| is_deletes_name(name) && !is_named(self.overlay_deletes_file, name)
        ||| is_worktree_name(name) && !is_named(self.worktree_anchor_file, name)
        ||| is_tmp_name(name)
    }

    fn orphan(&self, name: &[u8]) -> (r: bool)
        ensures
            r == self.is_orphan(name@),
    {
        let seg: [u8; 4] = [0x2E, 0x73, 0x65, 0x67];
        let dict: [u8; 5] = [0x2E, 0x64, 0x69, 0x63, 0x74];
        let post: [u8; 5] = [0x2E, 0x70, 0x6F, 0x73, 0x74];
        let idx: [u8; 4] = [0x2E, 0x69, 0x64, 0x78];
        let tmp: [u8; 4] = [0x2E, 0x74, 0x6D, 0x70];
        let deletes: [u8; 8] = [0x64, 0x65, 0x6C, 0x65, 0x74, 0x65, 0x73, 0x2D];
        let worktree: [u8; 9] = [0x77, 0x6F, 0x72, 0x6B, 0x74, 0x72, 0x65, 0x65, 0x2D];
        proof {
            assert(seg@ =~= seq![0x2Eu8, 0x73, 0x65, 0x67]);
            assert(dict@ =~= seq![0x2Eu8, 0x64, 0x69, 0x63, 0x74]);
            assert(post@ =~= seq![0x2Eu8, 0x70, 0x6F, 0x73, 0x74]);
            assert(idx@ =~= seq![0x2Eu8, 0x69, 0x64, 0x78]);
            assert(tmp@ =~= seq![0x2Eu8, 0x74, 0x6D, 0x70]);
            assert(deletes@ =~= seq![0x64u8, 0x65, 0x6C, 0x65, 0x74, 0x65, 0x73, 0x2D]);
            assert(worktree@ =~= seq![0x77u8, 0x6F, 0x72, 0x6B, 0x74, 0x72, 0x65, 0x65, 0x2D]);
        }
        let segment = files::has_suffix(name, &seg) || files::has_suffix(name, &dict)
            || files::has_suffix(name, &post);
        let stray_segment = segment && !self.knows(name);
        let indexed = files::has_suffix(name, &idx);
        let stray_deletes = indexed && files::has_prefix(name, &deletes) && !named(
            &self.overlay_deletes_file,
            name,
        );
        let stray_worktree = indexed && files::has_prefix(name, &worktree) && !named(
            &self.worktree_anchor_file,
            name,
        );
        stray_segment || stray_deletes || stray_worktree || files::has_suffix(name, &tmp)
    }

    fn knows(&self, name: &[u8]) -> (r: bool)
        ensures
            r == exists|i: int|
                0 <= i < self.segments@.len() && names_file(#[trigger] self.segments@[i], name@),
    {
        let mut i: usize = 0;
        while i < self.segments.len()
            invariant
                i <= self.segments@.len(),
                forall|k: int|
                    0 <= k < i ==> !names_file(#[trigger] self.segments@[k], name@),
            decreases self.segments@.len() - i,
        {
            let s: &SegmentRef = &self.segments[i];
            if (s.filename.len() > 0 && le::bytes_eq(s.filename.as_slice(), name)) || (
            s.dict_filename.len() > 0 && le::bytes_eq(s.dict_filename.as_slice(), name)) || (
            s.post_filename.len() > 0 && le::bytes_eq(s.post_filename.as_slice(), name)) {
                assert(names_file(self.segments@[i as int], name@));
                return true;
            }
            i = i + 1;
        }
        false
    }

    /// These are the positions of the names of the files that garbage collection removes.
    pub open spec fn is_collection(self, names: Seq<Vec<u8>>, r: Seq<usize>) -> bool {
        &&& forall|i: int, j: int| 0 <= i < j < r.len() ==> r[i] < r[j]
        &&& forall|i: int| 0 <= i < r.len() ==> #[trigger] r[i] < names.len()
        &&& forall|k: int|
            0 <= k < names.len() ==> (r.contains(k as usize) <==> self.is_orphan(
                #[trigger] names[k]@,
            ))
    }

    /// Which of the files in the index directory garbage collection removes:
    /// the positions of their names, ascending.
    pub fn gc_orphan_segments(&self, names: &Vec<Vec<u8>>) -> (r: Vec<usize>)
        ensures
            self.is_collection(names@, r@),
    {
        let mut r: Vec<usize> = Vec::new();
        let mut k: usize = 0;
        while k < names.len()
            invariant
                k <= names@.len(),
                forall|i: int, j: int| 0 <= i < j < r@.len() ==> r@[i] < r@[j],
                forall|i: int| 0 <= i < r@.len() ==> #[trigger] r@[i] < k,
                forall|x: int|
                    0 <= x < k ==> (r@.contains(x as usize) <==> self.is_orphan(
                        #[trigger] names@[x]@,
                    )),
            decreases names@.len() - k,
        {
            let ghost before = r@;
            let stray = self.orphan(names[k].as_slice());
            if stray {
                r.push(k);
            }
            assert forall|x: int| 0 <= x < k + 1 implies (r@.contains(x as usize)
                <==> self.is_orphan(#[trigger] names@[x]@)) by {
                if x < k {
                    if before.contains(x as usize) {
                        let w = choose|w: int| 0 <= w < before.len() && before[w] == x as usize;
                        assert(r@[w] == x as usize);
                    }
                    if r@.contains(x as usize) {
                        let w = choose|w: int| 0 <= w < r@.len() && r@[w] == x as usize;
                        if w < before.len() {
                            assert(before[w] == x as usize);
                        }
                    }
                } else {
                    if stray {
                        assert(r@[before.len() as int] == k);
                    } else if r@.contains(k) {
                        let w = choose|w: int| 0 <= w < r@.len() && r@[w] == k;
                        assert(r@[w] < k);
                    }
                }
            }
            k = k + 1;
        }
        r
    }

    /// Documents across all segments.
    pub fn total_docs(&self) -> (n: u32)
        requires
            doc_total(self.segments@) <= u32::MAX,
        ensures
            n == doc_total(self.segments@),
    {
        manifest_total_docs(&self.segments)
    }
}

/// The first segment whose id is no UUID.
pub open spec fn bad_segment_id(refs: Seq<SegmentRef>) -> Option<ManifestError> {
    if exists|i: int| first_bad_id(refs, i) {
        Some(
            ManifestError::BadSegmentId { segment: (choose|i: int| first_bad_id(refs, i)) as usize },
        )
    } else {
        None
    }
}

/// Segment `i` is the first whose id is no UUID.
pub open spec fn first_bad_id(refs: Seq<SegmentRef>, i: int) -> bool {
    &&& 0 <= i < refs.len()
    &&& !files::uuid_text(refs[i].segment_id@)
    &&& forall|k: int| 0 <= k < i ==> files::uuid_text((#[trigger] refs[k]).segment_id@)
}

proof fn lemma_bad_segment_id(refs: Seq<SegmentRef>, i: int)
    requires
        first_bad_id(refs, i),
    ensures
        bad_segment_id(refs) == Some(ManifestError::BadSegmentId { segment: i as usize }),
{
    let j = choose|j: int| first_bad_id(refs, j);
    if i < j {
        assert(files::uuid_text(refs[i].segment_id@));
    } else if j < i {
        assert(files::uuid_text(refs[j].segment_id@));
    }
}

/// A sealed manifest is taken back by a load of the same text, whatever its
/// stored checksum was before.
pub proof fn law_sealed_manifest_loads(m: Manifest, sealed: Manifest, canonical: Seq<u8>, len: u64)
    requires
        sealed == (Manifest { checksum: Some(hash::xxh64_of(canonical, 0)), ..m }),
        len <= MAX_MANIFEST_SIZE,
        forall|i: int|
            0 <= i < m.segments@.len() ==> files::uuid_text((#[trigger] m.segments@[i]).segment_id@),
    ensures
        sealed.fault(len, canonical) is None,
{
    assert(sealed.segments == m.segments);
}

/// A changed text is refused wherever its checksum differs.
pub proof fn law_changed_manifest_is_refused(
    m: Manifest,
    sealed: Manifest,
    canonical: Seq<u8>,
    other: Seq<u8>,
    len: u64,
)
    requires
        sealed == (Manifest { checksum: Some(hash::xxh64_of(canonical, 0)), ..m }),
        hash::xxh64_of(canonical, 0) != hash::xxh64_of(other, 0),
    ensures
        sealed.fault(len, other) is Some,
{
}

/// Garbage collection never removes a file that the manifest names: a file of a
/// listed segment, the delete set or the working-tree anchor. What it is named as
/// must not have the form of another kind of file, or of a temporary.
pub proof fn law_named_files_are_kept(m: Manifest, name: Seq<u8>)
    requires
        !is_tmp_name(name),
        ({
            ||| !is_deletes_name(name) && !is_worktree_name(name) && exists|i: int|
                0 <= i < m.segments@.len() && names_file(#[trigger] m.segments@[i], name)
            ||| !is_segment_name(name) && !is_worktree_name(name) && is_named(
                m.overlay_deletes_file,
                name,
            )
            ||| !is_segment_name(name) && !is_deletes_name(name) && is_named(
                m.worktree_anchor_file,
                name,
            )
        }),
    ensures
        !m.is_orphan(name),
{
}

/// The segment has no file of this name.
pub open spec fn lists_nowhere(m: Manifest, name: Seq<u8>) -> bool {
    forall|i: int|
        0 <= i < m.segments@.len() ==> (#[trigger] m.segments@[i]).filename@ != name
            && m.segments@[i].dict_filename@ != name && m.segments@[i].post_filename@ != name
}

/// `name` is something followed by `end`.
pub open spec fn has_end(name: Seq<u8>, end: Seq<u8>) -> bool {
    exists|stem: Seq<u8>| name == #[trigger] (stem + end)
}

proof fn lemma_has_end(name: Seq<u8>, end: Seq<u8>)
    ensures
        files::ends_with(name, end) <==> has_end(name, end),
{
    if files::ends_with(name, end) {
        let stem = name.take(name.len() - end.len());
        assert(name =~= stem + end);
    }
    if has_end(name, end) {
        let stem = choose|stem: Seq<u8>| name == #[trigger] (stem + end);
        assert(name.skip(name.len() - end.len()) =~= end);
    }
}

/// Garbage collection removes the files that nothing refers to: segment files that no
/// segment lists, delete sets and working-tree anchors other than the named one, and all
/// temporaries. It removes nothing that is of none of these kinds.
pub proof fn law_unnamed_files_are_collected(m: Manifest, name: Seq<u8>, mid: Seq<u8>)
    ensures
        has_end(name, seq![0x2Eu8, 0x74, 0x6D, 0x70]) ==> m.is_orphan(name),
        (has_end(name, seq![0x2Eu8, 0x73, 0x65, 0x67]) || has_end(
            name,
            seq![0x2Eu8, 0x64, 0x69, 0x63, 0x74],
        ) || has_end(name, seq![0x2Eu8, 0x70, 0x6F, 0x73, 0x74])) && lists_nowhere(m, name)
            ==> m.is_orphan(name),
        ({
            let deletes = seq![0x64u8, 0x65, 0x6C, 0x65, 0x74, 0x65, 0x73, 0x2D] + mid + seq![
                0x2Eu8,
                0x69,
                0x64,
                0x78,
            ];
            !(m.overlay_deletes_file matches Some(n) && n@ == deletes) ==> m.is_orphan(deletes)
        }),
        ({
            let anchor = seq![0x77u8, 0x6F, 0x72, 0x6B, 0x74, 0x72, 0x65, 0x65, 0x2D] + mid + seq![
                0x2Eu8,
                0x69,
                0x64,
                0x78,
            ];
            !(m.worktree_anchor_file matches Some(n) && n@ == anchor) ==> m.is_orphan(anchor)
        }),
        !has_end(name, seq![0x2Eu8, 0x74, 0x6D, 0x70]) && !has_end(
            name,
            seq![0x2Eu8, 0x73, 0x65, 0x67],
        ) && !has_end(name, seq![0x2Eu8, 0x64, 0x69, 0x63, 0x74]) && !has_end(
            name,
            seq![0x2Eu8, 0x70, 0x6F, 0x73, 0x74],
        ) && !has_end(name, seq![0x2Eu8, 0x69, 0x64, 0x78]) ==> !m.is_orphan(name),
        name.len() > 0 && name[0] != 0x64 && name[0] != 0x77 && has_end(
            name,
            seq![0x2Eu8, 0x69, 0x64, 0x78],
        ) ==> !m.is_orphan(name),
{
    let idx = seq![0x2Eu8, 0x69, 0x64, 0x78];
    let del = seq![0x64u8, 0x65, 0x6C, 0x65, 0x74, 0x65, 0x73, 0x2D];
    let tree = seq![0x77u8, 0x6F, 0x72, 0x6B, 0x74, 0x72, 0x65, 0x65, 0x2D];
    lemma_has_end(name, seq![0x2Eu8, 0x74, 0x6D, 0x70]);
    lemma_has_end(name, seq![0x2Eu8, 0x73, 0x65, 0x67]);
    lemma_has_end(name, seq![0x2Eu8, 0x64, 0x69, 0x63, 0x74]);
    lemma_has_end(name, seq![0x2Eu8, 0x70, 0x6F, 0x73, 0x74]);
    lemma_has_end(name, idx);
    let deletes = del + mid + idx;
    lemma_has_end(deletes, idx);
    assert(has_end(deletes, idx));
    assert(deletes.take(del.len() as int) =~= del);
    let anchor = tree + mid + idx;
    lemma_has_end(anchor, idx);
    assert(has_end(anchor, idx));
    assert(anchor.take(tree.len() as int) =~= tree);
    if lists_nowhere(m, name) {
        assert forall|i: int| 0 <= i < m.segments@.len() implies !names_file(
            #[trigger] m.segments@[i],
            name,
        ) by {
            assert(m.segments@[i].filename@ != name);
        }
    }
    if name.len() > 0 && has_end(name, idx) {
        if files::starts_with(name, del) {
            assert(name.take(del.len() as int)[0] == name[0]);
            assert(del[0] == 0x64);
        }
        if files::starts_with(name, tree) {
            assert(name.take(tree.len() as int)[0] == name[0]);
            assert(tree[0] == 0x77);
        }
        let last = name[name.len() - 1];
        assert(name.skip(name.len() - 4)[3] == last);
        assert(idx[3] == 0x78);
        if files::ends_with(name, seq![0x2Eu8, 0x74, 0x6D, 0x70]) {
            assert(name.skip(name.len() - 4)[3] == 0x70);
        }
        if files::ends_with(name, seq![0x2Eu8, 0x73, 0x65, 0x67]) {
            assert(name.skip(name.len() - 4)[3] == 0x67);
        }
        if files::ends_with(name, seq![0x2Eu8, 0x64, 0x69, 0x63, 0x74]) {
            assert(name.skip(name.len() - 5)[4] == 0x74);
        }
        if files::ends_with(name, seq![0x2Eu8, 0x70, 0x6F, 0x73, 0x74]) {
            assert(name.skip(name.len() - 5)[4] == 0x74);
        }
    }
}

/// The documents of two lists of segments are those of the one and those of the other.
pub proof fn law_documents_add_up(a: Seq<SegmentRef>, b: Seq<SegmentRef>, r: SegmentRef)
    ensures
        doc_total(a + b) == doc_total(a) + doc_total(b),
        doc_total(seq![r]) == r.doc_count,
        doc_total(Seq::<SegmentRef>::empty()) == 0,
    decreases b.len(),
{
    assert(seq![r].drop_last() =~= Seq::<SegmentRef>::empty());
    assert(seq![r].last() == r);
    assert(doc_total(seq![r]) == doc_total(seq![r].drop_last()) + r.doc_count as nat);
    if b.len() == 0 {
        assert(a + b =~= a);
    } else {
        law_documents_add_up(a, b.drop_last(), r);
        assert((a + b).drop_last() =~= a + b.drop_last());
        assert((a + b).last() == b.last());
    }
}

/// A manifest is refused exactly if it is too large, its checksum is not that of its text,
/// or the id of a segment is no UUID.
pub proof fn law_manifests_are_refused_for_a_reason(m: Manifest, len: u64, canonical: Seq<u8>)
    ensures
        m.fault(len, canonical) is None <==> len <= 10_485_760 && (m.checksum matches Some(c)
            ==> c == hash::xxh64_of(canonical, 0)) && forall|i: int|
            0 <= i < m.segments@.len() ==> files::uuid_text(
                (#[trigger] m.segments@[i]).segment_id@,
            ),
{
    if exists|i: int|
        0 <= i < m.segments@.len() && !files::uuid_text((#[trigger] m.segments@[i]).segment_id@) {
        let i = choose|i: int|
            0 <= i < m.segments@.len() && !files::uuid_text(
                (#[trigger] m.segments@[i]).segment_id@,
            );
        lemma_some_first_bad(m.segments@, i);
    }
}

proof fn lemma_some_first_bad(refs: Seq<SegmentRef>, i: int)
    requires
        0 <= i < refs.len(),
        !files::uuid_text(refs[i].segment_id@),
    ensures
        exists|k: int| first_bad_id(refs, k),
    decreases i,
{
    if !first_bad_id(refs, i) {
        let k = choose|k: int| 0 <= k < i && !files::uuid_text((#[trigger] refs[k]).segment_id@);
        lemma_some_first_bad(refs, k);
    }
}

/// `name` starts with `start`.
pub open spec fn has_start(name: Seq<u8>, start: Seq<u8>) -> bool {
    name.len() >= start.len() && forall|i: int|
        0 <= i < start.len() ==> #[trigger] name[i] == start[i]
}

/// A file that a listed segment names, under any of its three names, is never removed,
/// unless its name has the form of a temporary, a delete set or a working-tree anchor.
pub proof fn law_segment_files_are_kept(m: Manifest, name: Seq<u8>, i: int)
    requires
        0 <= i < m.segments@.len(),
        name.len() > 0,
        m.segments@[i].filename@ == name || m.segments@[i].dict_filename@ == name
            || m.segments@[i].post_filename@ == name,
        !has_end(name, seq![0x2Eu8, 0x74, 0x6D, 0x70]),
        !has_start(name, seq![0x64u8, 0x65, 0x6C, 0x65, 0x74, 0x65, 0x73, 0x2D]),
        !has_start(name, seq![0x77u8, 0x6F, 0x72, 0x6B, 0x74, 0x72, 0x65, 0x65, 0x2D]),
    ensures
        !m.is_orphan(name),
{
    lemma_has_end(name, seq![0x2Eu8, 0x74, 0x6D, 0x70]);
    let del = seq![0x64u8, 0x65, 0x6C, 0x65, 0x74, 0x65, 0x73, 0x2D];
    let tree = seq![0x77u8, 0x6F, 0x72, 0x6B, 0x74, 0x72, 0x65, 0x65, 0x2D];
    if files::starts_with(name, del) {
        assert forall|k: int| 0 <= k < del.len() implies #[trigger] name[k] == del[k] by {
            assert(name.take(del.len() as int)[k] == name[k]);
        }
    }
    if files::starts_with(name, tree) {
        assert forall|k: int| 0 <= k < tree.len() implies #[trigger] name[k] == tree[k] by {
            assert(name.take(tree.len() as int)[k] == name[k]);
        }
    }
    assert(names_file(m.segments@[i], name));
}

/// A manifest that is taken is the one that was parsed; it is taken exactly if it is not too
/// large, its checksum is that of its text, and the ids of its segments are UUIDs.
pub proof fn law_sound_manifests_are_taken(
    m: Manifest,
    len: u64,
    canonical: Seq<u8>,
    r: Result<Manifest, ManifestError>,
)
    requires
        m.is_taken(len, canonical, r),
    ensures
        r matches Ok(x) ==> x == m,
        r is Ok <==> len <= 10_485_760 && (m.checksum matches Some(c) ==> c == hash::xxh64_of(
            canonical,
            0,
        )) && forall|i: int|
            0 <= i < m.segments@.len() ==> files::uuid_text(
                (#[trigger] m.segments@[i]).segment_id@,
            ),
{
    law_manifests_are_refused_for_a_reason(m, len, canonical);
}

/// Of the files in the index directory, garbage collection names every temporary and every
/// segment file that no segment lists, and none that a segment lists.
pub proof fn law_collection_names_the_unlisted(
    m: Manifest,
    names: Seq<Vec<u8>>,
    r: Seq<usize>,
    k: int,
)
    requires
        m.is_collection(names, r),
        0 <= k < names.len(),
        names.len() <= usize::MAX,
    ensures
        has_end(names[k]@, seq![0x2Eu8, 0x74, 0x6D, 0x70]) ==> r.contains(k as usize),
        (has_end(names[k]@, seq![0x2Eu8, 0x64, 0x69, 0x63, 0x74]) || has_end(
            names[k]@,
            seq![0x2Eu8, 0x70, 0x6F, 0x73, 0x74],
        )) && lists_nowhere(m, names[k]@) ==> r.contains(k as usize),
        forall|i: int|
            #![trigger m.segments@[i]]
            0 <= i < m.segments@.len() && names[k]@.len() > 0 && (m.segments@[i].dict_filename@
                == names[k]@ || m.segments@[i].post_filename@ == names[k]@) && !has_end(
                names[k]@,
                seq![0x2Eu8, 0x74, 0x6D, 0x70],
            ) && !has_start(
                names[k]@,
                seq![0x64u8, 0x65, 0x6C, 0x65, 0x74, 0x65, 0x73, 0x2D],
            ) && !has_start(
                names[k]@,
                seq![0x77u8, 0x6F, 0x72, 0x6B, 0x74, 0x72, 0x65, 0x65, 0x2D],
            ) ==> !r.contains(k as usize),
{
    let name = names[k]@;
    law_unnamed_files_are_collected(m, name, Seq::empty());
    assert(r.contains(k as usize) <==> m.is_orphan(name));
    assert forall|i: int|
        #![trigger m.segments@[i]]
        0 <= i < m.segments@.len() && name.len() > 0 && (m.segments@[i].dict_filename@ == name
            || m.segments@[i].post_filename@ == name) && !has_end(
            name,
            seq![0x2Eu8, 0x74, 0x6D, 0x70],
        ) && !has_start(name, seq![0x64u8, 0x65, 0x6C, 0x65, 0x74, 0x65, 0x73, 0x2D])
            && !has_start(name, seq![0x77u8, 0x6F, 0x72, 0x6B, 0x74, 0x72, 0x65, 0x65, 0x2D]) implies !r.contains(
        k as usize,
    ) by {
        law_segment_files_are_kept(m, name, i);
    }
}

} // verus!
