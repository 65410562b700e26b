//! Durable flushes: the overlay becomes a segment, so that a later process sees
//! it.
//!
//! A flush of uncommitted changes leaves the recorded commit alone: nothing was
//! committed, and moving it would hide the commit when it comes.

use crate::bitmap;
use crate::compact;
use crate::compact_index;
use crate::compact_index::NewSegment;
use crate::compact_laws;
use crate::deletes_idx;
use crate::error::{Corruption, IndexError};
use crate::files;
use crate::full_build;
use crate::hash;
use crate::le;
use crate::manifest;
use crate::manifest::Manifest;
use crate::open;
use crate::overlay;
use crate::overlay::{OverlayDocView, OverlayView};
use crate::path_index;
use crate::path_resolve;
use crate::paths;
use crate::paths::{PathMap, PathSet};
use crate::paths_idx;
use crate::segment::layout;
use crate::segment::layout::DocView;
use crate::segment::reader;
use crate::segment::reader::{DictVerify, MmapSegment, SegmentLayout};
use crate::segment::writer;
use crate::segment::writer::SegmentWriter;
use crate::snapshot;
use crate::snapshot::IndexSnapshot;
use crate::worktree_anchor;
use crate::worktree_anchor::{Observed, WorktreeAnchor};
use crate::worktree_codec;
use vstd::prelude::*;

verus! {

/// What a flush does to the recorded commit.
#[derive(Debug)]
pub enum FlushAnchor {
    /// The flushed content is that of this commit.
    AdvanceHead(Option<Vec<u8>>),
    /// The flushed content belongs to no commit.
    KeepHead,
}

/// The time that is kept after a commit: that of the first since the last flush.
pub open spec fn kept_epoch(kept: Option<u128>, read_epoch: u128) -> Option<u128> {
    match kept {
        Some(e) => Some(e),
        None => Some(read_epoch),
    }
}

/// What the commits since the last flush observed.
#[derive(Debug)]
pub struct FlushBookkeeping {
    /// When the first of them started to read files. A bound that holds for the
    /// first read holds for the later ones.
    pub read_epoch: Option<u128>,
    /// Paths that they did not turn into documents.
    pub non_doc_paths: PathSet,
}

impl FlushBookkeeping {
    pub open spec fn wf(self) -> bool {
        self.non_doc_paths.wf()
    }

    pub fn new() -> (b: Self)
        ensures
            b.wf(),
            b.read_epoch is None,
            b.non_doc_paths@ == Set::<Seq<u8>>::empty(),
    {
        FlushBookkeeping { read_epoch: None, non_doc_paths: PathSet::new() }
    }

    /// Records a commit.
    pub fn note_commit_for_flush(&mut self, read_epoch: u128, non_doc_paths: &PathSet)
        requires
            old(self).wf(),
            non_doc_paths.wf(),
        ensures
            final(self).wf(),
            final(self).read_epoch == kept_epoch(old(self).read_epoch, read_epoch),
            final(self).non_doc_paths@ == old(self).non_doc_paths@.union(non_doc_paths@),
    {
        if self.read_epoch.is_none() {
            self.read_epoch = Some(read_epoch);
        }
        self.non_doc_paths.extend(non_doc_paths);
    }

    /// Whether a commit left paths that no flush has recorded.
    pub fn has_flush_bookkeeping(&self) -> (r: bool)
        ensures
            r == (self.non_doc_paths@ != Set::<Seq<u8>>::empty()),
    {
        !self.non_doc_paths.is_empty()
    }

    /// Takes the bookkeeping out; what stays is empty. It is lost if the flush
    /// fails: its time would no longer describe what is on disk.
    pub fn take_anchor_inputs(&mut self) -> (r: FlushBookkeeping)
        ensures
            r == *old(self),
            final(self).wf(),
            final(self).read_epoch is None,
            final(self).non_doc_paths@ == Set::<Seq<u8>>::empty(),
    {
        let mut r = FlushBookkeeping::new();
        std::mem::swap(&mut r, self);
        r
    }
}

impl Default for FlushBookkeeping {
    fn default() -> (b: Self)
        ensures
            b.wf(),
            b.read_epoch is None,
            b.non_doc_paths@ == Set::<Seq<u8>>::empty(),
    {
        FlushBookkeeping::new()
    }
}

/// A path is as the anchor recorded it.
pub open spec fn unchanged(
    anchor: Map<Seq<u8>, Observed>,
    path: Seq<u8>,
    current: Option<Observed>,
) -> bool {
    anchor.contains_key(path) && current == Some(anchor[path])
}

/// The listed paths that are not as the anchor recorded them.
pub open spec fn unflushed(
    anchor: Map<Seq<u8>, Observed>,
    list: Seq<Seq<u8>>,
    current: Seq<Option<Observed>>,
) -> Seq<Seq<u8>>
    decreases list.len(),
{
    if list.len() == 0 {
        Seq::empty()
    } else {
        let rest = unflushed(anchor, list.drop_last(), current.drop_last());
        if unchanged(anchor, list.last(), current.last()) {
            rest
        } else {
            rest.push(list.last())
        }
    }
}

/// Drops the paths that an earlier flush made durable and that did not change
/// since; says how many. `current` is what is on disk at each path.
pub fn retain_unflushed(
    list: &mut PathSet,
    anchor: &WorktreeAnchor,
    current: &Vec<Option<Observed>>,
) -> (dropped: usize)
    requires
        old(list).wf(),
        anchor.wf(),
        current@.len() == old(list).paths@.len(),
    ensures
        final(list).wf(),
        final(list).seq() == unflushed(anchor@, old(list).seq(), current@),
        dropped == old(list).seq().len() - final(list).seq().len(),
{
    let ghost s = list.seq();
    let ghost c = current@;
    let mut kept: Vec<Vec<u8>> = Vec::new();
    let mut i: usize = 0;
    assert(paths::path_views(kept@) =~= unflushed(anchor@, s.take(0), c.take(0)));
    while i < list.paths.len()
        invariant
            anchor.wf(),
            s == list.seq(),
            c == current@,
            s.len() == c.len(),
            i <= s.len(),
            paths::ascending(s),
            paths::all_normal(s),
            paths::path_views(kept@) == unflushed(anchor@, s.take(i as int), c.take(i as int)),
            kept@.len() <= i,
            paths::ascending(paths::path_views(kept@)),
            forall|k: int|
                0 <= k < kept@.len() ==> #[trigger] s.take(i as int).contains(
                    paths::path_views(kept@)[k],
                ),
        decreases s.len() - i,
    {
        let p: &[u8] = list.paths[i].as_slice();
        let ghost before = paths::path_views(kept@);
        let ghost kept0 = kept@;
        proof {
            assert(s.take(i + 1).drop_last() =~= s.take(i as int));
            assert(c.take(i + 1).drop_last() =~= c.take(i as int));
            assert(s.take(i + 1).last() == p@);
            assert(path_resolve::normal(s[i as int]) == p@);
            assert(c.take(i + 1).last() == c[i as int]);
        }
        if !anchor.is_unchanged(p, current[i]) {
            kept.push(le::bytes_clone(p));
            proof {
                let after = paths::path_views(kept@);
                assert(after =~= before.push(p@));
                assert forall|a: int, b: int| 0 <= a < b < after.len() implies paths::path_lt(
                    #[trigger] after[a],
                    #[trigger] after[b],
                ) by {
                    if b == before.len() {
                        assert(s.take(i as int).contains(before[a]));
                        let j = choose|j: int|
                            0 <= j < s.take(i as int).len() && s.take(i as int)[j] == before[a];
                        assert(paths::path_lt(s[j], s[i as int]));
                    } else {
                        assert(paths::path_lt(before[a], before[b]));
                    }
                }
            }
        }
        proof {
            let after = paths::path_views(kept@);
            assert forall|k: int| 0 <= k < kept@.len() implies #[trigger] s.take(i + 1).contains(
                after[k],
            ) by {
                if k < before.len() {
                    assert(s.take(i as int).contains(before[k]));
                    let j = choose|j: int|
                        0 <= j < s.take(i as int).len() && s.take(i as int)[j] == before[k];
                    assert(s.take(i + 1)[j] == after[k]);
                } else {
                    assert(s.take(i + 1)[i as int] == after[k]);
                }
            }
        }
        i = i + 1;
    }
    assert(s.take(i as int) =~= s);
    assert(c.take(i as int) =~= c);
    let dropped: usize = list.paths.len() - kept.len();
    proof {
        let t = paths::path_views(kept@);
        assert forall|k: int| 0 <= k < t.len() implies path_resolve::normal(#[trigger] t[k])
            == t[k] by {
            assert(s.contains(t[k]));
            let j = choose|j: int| 0 <= j < s.len() && s[j] == t[k];
            assert(path_resolve::normal(s[j]) == s[j]);
        }
    }
    list.paths = kept;
    dropped
}

/// Whether there is anything to flush.
pub open spec fn is_due(s: IndexSnapshot, book: FlushBookkeeping, r: bool) -> bool {
    r == (s.overlay.docs@.len() > 0 || book.non_doc_paths@ != Set::<Seq<u8>>::empty())
}

/// Whether there is anything to flush: dirty documents, or paths that left the
/// index and are not recorded yet.
pub fn has_something_to_flush(s: &IndexSnapshot, book: &FlushBookkeeping) -> (r: bool)
    ensures
        is_due(*s, *book, r),
{
    s.overlay.docs.len() > 0 || book.has_flush_bookkeeping()
}

/// What the commit before a flush means for it.
pub open spec fn is_flush_start(
    commit: Result<(), IndexError>,
    r: Result<bool, IndexError>,
) -> bool {
    match commit {
        Ok(_) => r == Ok::<bool, IndexError>(true),
        Err(IndexError::OverlayFull { .. }) => r == Ok::<bool, IndexError>(false),
        Err(e) => r == Err::<bool, IndexError>(e),
    }
}

/// What the commit before a flush means for the flush: it goes on, there is
/// nothing to flush where the overlay was full and a rebuild is due, or the
/// error is passed on.
pub fn after_flush_commit(commit: Result<(), IndexError>) -> (r: Result<bool, IndexError>)
    ensures
        is_flush_start(commit, r),
{
    match commit {
        Ok(_) => Ok(true),
        Err(e) => match e {
            IndexError::OverlayFull { overlay_docs: _, base_docs: _ } => Ok(false),
            other => Err(other),
        },
    }
}

/// What a flush needs for the next working-tree anchor.
pub struct AnchorInputs {
    /// What the commits since the last flush observed.
    pub book: FlushBookkeeping,
    /// The anchor so far.
    pub previous: WorktreeAnchor,
    /// What is on disk at the flushed and the other touched paths.
    pub observed: PathMap<Observed>,
    /// The time of the flush.
    pub now: u128,
}

/// A file to write: its name and its contents.
pub struct Sidecar {
    pub name: Vec<u8>,
    pub bytes: Vec<u8>,
}

/// What a flush needs for the next working-tree anchor, as values.
pub struct AnchorView {
    pub read_epoch: Option<u128>,
    pub non_doc_paths: Set<Seq<u8>>,
    pub previous: Map<Seq<u8>, Observed>,
    pub observed: Map<Seq<u8>, Observed>,
    pub now: u128,
}

impl View for AnchorInputs {
    type V = AnchorView;

    open spec fn view(&self) -> AnchorView {
        AnchorView {
            read_epoch: self.book.read_epoch,
            non_doc_paths: self.book.non_doc_paths@,
            previous: self.previous@,
            observed: self.observed@,
            now: self.now,
        }
    }
}

impl AnchorInputs {
    pub open spec fn wf(self) -> bool {
        self.book.wf() && self.previous.wf() && self.observed.wf()
    }
}

impl AnchorView {
    /// The entries of the next anchor.
    pub open spec fn next(self, flushed: Set<Seq<u8>>, read_epoch: u128) -> Map<
        Seq<u8>,
        Observed,
    > {
        worktree_anchor::next_entries(
            self.previous,
            flushed.union(self.non_doc_paths),
            self.observed,
            read_epoch,
            self.now,
        )
    }
}

/// Every key is short enough for the sidecar.
pub open spec fn short_keys(m: Map<Seq<u8>, Observed>) -> bool {
    forall|k: Seq<u8>| #[trigger] m.contains_key(k) ==> k.len() <= u32::MAX
}

fn are_keys_short(a: &WorktreeAnchor) -> (r: bool)
    requires
        a.wf(),
    ensures
        r == short_keys(a@),
        r ==> forall|i: int|
            0 <= i < a.entries.keys.seq().len() ==> (#[trigger] a.entries.keys.seq()[i]).len()
                <= u32::MAX,
{
    let ghost ks = a.entries.keys.seq();
    let mut i: usize = 0;
    while i < a.entries.keys.paths.len()
        invariant
            a.wf(),
            ks == a.entries.keys.seq(),
            i <= ks.len(),
            forall|k: int| 0 <= k < i ==> (#[trigger] ks[k]).len() <= u32::MAX,
        decreases ks.len() - i,
    {
        if a.entries.keys.paths[i].len() > 0xFFFF_FFFF {
            proof {
                a.entries.lemma_at(i as int);
                assert(a@.contains_key(ks[i as int]));
            }
            return false;
        }
        i = i + 1;
    }
    proof {
        assert forall|k: Seq<u8>| #[trigger] a@.contains_key(k) implies k.len() <= u32::MAX by {
            assert(a.entries.keys@.contains(k));
            let j = choose|j: int| 0 <= j < ks.len() && ks[j] == k;
            assert(ks[j].len() <= u32::MAX);
        }
    }
    true
}

/// The next working-tree anchor as a file. There is none where no commit
/// recorded a time, where it would be empty, or where it would not fit.
pub fn write_anchor(inputs: &AnchorInputs, flushed: &PathSet) -> (r: Option<Sidecar>)
    requires
        inputs.wf(),
        flushed.wf(),
    ensures
        anchor_written(inputs@, flushed@, r),
{
    let epoch: u128 = match inputs.book.read_epoch {
        None => {
            return None;
        },
        Some(e) => e,
    };
    match WorktreeAnchor::build_next(
        &inputs.previous,
        flushed,
        &inputs.book.non_doc_paths,
        &inputs.observed,
        epoch,
        inputs.now,
    ) {
        None => None,
        Some(next) => {
            if next.is_empty() || !are_keys_short(&next) {
                return None;
            }
            let _len: usize = next.len();
            let name = worktree_codec::new_filename();
            let bytes = worktree_codec::encode(&next);
            Some(Sidecar { name, bytes })
        },
    }
}

/// The documents of an overlay as a segment stores them.
pub open spec fn entries(docs: Seq<OverlayDocView>) -> Seq<DocView> {
    Seq::new(docs.len(), |i: int| compact::as_entry(docs[i]))
}

/// `ps` lists exactly the pairs of the documents.
pub open spec fn lists_pairs(ps: Seq<(u64, u32)>, docs: Seq<OverlayDocView>) -> bool {
    forall|x: (u64, u32)| #[trigger] ps.contains(x) <==> overlay::pairs_of(docs).contains(x)
}

/// The documents of an overlay as a flush stores them: under ids that count up from
/// the first one, whatever gaps edits have left between them.
pub open spec fn closed_up(docs: Seq<OverlayDocView>) -> Seq<OverlayDocView> {
    overlay::renumbered(docs, docs[0].doc_id)
}

/// The overlay as a segment to be written.
fn overlay_writer(view: &OverlayView) -> (w: SegmentWriter)
    requires
        view.documents().len() > 0,
        overlay::ids_ascending(view.documents()),
    ensures
        w.docs() == entries(closed_up(view.documents())),
        lists_pairs(w.postings(), closed_up(view.documents())),
{
    let ghost docs = view.documents();
    let ghost out = closed_up(docs);
    let first: u32 = view.docs[0].doc_id;
    let mut w = SegmentWriter::new();
    let mut i: usize = 0;
    assert(w.docs() =~= entries(out.take(0)));
    assert(lists_pairs(w.postings(), out.take(0)));
    while i < view.docs.len()
        invariant
            docs == view.documents(),
            out == closed_up(docs),
            overlay::ids_ascending(docs),
            docs.len() > 0,
            first == docs[0].doc_id,
            i <= docs.len(),
            w.docs() == entries(out.take(i as int)),
            lists_pairs(w.postings(), out.take(i as int)),
        decreases docs.len() - i,
    {
        let d = &view.docs[i];
        proof {
            lemma_ids_at_least(docs, i as int);
            assert(docs[i as int] == d@);
        }
        let doc_id: u32 = first + i as u32;
        w.add_document(
            doc_id,
            d.path.as_slice(),
            hash::xxh64(d.content.as_slice(), 0),
            d.content.len() as u64,
        );
        proof {
            assert(entries(out.take(i + 1)) =~= entries(out.take(i as int)).push(
                compact::as_entry(out[i as int]),
            ));
        }
        full_build::add_grams(&mut w, &d.grams, doc_id);
        proof {
            let v = out[i as int];
            overlay::lemma_pairs_push(out.take(i as int), v);
            assert(out.take(i + 1) =~= out.take(i as int).push(v));
        }
        i = i + 1;
    }
    assert(out.take(i as int) =~= out);
    w
}

/// The paths of the overlay.
fn overlay_paths(view: &OverlayView) -> (r: PathSet)
    ensures
        r.wf(),
        r@ == doc_paths(view.documents()),
{
    let ghost docs = view.documents();
    let mut r = PathSet::new();
    let mut i: usize = 0;
    assert(r@ =~= doc_paths(docs.take(0)));
    while i < view.docs.len()
        invariant
            docs == view.documents(),
            i <= docs.len(),
            r.wf(),
            r@ == doc_paths(docs.take(i as int)),
        decreases docs.len() - i,
    {
        let ghost before = r@;
        r.insert(view.docs[i].path.as_slice());
        proof {
            let a = docs.take(i as int);
            let b = docs.take(i + 1);
            assert forall|p: Seq<u8>| doc_paths(b).contains(p) <==> r@.contains(p) by {
                if doc_paths(b).contains(p) {
                    let k = choose|k: int|
                        0 <= k < b.len() && path_resolve::normal((#[trigger] b[k]).path) == p;
                    if k < i {
                        assert(path_resolve::normal(a[k].path) == p);
                    }
                }
                if before.contains(p) {
                    let k = choose|k: int|
                        0 <= k < a.len() && path_resolve::normal((#[trigger] a[k]).path) == p;
                    assert(path_resolve::normal(b[k].path) == p);
                }
                assert(b[i as int].path == docs[i as int].path);
            }
            assert(r@ =~= doc_paths(b));
        }
        i = i + 1;
    }
    assert(docs.take(i as int) =~= docs);
    r
}

/// The paths of documents, in their normal form.
pub open spec fn doc_paths(docs: Seq<OverlayDocView>) -> Set<Seq<u8>> {
    Set::new(
        |p: Seq<u8>|
            exists|i: int|
                0 <= i < docs.len() && path_resolve::normal((#[trigger] docs[i]).path) == p,
    )
}

/// An index as it is after a flush.
pub struct FlushedIndex {
    /// The manifest, as it is if every file gets written.
    pub manifest: Manifest,
    /// The new segment, where there were dirty documents.
    pub files: Vec<NewSegment>,
    /// The delete set, where anything is deleted.
    pub deletes: Option<Sidecar>,
    /// The working-tree anchor, where there is one.
    pub anchor: Option<Sidecar>,
    /// The paths that `paths.idx` is to list, in their order.
    pub paths: Vec<Vec<u8>>,
}

/// The snapshot has the base that the manifest describes.
pub open spec fn same_base(s: IndexSnapshot, m: Manifest) -> bool {
    s.segs().len() == m.segments@.len() && snapshot::doc_sum(s.segs()) == manifest::doc_total(
        m.segments@,
    )
}

/// The commit that is recorded after a flush.
pub open spec fn commit_after(anchor: FlushAnchor, previous: Manifest) -> Option<Seq<u8>> {
    match anchor {
        FlushAnchor::AdvanceHead(head) => match head {
            Some(h) => Some(h@),
            None => None,
        },
        FlushAnchor::KeepHead => match previous.base_commit {
            Some(h) => Some(h@),
            None => None,
        },
    }
}

/// An optional name as bytes.
pub open spec fn name_view(o: Option<Vec<u8>>) -> Option<Seq<u8>> {
    match o {
        Some(v) => Some(v@),
        None => None,
    }
}

pub(crate) proof fn lemma_ids_at_least(docs: Seq<OverlayDocView>, i: int)
    requires
        overlay::ids_ascending(docs),
        0 <= i < docs.len(),
    ensures
        docs[i].doc_id >= docs[0].doc_id + i,
    decreases i,
{
    if i > 0 {
        lemma_ids_at_least(docs, i - 1);
        assert(docs[i - 1].doc_id < docs[i].doc_id);
    }
}

fn copy_name(o: &Option<Vec<u8>>) -> (r: Option<Vec<u8>>)
    ensures
        name_view(r) == name_view(*o),
{
    match o {
        Some(v) => Some(le::bytes_clone(v.as_slice())),
        None => None,
    }
}

/// The sum, at most what 32 bits hold.
pub open spec fn clamp32(n: nat) -> u32 {
    if n > u32::MAX {
        u32::MAX
    } else {
        n as u32
    }
}

/// The delete set as a file, where anything is deleted.
fn write_deletes(s: &IndexSnapshot) -> (r: Option<Sidecar>)
    ensures
        if s.deleted() == Set::<u32>::empty() {
            r is None
        } else {
            r matches Some(f) && files::is_generated(
                f.name@,
                deletes_idx::name_prefix(),
                deletes_idx::name_suffix(),
            ) && deletes_idx::decoded(f.bytes@) == Ok::<Set<u32>, deletes_idx::SidecarError>(
                s.deleted(),
            )
        },
{
    if bitmap::is_empty(&s.delete_set) {
        return None;
    }
    let name = deletes_idx::new_filename();
    let bytes = deletes_idx::encode(&s.delete_set);
    Some(Sidecar { name, bytes })
}

fn sidecar_name(o: &Option<Sidecar>) -> (r: Option<Vec<u8>>)
    ensures
        match *o {
            Some(f) => r matches Some(n) && n@ == f.name@,
            None => r is None,
        },
{
    match o {
        Some(f) => Some(le::bytes_clone(f.name.as_slice())),
        None => None,
    }
}

/// What a flush gives.
pub open spec fn is_flush(
    r: Result<FlushedIndex, IndexError>,
    s: IndexSnapshot,
    previous: Manifest,
    anchor: FlushAnchor,
    inputs: AnchorView,
    created_at: u64,
) -> bool {
    let docs = s.overlay.documents();
    let n = previous.segments@.len() as int;
    if !same_base(s, previous) {
        r == Err::<FlushedIndex, IndexError>(
            IndexError::CorruptIndex(Corruption::IndexChanged),
        )
    } else {
        match r {
            Ok(w) => {
                let m = w.manifest;
                let refs = m.segments@;
                &&& manifest::ref_views(refs).take(n) == manifest::ref_views(
                    previous.segments@,
                )
                &&& refs.len() == n + (if docs.len() > 0 {
                    1int
                } else {
                    0
                })
                &&& w.files@.len() == (if docs.len() > 0 {
                    1int
                } else {
                    0
                })
                &&& docs.len() > 0 ==> exists|ps: Seq<(u64, u32)>|
                    #[trigger] compact_index::is_written(
                        refs[n]@,
                        w.files@[0],
                        entries(closed_up(docs)),
                        ps,
                        docs[0].doc_id,
                    ) && lists_pairs(ps, closed_up(docs))
                &&& (w.deletes is None <==> s.deleted() == Set::<u32>::empty())
                &&& w.deletes matches Some(f) ==> files::is_generated(
                    f.name@,
                    deletes_idx::name_prefix(),
                    deletes_idx::name_suffix(),
                ) && deletes_idx::decoded(f.bytes@) == Ok::<
                    Set<u32>,
                    deletes_idx::SidecarError,
                >(s.deleted())
                &&& name_view(m.overlay_deletes_file) == (match w.deletes {
                    Some(f) => Some(f.name@),
                    None => None,
                })
                &&& name_view(m.worktree_anchor_file) == (match w.anchor {
                    Some(f) => Some(f.name@),
                    None => None,
                })
                &&& anchor_written(inputs, doc_paths(docs), w.anchor)
                &&& paths::path_views(w.paths@) == path_index::live_list(s.path_index)
                &&& name_view(m.base_commit) == commit_after(anchor, previous)
                &&& m.version == manifest::FORMAT_VERSION
                &&& m.paths_idx_version == Some(paths_idx::FORMAT_VERSION)
                &&& m.overlay_gen == (if previous.overlay_gen == u64::MAX {
                    u64::MAX as int
                } else {
                    previous.overlay_gen + 1
                })
                &&& m.overlay_file is None
                &&& m.total_files_indexed == clamp32(
                    (previous.total_files_indexed + docs.len()) as nat,
                )
                &&& m.created_at == created_at
                &&& m.opstamp == 0
                &&& m.checksum is None
            },
            Err(e) => docs.len() > 0 && (e matches IndexError::Segment(x) && exists|
                ps: Seq<(u64, u32)>,
            |
                #[trigger] writer::refused(entries(closed_up(docs)), ps, x) && lists_pairs(
                    ps,
                    closed_up(docs),
                )),
        }
    }
}

/// The same, where there may be nothing to do.
pub open spec fn is_flush_opt(
    r: Result<Option<FlushedIndex>, IndexError>,
    s: IndexSnapshot,
    previous: Manifest,
    anchor: FlushAnchor,
    inputs: AnchorView,
    created_at: u64,
) -> bool {
    match r {
        Ok(Some(f)) => is_flush(Ok(f), s, previous, anchor, inputs, created_at),
        Ok(None) => false,
        Err(e) => is_flush(Err(e), s, previous, anchor, inputs, created_at),
    }
}

/// Makes the overlay durable: a segment of its documents beside the segments of
/// the manifest, the delete set, the working-tree anchor, and the manifest that
/// names them. The documents keep their order and get ids without gaps, from that of
/// the first one on.
///
/// Refused where the manifest no longer describes the base of the snapshot.
pub fn flush_overlay_durable(
    s: &IndexSnapshot,
    previous: &Manifest,
    anchor: FlushAnchor,
    inputs: &AnchorInputs,
    created_at: u64,
) -> (r: Result<FlushedIndex, IndexError>)
    requires
        s.wf(),
        inputs.wf(),
        manifest::doc_total(previous.segments@) <= u32::MAX,
    ensures
        is_flush(r, *s, *previous, anchor, inputs@, created_at),
{
    let ghost docs = s.overlay.documents();
    let n: usize = previous.segments.len();
    let snapshot_total: u128 = snapshot::count_docs(s.base_segments());
    let manifest_total: u32 = previous.total_docs();
    if s.base.segments.len() != n || snapshot_total != manifest_total as u128 {
        return Err(IndexError::CorruptIndex(Corruption::IndexChanged));
    }
    let mut refs = manifest::copy_refs(&previous.segments, n);
    let ghost refs0 = refs@;
    let mut new: Vec<NewSegment> = Vec::new();
    proof {
        assert(manifest::ref_views(previous.segments@).take(n as int) =~= manifest::ref_views(
            previous.segments@,
        ));
        assert(manifest::ref_views(refs0).len() == n);
        if docs.len() > 0 {
            lemma_ids_at_least(docs, docs.len() - 1);
        }
    }
    if s.overlay.docs.len() > 0 {
        let w = overlay_writer(&s.overlay);
        let ghost ps = w.postings();
        let first: u32 = s.overlay.docs[0].doc_id;
        assert(docs[0].doc_id == first);
        match compact_index::write_segment(w, first) {
            Err(e) => {
                assert(writer::refused(entries(closed_up(docs)), ps, e));
                return Err(IndexError::Segment(e));
            },
            Ok((x, f)) => {
                let ghost x0 = x;
                refs.push(x);
                new.push(f);
                assert(compact_index::is_written(
                    refs@[n as int]@,
                    new@[0],
                    entries(closed_up(docs)),
                    ps,
                    first,
                ));
            },
        }
    }
    assert(manifest::ref_views(refs@).take(n as int) =~= manifest::ref_views(refs0));
    let deletes = write_deletes(s);
    let flushed = overlay_paths(&s.overlay);
    let worktree = write_anchor(inputs, &flushed);
    let added: u64 = s.overlay.docs.len() as u64;
    let sum: u64 = previous.total_files_indexed as u64 + added;
    let total: u32 = if sum > 0xFFFF_FFFF {
        u32::MAX
    } else {
        sum as u32
    };
    let mut m = Manifest::new(refs, total, created_at);
    m.base_commit = match anchor {
        FlushAnchor::AdvanceHead(head) => head,
        FlushAnchor::KeepHead => copy_name(&previous.base_commit),
    };
    m.paths_idx_version = Some(paths_idx::FORMAT_VERSION);
    m.overlay_deletes_file = sidecar_name(&deletes);
    m.worktree_anchor_file = sidecar_name(&worktree);
    m.overlay_gen = previous.overlay_gen.saturating_add(1);
    let list = s.path_index.cached_list();
    Ok(FlushedIndex { manifest: m, files: new, deletes, anchor: worktree, paths: list })
}

/// The anchor that a flush of these paths writes.
pub open spec fn anchor_written(
    inputs: AnchorView,
    flushed: Set<Seq<u8>>,
    r: Option<Sidecar>,
) -> bool {
    match inputs.read_epoch {
        None => r is None,
        Some(epoch) => {
            let next = inputs.next(flushed, epoch);
            if next.len() > worktree_anchor::MAX_ENTRIES || next == Map::<
                Seq<u8>,
                Observed,
            >::empty() || !short_keys(next) {
                r is None
            } else {
                r matches Some(f) && files::is_generated(
                    f.name@,
                    worktree_codec::name_prefix(),
                    worktree_codec::name_suffix(),
                ) && worktree_codec::decoded(f.bytes@) == Ok::<
                    Map<Seq<u8>, Observed>,
                    worktree_codec::SidecarError,
                >(next)
            }
        },
    }
}

impl FlushedIndex {
    /// The manifest to save, after the optional files were tried.
    pub open spec fn is_final(
        self,
        anchor_written: bool,
        paths_idx_written: bool,
        m: Manifest,
    ) -> bool {
        m == (Manifest {
            worktree_anchor_file: if anchor_written {
                self.manifest.worktree_anchor_file
            } else {
                None
            },
            paths_idx_version: if paths_idx_written {
                self.manifest.paths_idx_version
            } else {
                None
            },
            ..self.manifest
        })
    }

    /// The manifest to save, after the optional files were tried: a working-tree
    /// anchor or a path index that was not written is not named.
    pub fn final_manifest(self, anchor_written: bool, paths_idx_written: bool) -> (m: Manifest)
        ensures
            self.is_final(anchor_written, paths_idx_written, m),
    {
        let mut m = self.manifest;
        if !anchor_written {
            m.worktree_anchor_file = None;
        }
        if !paths_idx_written {
            m.paths_idx_version = None;
        }
        m
    }
}

/// A flush of uncommitted changes does not move the recorded commit.
pub proof fn law_uncommitted_changes_keep_the_commit(previous: Manifest)
    ensures
        commit_after(FlushAnchor::KeepHead, previous) == name_view(previous.base_commit),
{
}

/// The kept time after commits that started to read at these times.
pub open spec fn epoch_after(kept: Option<u128>, times: Seq<u128>) -> Option<u128>
    decreases times.len(),
{
    if times.len() == 0 {
        kept
    } else {
        kept_epoch(epoch_after(kept, times.drop_last()), times.last())
    }
}

/// However many commits come before a flush, the time it works with is that of
/// the first: no file was read before it.
pub proof fn law_kept_time_is_the_earliest(times: Seq<u128>)
    requires
        times.len() > 0,
        forall|i: int, j: int| 0 <= i <= j < times.len() ==> times[i] <= times[j],
    ensures
        epoch_after(None, times) == Some(times[0]),
        forall|i: int| 0 <= i < times.len() ==> times[0] <= #[trigger] times[i],
    decreases times.len(),
{
    if times.len() > 1 {
        law_kept_time_is_the_earliest(times.drop_last());
    } else {
        reveal_with_fuel(epoch_after, 2);
    }
}

/// A path that a flush made durable, and whose file could be trusted, counts as
/// unchanged for as long as its file stays what it was.
pub proof fn law_flushed_paths_count_as_unchanged(
    inputs: AnchorView,
    flushed: Set<Seq<u8>>,
    read_epoch: u128,
    p: Seq<u8>,
)
    requires
        flushed.contains(p) || inputs.non_doc_paths.contains(p),
        inputs.observed.contains_key(p),
        inputs.observed[p].settled(read_epoch, inputs.now),
    ensures
        unchanged(inputs.next(flushed, read_epoch), p, Some(inputs.observed[p])),
{
}

proof fn lemma_unflushed_from(
    anchor: Map<Seq<u8>, Observed>,
    list: Seq<Seq<u8>>,
    current: Seq<Option<Observed>>,
    p: Seq<u8>,
)
    requires
        list.len() == current.len(),
        unflushed(anchor, list, current).contains(p),
    ensures
        exists|i: int|
            0 <= i < list.len() && #[trigger] list[i] == p && !unchanged(anchor, p, current[i]),
    decreases list.len(),
{
    if list.len() > 0 {
        let a = list.drop_last();
        let c = current.drop_last();
        let rest = unflushed(anchor, a, c);
        if rest.contains(p) {
            lemma_unflushed_from(anchor, a, c, p);
            let i = choose|i: int|
                0 <= i < a.len() && #[trigger] a[i] == p && !unchanged(anchor, p, c[i]);
            assert(list[i] == p && current[i] == c[i]);
        } else if !unchanged(anchor, list.last(), current.last()) {
            full_build::lemma_push_contains(rest, list.last(), p);
            assert(list[list.len() - 1] == p);
        }
    }
}

/// A path that is listed once stays in the list exactly if it is not as the
/// anchor recorded it.
pub proof fn law_changed_paths_stay(
    anchor: Map<Seq<u8>, Observed>,
    list: Seq<Seq<u8>>,
    current: Seq<Option<Observed>>,
    k: int,
)
    requires
        list.len() == current.len(),
        paths::ascending(list),
        0 <= k < list.len(),
    ensures
        unflushed(anchor, list, current).contains(list[k]) <==> !unchanged(
            anchor,
            list[k],
            current[k],
        ),
{
    if unchanged(anchor, list[k], current[k]) {
        if unflushed(anchor, list, current).contains(list[k]) {
            lemma_unflushed_from(anchor, list, current, list[k]);
            let i = choose|i: int|
                0 <= i < list.len() && #[trigger] list[i] == list[k] && !unchanged(
                    anchor,
                    list[k],
                    current[i],
                );
            paths::lemma_ascending_unique(list, i, k);
        }
    } else {
        lemma_changed_stays(anchor, list, current, k);
    }
}

proof fn lemma_changed_stays(
    anchor: Map<Seq<u8>, Observed>,
    list: Seq<Seq<u8>>,
    current: Seq<Option<Observed>>,
    k: int,
)
    requires
        list.len() == current.len(),
        0 <= k < list.len(),
        !unchanged(anchor, list[k], current[k]),
    ensures
        unflushed(anchor, list, current).contains(list[k]),
    decreases list.len(),
{
    let a = list.drop_last();
    let c = current.drop_last();
    let rest = unflushed(anchor, a, c);
    if k < a.len() {
        lemma_changed_stays(anchor, a, c, k);
    }
    full_build::lemma_push_contains(rest, list.last(), list[k]);
}

/// The documents of an overlay with consecutive ids read back from the segment
/// that a flush wrote of them, in an index whose other segments end at `end`.
pub proof fn law_flushed_documents_read_back(
    docs: Seq<OverlayDocView>,
    r: manifest::SegmentRefView,
    f: NewSegment,
    ps: Seq<(u64, u32)>,
    end: u32,
    verify: DictVerify,
) -> (l: SegmentLayout)
    requires
        docs.len() > 0,
        forall|k: int| 0 <= k < docs.len() ==> (#[trigger] docs[k]).doc_id == docs[0].doc_id + k,
        compact_index::is_written(r, f, entries(docs), ps, docs[0].doc_id),
        f.image.dict@.len() <= usize::MAX,
        end <= docs[0].doc_id,
        docs[0].doc_id + docs.len() <= open::MAX_TOTAL_DOCS,
    ensures
        reader::layout_of(f.image.dict@, seq![layout::FORMAT_VERSION_V3], verify) == Ok::<
            SegmentLayout,
            Corruption,
        >(l),
        open::admission_fault(r.base_doc_id, end, open::docs_in(f.image.dict@, l)) is None,
        open::docs_in(f.image.dict@, l).len() == docs.len(),
        forall|k: int|
            0 <= k < docs.len() ==> #[trigger] open::docs_in(f.image.dict@, l)[k] == Some(
                compact::as_entry(docs[k]),
            ),
{
    let es = entries(docs);
    assert forall|k: int| 0 <= k < es.len() implies (#[trigger] es[k]).doc_id == docs[0].doc_id
        + k by {
        assert(docs[k].doc_id == docs[0].doc_id + k);
    }
    let l = compact_laws::law_new_segments_are_taken(
        f.image.dict@,
        f.image.post@,
        es,
        ps,
        docs[0].doc_id,
        end,
        verify,
    );
    assert forall|k: int| 0 <= k < docs.len() implies #[trigger] open::docs_in(
        f.image.dict@,
        l,
    )[k] == Some(compact::as_entry(docs[k])) by {
        assert(es[k] == compact::as_entry(docs[k]));
    }
    l
}

/// An index that was flushed and opened again has the same live documents: those
/// of the overlay are now in the last segment.
pub proof fn law_flush_keeps_the_live_documents(
    before: IndexSnapshot,
    after: IndexSnapshot,
    seg: MmapSegment,
)
    requires
        ({
            let docs = before.overlay.documents();
            &&& docs.len() > 0
            &&& forall|k: int|
                0 <= k < docs.len() ==> (#[trigger] docs[k]).doc_id == docs[0].doc_id + k
            &&& before.base.base_ids@.len() == before.segs().len()
            &&& after.segs() == before.segs().push(seg)
            &&& seg.doc_count == docs.len()
            &&& after.base.base_ids@ == before.base.base_ids@.push(docs[0].doc_id)
            &&& after.deleted() == before.deleted()
            &&& after.overlay.documents().len() == 0
            &&& forall|d: u32| #[trigger] before.deleted().contains(d) ==> d < docs[0].doc_id
        }),
    ensures
        after.live_ids() == before.live_ids(),
{
    let docs = before.overlay.documents();
    let first = docs[0].doc_id;
    let a = before.segs();
    let b = after.segs();
    let n = a.len() as int;
    let ia = before.base.base_ids@;
    let ib = after.base.base_ids@;
    assert forall|d: u32| after.live_ids().contains(d) <==> before.live_ids().contains(d) by {
        if before.live_ids().contains(d) {
            if snapshot::overlay_ids(docs).contains(d) {
                let k = choose|k: int| 0 <= k < docs.len() && (#[trigger] docs[k]).doc_id == d;
                assert(docs[k].doc_id == first + k);
                assert(snapshot::in_segment(b, ib, n, d));
            } else {
                let i = choose|i: int| i < n && #[trigger] snapshot::in_segment(a, ia, i, d);
                assert(b[i] == a[i] && ib[i] == ia[i]);
                assert(snapshot::in_segment(b, ib, i, d));
            }
        }
        if after.live_ids().contains(d) {
            assert(!snapshot::overlay_ids(after.overlay.documents()).contains(d));
            let i = choose|i: int| i < n + 1 && #[trigger] snapshot::in_segment(b, ib, i, d);
            if i < n {
                assert(b[i] == a[i] && ib[i] == ia[i]);
                assert(snapshot::in_segment(a, ia, i, d));
            } else {
                assert(docs[d - first].doc_id == d);
            }
        }
    }
    assert(after.live_ids() =~= before.live_ids());
}

/// An anchor is written exactly if a commit recorded when it read files, and there are one
/// to fifty thousand entries whose paths are not too long; it then holds the next entries.
pub proof fn law_anchors_are_written_up_to_the_limit(
    inputs: AnchorView,
    flushed: Set<Seq<u8>>,
    r: Option<Sidecar>,
)
    requires
        anchor_written(inputs, flushed, r),
    ensures
        inputs.read_epoch is None ==> r is None,
        inputs.read_epoch matches Some(epoch) ==> {
            let next = inputs.next(flushed, epoch);
            &&& r is Some <==> next.len() <= 50_000 && (exists|p: Seq<u8>| next.contains_key(p))
                && forall|p: Seq<u8>| #[trigger] next.contains_key(p) ==> p.len() <= u32::MAX
            &&& r matches Some(f) ==> worktree_codec::decoded(f.bytes@) == Ok::<
                Map<Seq<u8>, Observed>,
                worktree_codec::SidecarError,
            >(next)
        },
{
    if let Some(epoch) = inputs.read_epoch {
        let next = inputs.next(flushed, epoch);
        if !exists|p: Seq<u8>| next.contains_key(p) {
            assert(next =~= Map::<Seq<u8>, Observed>::empty());
        }
    }
}

/// The manifest that is saved names the segments and the delete set of the flush; it names an
/// optional file only if that was written.
pub proof fn law_saved_manifests_name_what_was_written(
    w: FlushedIndex,
    anchor_written: bool,
    paths_idx_written: bool,
    m: Manifest,
)
    requires
        w.is_final(anchor_written, paths_idx_written, m),
    ensures
        m.segments == w.manifest.segments,
        m.overlay_deletes_file == w.manifest.overlay_deletes_file,
        m.base_commit == w.manifest.base_commit,
        m.worktree_anchor_file is Some ==> anchor_written,
        m.paths_idx_version is Some ==> paths_idx_written,
        anchor_written ==> m.worktree_anchor_file == w.manifest.worktree_anchor_file,
        paths_idx_written ==> m.paths_idx_version == w.manifest.paths_idx_version,
{
}

} // verus!
