//! The index after a compaction: new segment files and a new manifest.

use crate::compact;
use crate::compact::{CompactionState, Placed};
use crate::compact_plan::CompactionPlan;
use crate::error::{Corruption, IndexError};
use crate::files;
use crate::manifest;
use crate::manifest::{Manifest, SegmentRef, SegmentRefView};
use crate::path_index;
use crate::paths;
use crate::paths_idx;
use crate::segment::layout;
use crate::segment::layout::DocView;
use crate::segment::writer;
use crate::segment::writer::{SegmentError, SegmentImage, SegmentWriter};
use crate::snapshot::IndexSnapshot;
use vstd::prelude::*;

verus! {

/// The first id of each segment of a manifest, and the id after the last: the
/// recorded one, or the one after the segment before.
pub open spec fn bases(refs: Seq<SegmentRef>) -> (Seq<u32>, u32)
    decreases refs.len(),
{
    if refs.len() == 0 {
        (Seq::empty(), 0)
    } else {
        let (before, next) = bases(refs.drop_last());
        let base = match refs.last().base_doc_id {
            Some(b) => b,
            None => next,
        };
        (
            before.push(base),
            if base + refs.last().doc_count > u32::MAX {
                u32::MAX
            } else {
                (base + refs.last().doc_count) as u32
            },
        )
    }
}

/// The first id of each segment of a manifest.
pub fn manifest_segment_bases(segments: &Vec<SegmentRef>) -> (r: Vec<u32>)
    ensures
        r@ == bases(segments@).0,
        r@.len() == segments@.len(),
{
    let mut out: Vec<u32> = Vec::new();
    let mut next: u32 = 0;
    let mut i: usize = 0;
    while i < segments.len()
        invariant
            i <= segments@.len(),
            (out@, next) == bases(segments@.take(i as int)),
            out@.len() == i,
        decreases segments@.len() - i,
    {
        assert(segments@.take(i + 1).drop_last() =~= segments@.take(i as int));
        let base: u32 = match segments[i].base_doc_id {
            Some(b) => b,
            None => next,
        };
        out.push(base);
        next = base.saturating_add(segments[i].doc_count);
        i = i + 1;
    }
    assert(segments@.take(i as int) =~= segments@);
    out
}

/// The first position at which two lists of ids differ, as an error.
pub open spec fn diverging(snapshot: Seq<u32>, manifest: Seq<u32>, n: nat) -> Option<Corruption>
    decreases n,
{
    if n == 0 {
        None
    } else {
        match diverging(snapshot, manifest, (n - 1) as nat) {
            Some(c) => Some(c),
            None => if snapshot[n - 1] != manifest[n - 1] {
                Some(
                    Corruption::BaseIdDiverges {
                        segment: (n - 1) as usize,
                        snapshot_base: snapshot[n - 1],
                        manifest_base: manifest[n - 1],
                    },
                )
            } else {
                None
            },
        }
    }
}

proof fn lemma_diverging_stays(snapshot: Seq<u32>, manifest: Seq<u32>, n: nat, m: nat)
    requires
        n <= m,
        diverging(snapshot, manifest, n) is Some,
    ensures
        diverging(snapshot, manifest, m) == diverging(snapshot, manifest, n),
    decreases m,
{
    if n < m {
        lemma_diverging_stays(snapshot, manifest, n, (m - 1) as nat);
    }
}

pub(crate) proof fn lemma_not_diverging(snapshot: Seq<u32>, manifest: Seq<u32>, n: nat)
    requires
        diverging(snapshot, manifest, n) is None,
        n <= snapshot.len(),
        n <= manifest.len(),
    ensures
        snapshot.take(n as int) == manifest.take(n as int),
    decreases n,
{
    if n > 0 {
        lemma_not_diverging(snapshot, manifest, (n - 1) as nat);
        assert(snapshot.take(n as int) =~= snapshot.take(n - 1).push(snapshot[n - 1]));
        assert(manifest.take(n as int) =~= manifest.take(n - 1).push(manifest[n - 1]));
    }
}

/// How a snapshot differs from the manifest it is to be compacted under.
pub open spec fn divergence(s: IndexSnapshot, manifest_bases: Seq<u32>) -> Option<Corruption> {
    if s.segs().len() != manifest_bases.len() {
        Some(
            Corruption::SegmentCountDiverges {
                in_snapshot: s.segs().len() as usize,
                in_manifest: manifest_bases.len() as usize,
            },
        )
    } else if s.base.base_ids@.len() != s.segs().len() {
        Some(
            Corruption::BaseIdCountDiverges {
                base_ids: s.base.base_ids@.len() as usize,
                segments: s.segs().len() as usize,
            },
        )
    } else {
        diverging(s.base.base_ids@, manifest_bases, manifest_bases.len())
    }
}

/// Checks that a snapshot has the segments of the manifest, at the same ids.
pub fn validate_snapshot_matches_manifest(s: &IndexSnapshot, manifest_bases: &Vec<u32>) -> (r:
    Result<(), IndexError>)
    ensures
        match divergence(*s, manifest_bases@) {
            Some(c) => r == Err::<(), IndexError>(IndexError::CorruptIndex(c)),
            None => r == Ok::<(), IndexError>(()),
        },
{
    let segments: usize = s.base.segments.len();
    if segments != manifest_bases.len() {
        return Err(
            IndexError::CorruptIndex(
                Corruption::SegmentCountDiverges {
                    in_snapshot: segments,
                    in_manifest: manifest_bases.len(),
                },
            ),
        );
    }
    let base_ids: usize = s.base.base_ids.len();
    if base_ids != segments {
        return Err(
            IndexError::CorruptIndex(Corruption::BaseIdCountDiverges { base_ids, segments }),
        );
    }
    let ghost a = s.base.base_ids@;
    let ghost b = manifest_bases@;
    let mut i: usize = 0;
    while i < manifest_bases.len()
        invariant
            a == s.base.base_ids@,
            b == manifest_bases@,
            a.len() == b.len(),
            i <= b.len(),
            diverging(a, b, i as nat) is None,
            divergence(*s, b) == diverging(a, b, b.len()),
        decreases b.len() - i,
    {
        let snapshot_base: u32 = s.base.base_ids[i];
        let manifest_base: u32 = manifest_bases[i];
        if snapshot_base != manifest_base {
            proof {
                lemma_diverging_stays(a, b, (i + 1) as nat, b.len());
            }
            return Err(
                IndexError::CorruptIndex(
                    Corruption::BaseIdDiverges { segment: i, snapshot_base, manifest_base },
                ),
            );
        }
        i = i + 1;
    }
    Ok(())
}

/// The bases of a prefix are a prefix of the bases.
pub(crate) proof fn lemma_bases_prefix(refs: Seq<SegmentRef>, i: int)
    requires
        0 <= i <= refs.len(),
    ensures
        bases(refs).0.len() == refs.len(),
        bases(refs.take(i)).0 == bases(refs).0.take(i),
    decreases refs.len(),
{
    if refs.len() > 0 {
        let front = refs.drop_last();
        if i == refs.len() {
            lemma_bases_prefix(front, i - 1);
            assert(refs.take(i) =~= refs);
            assert(bases(refs).0.take(i) =~= bases(refs).0);
        } else {
            lemma_bases_prefix(front, i);
            assert(refs.take(i) =~= front.take(i));
            assert(bases(refs).0.take(i) =~= bases(front).0.take(i));
        }
    } else {
        assert(refs.take(i) =~= refs);
        assert(bases(refs).0.take(i) =~= bases(refs).0);
    }
}

/// A new segment: its file names and its contents.
pub struct NewSegment {
    pub dict_filename: Vec<u8>,
    pub post_filename: Vec<u8>,
    pub image: SegmentImage,
}

/// An index as it is after a compaction or a flush.
pub struct WrittenIndex {
    /// The manifest, still without its checksum.
    pub manifest: Manifest,
    /// The new segments, in the order of the manifest.
    pub files: Vec<NewSegment>,
    /// The paths that `paths.idx` is to list, in their order.
    pub paths: Vec<Vec<u8>>,
}

/// `ps` lists a gram for a document exactly if new segment `j` is to.
pub open spec fn lists_exactly(
    ps: Seq<(u64, u32)>,
    targets: Map<u32, (int, u32)>,
    src: Set<(u64, u32)>,
    j: int,
) -> bool {
    forall|gram: u64, n: u32|
        #![trigger ps.contains((gram, n))]
        ps.contains((gram, n)) <==> compact::lists(targets, src, j, gram, n)
}

/// The entry and the files are those of a segment of these documents and
/// postings, its ids from `base` on.
pub open spec fn is_written(
    r: SegmentRefView,
    f: NewSegment,
    docs: Seq<DocView>,
    ps: Seq<(u64, u32)>,
    base: u32,
) -> bool {
    &&& writer::acceptable(docs, ps)
    &&& layout::is_segment(f.image.dict@, f.image.post@, docs, ps)
    &&& files::hyphenated(r.segment_id)
    &&& r.dict_filename == r.segment_id + writer::dict_suffix()
    &&& r.post_filename == r.segment_id + writer::post_suffix()
    &&& f.dict_filename@ == r.dict_filename
    &&& f.post_filename@ == r.post_filename
    &&& r.filename == Seq::<u8>::empty()
    &&& r.base_doc_id == Some(base)
    &&& r.doc_count == docs.len()
    &&& r.gram_count == writer::grams_of(ps).len()
    &&& r.post_len == Some(f.image.post@.len() as u64)
    &&& r.doc_bytes == Some(writer::clamp64(writer::size_total(docs)))
}

/// Writes one segment under a fresh name.
pub(crate) fn write_segment(w: SegmentWriter, base: u32) -> (r: Result<
    (SegmentRef, NewSegment),
    SegmentError,
>)
    ensures
        match r {
            Ok((x, f)) => is_written(x@, f, w.docs(), w.postings(), base),
            Err(e) => writer::refused(w.docs(), w.postings(), e),
        },
{
    match w.write_to_dir() {
        Err(e) => Err(e),
        Ok((meta, image)) => {
            let x = SegmentRef::from_meta(meta, Some(base));
            let f = NewSegment {
                dict_filename: crate::le::bytes_clone(x.dict_filename.as_slice()),
                post_filename: crate::le::bytes_clone(x.post_filename.as_slice()),
                image,
            };
            Ok((x, f))
        },
    }
}

/// New segment `j` of a compaction was written.
pub open spec fn group_written(
    refs: Seq<SegmentRef>,
    at: int,
    files: Seq<NewSegment>,
    p: Placed,
    src: Set<(u64, u32)>,
    j: int,
) -> bool {
    exists|ps: Seq<(u64, u32)>|
        #[trigger] is_written(refs[at + j]@, files[j], p.groups[j], ps, p.bases[j])
            && lists_exactly(ps, p.targets, src, j)
}

/// New segment `j` of a compaction is refused for the reason `e`.
pub open spec fn group_refused(p: Placed, src: Set<(u64, u32)>, j: int, e: SegmentError) -> bool {
    0 <= j < p.groups.len() && exists|ps: Seq<(u64, u32)>|
        #[trigger] writer::refused(p.groups[j], ps, e) && lists_exactly(ps, p.targets, src, j)
}

/// Some new segment of a compaction is refused for the reason `e`.
pub open spec fn some_group_refused(p: Placed, src: Set<(u64, u32)>, e: SegmentError) -> bool {
    exists|j: int| #[trigger] group_refused(p, src, j, e)
}

/// Placed groups are not empty, and together they hold every document.
pub open spec fn group_total(groups: Seq<Seq<DocView>>) -> nat
    decreases groups.len(),
{
    if groups.len() == 0 {
        0
    } else {
        group_total(groups.drop_last()) + groups.last().len()
    }
}

proof fn lemma_group_total_last(groups: Seq<Seq<DocView>>, d: DocView)
    requires
        groups.len() > 0,
    ensures
        group_total(groups.update(groups.len() - 1, groups.last().push(d))) == group_total(groups)
            + 1,
{
    let after = groups.update(groups.len() - 1, groups.last().push(d));
    assert(after.drop_last() =~= groups.drop_last());
}

/// Placing a list makes one base per group, no empty group, and places every
/// document.
pub proof fn lemma_placed_shape(docs: Seq<DocView>, start: u32, batch: u64)
    ensures
        ({
            let p = compact::place_all(docs, start, batch);
            &&& p.bases.len() == p.groups.len()
            &&& group_total(p.groups) == docs.len()
            &&& forall|j: int| 0 <= j < p.groups.len() ==> (#[trigger] p.groups[j]).len() > 0
        }),
    decreases docs.len(),
{
    if docs.len() > 0 {
        let before = compact::place_all(docs.drop_last(), start, batch);
        lemma_placed_shape(docs.drop_last(), start, batch);
        let fresh = compact::starts_segment(before, docs.last().size_bytes, batch);
        let groups = if fresh {
            before.groups.push(Seq::empty())
        } else {
            before.groups
        };
        if fresh {
            assert(groups.drop_last() =~= before.groups);
        }
        lemma_group_total_last(groups, DocView { doc_id: before.next, ..docs.last() });
        assert(groups[groups.len() - 1] == groups.last());
        let p = compact::place_all(docs, start, batch);
        assert forall|j: int| 0 <= j < p.groups.len() implies (#[trigger] p.groups[j]).len() > 0 by {
            if j < groups.len() - 1 {
                assert(p.groups[j] == groups[j]);
                assert(groups[j] == before.groups[j]);
            }
        }
    }
}

proof fn lemma_doc_total_push(refs: Seq<SegmentRef>, r: SegmentRef)
    ensures
        manifest::doc_total(refs.push(r)) == manifest::doc_total(refs) + r.doc_count,
{
    assert(refs.push(r).drop_last() =~= refs);
}

/// Writes the new segments and enters them in the list.
fn write_groups(st: CompactionState, refs: Vec<SegmentRef>, Ghost(src): Ghost<Set<(u64, u32)>>) -> (r:
    Result<(Vec<SegmentRef>, Vec<NewSegment>), IndexError>)
    requires
        st.wf(),
        compact::posted(st.writers@, st@.targets, src),
        forall|j: int| 0 <= j < st@.groups.len() ==> (#[trigger] st@.groups[j]).len() > 0,
    ensures
        match r {
            Ok((all, new)) => {
                &&& all@.len() == refs@.len() + st@.groups.len()
                &&& new@.len() == st@.groups.len()
                &&& forall|i: int| 0 <= i < refs@.len() ==> #[trigger] all@[i] == refs@[i]
                &&& forall|j: int|
                    0 <= j < st@.groups.len() ==> #[trigger] group_written(
                        all@,
                        refs@.len() as int,
                        new@,
                        st@,
                        src,
                        j,
                    )
                &&& manifest::doc_total(all@) == manifest::doc_total(refs@) + group_total(
                    st@.groups,
                )
            },
            Err(e) => e matches IndexError::Segment(x) && some_group_refused(st@, src, x),
        },
{
    let ghost p = st@;
    let ghost at = refs@.len() as int;
    let ghost refs0 = refs@;
    let mut all = refs;
    let mut new: Vec<NewSegment> = Vec::new();
    let mut queue = st.writers;
    let ghost w = queue@;
    let mut k: usize = 0;
    assert(w.skip(0) =~= w);
    assert(compact::writer_docs(w) == p.groups);
    while k < st.writer_base_doc_ids.len()
        invariant
            p.bases == st.writer_base_doc_ids@,
            p == st@,
            at == refs0.len(),
            refs0 == refs@,
            w.len() == p.bases.len(),
            w.len() == p.groups.len(),
            compact::writer_docs(w) == p.groups,
            compact::posted(w, p.targets, src),
            forall|j: int| 0 <= j < p.groups.len() ==> (#[trigger] p.groups[j]).len() > 0,
            k <= w.len(),
            queue@ == w.skip(k as int),
            all@.len() == at + k,
            new@.len() == k,
            forall|i: int| 0 <= i < at ==> #[trigger] all@[i] == refs0[i],
            forall|j: int|
                0 <= j < k ==> #[trigger] group_written(all@, at, new@, p, src, j),
            manifest::doc_total(all@) == manifest::doc_total(refs0) + group_total(
                p.groups.take(k as int),
            ),
        decreases w.len() - k,
    {
        let writer = queue.remove(0);
        assert(writer == w[k as int]);
        assert(queue@ =~= w.skip(k + 1));
        let ghost ps = writer.postings();
        proof {
            assert(writer.docs() == p.groups[k as int]);
            assert forall|gram: u64, n: u32|
                #![trigger ps.contains((gram, n))]
                ps.contains((gram, n)) <==> compact::lists(
                    p.targets,
                    src,
                    k as int,
                    gram,
                    n,
                ) by {
                assert(w[k as int].postings().contains((gram, n)) <==> compact::lists(
                    p.targets,
                    src,
                    k as int,
                    gram,
                    n,
                ));
            }
            assert(lists_exactly(ps, p.targets, src, k as int));
        }
        if writer.doc_count() > 0 {
            match write_segment(writer, st.writer_base_doc_ids[k]) {
                Err(e) => {
                    proof {
                        assert(writer::refused(p.groups[k as int], ps, e));
                        assert(group_refused(p, src, k as int, e));
                    }
                    return Err(IndexError::Segment(e));
                },
                Ok((x, f)) => {
                    let ghost all0 = all@;
                    let ghost new0 = new@;
                    let ghost x0 = x;
                    let ghost f0 = f;
                    all.push(x);
                    new.push(f);
                    proof {
                        lemma_doc_total_push(all0, x0);
                        assert(p.groups.take(k + 1).drop_last() =~= p.groups.take(k as int));
                        assert forall|j: int| 0 <= j < k + 1 implies #[trigger] group_written(
                            all@,
                            at,
                            new@,
                            p,
                            src,
                            j,
                        ) by {
                            if j < k {
                                assert(group_written(all0, at, new0, p, src, j));
                                let q = choose|q: Seq<(u64, u32)>|
                                    #[trigger] is_written(
                                        all0[at + j]@,
                                        new0[j],
                                        p.groups[j],
                                        q,
                                        p.bases[j],
                                    ) && lists_exactly(q, p.targets, src, j);
                                assert(is_written(
                                    all@[at + j]@,
                                    new@[j],
                                    p.groups[j],
                                    q,
                                    p.bases[j],
                                ));
                            } else {
                                assert(is_written(
                                    all@[at + j]@,
                                    new@[j],
                                    p.groups[j],
                                    ps,
                                    p.bases[j],
                                ));
                            }
                        }
                    }
                },
            }
        } else {
            assert(p.groups[k as int].len() > 0);
        }
        k = k + 1;
    }
    assert(p.groups.take(k as int) =~= p.groups);
    Ok((all, new))
}

/// The entries of the segments that stay, each with its first id.
fn kept_refs(segments: &Vec<SegmentRef>, manifest_bases: &Vec<u32>, n: usize) -> (r: Vec<
    SegmentRef,
>)
    requires
        n <= segments@.len(),
        manifest_bases@.len() == segments@.len(),
    ensures
        r@.len() == n,
        forall|i: int|
            0 <= i < n ==> #[trigger] kept_ref(r@, segments@, manifest_bases@, i),
        manifest::doc_total(r@) == manifest::doc_total(segments@.take(n as int)),
{
    let mut out: Vec<SegmentRef> = Vec::new();
    let mut i: usize = 0;
    while i < n
        invariant
            i <= n <= segments@.len(),
            manifest_bases@.len() == segments@.len(),
            out@.len() == i,
            forall|k: int|
                0 <= k < i ==> #[trigger] kept_ref(out@, segments@, manifest_bases@, k),
            manifest::doc_total(out@) == manifest::doc_total(segments@.take(i as int)),
        decreases n - i,
    {
        let mut x = segments[i].copy();
        x.base_doc_id = Some(manifest_bases[i]);
        let ghost out0 = out@;
        let ghost x0 = x;
        out.push(x);
        proof {
            lemma_doc_total_push(out0, x0);
            assert(segments@.take(i + 1).drop_last() =~= segments@.take(i as int));
            assert forall|k: int| 0 <= k < i + 1 implies #[trigger] kept_ref(
                out@,
                segments@,
                manifest_bases@,
                k,
            ) by {
                if k < i {
                    assert(kept_ref(out0, segments@, manifest_bases@, k));
                }
            }
        }
        i = i + 1;
    }
    out
}

/// Entry `i` is the old one, with its first id filled in.
pub open spec fn kept_ref(
    refs: Seq<SegmentRef>,
    old_refs: Seq<SegmentRef>,
    first_ids: Seq<u32>,
    i: int,
) -> bool {
    refs[i]@ == (SegmentRefView { base_doc_id: Some(first_ids[i]), ..old_refs[i]@ })
}

/// What a compaction by this plan gives.
pub open spec fn is_compaction(
    r: Result<WrittenIndex, IndexError>,
    s: IndexSnapshot,
    previous: Manifest,
    plan: CompactionPlan,
    head: Option<Vec<u8>>,
    created_at: u64,
) -> bool {
    let refs = previous.segments@;
    let first_ids = bases(refs).0;
    let n = plan.suffix_start as int;
    let start = bases(refs.take(n)).1;
    let src = compact::moved_pairs(s, n);
    if n > refs.len() {
        r == Err::<WrittenIndex, IndexError>(
            IndexError::CorruptIndex(
                Corruption::SuffixTooLong {
                    suffix: plan.suffix_start,
                    segments: refs.len() as usize,
                },
            ),
        )
    } else if let Some(c) = divergence(s, first_ids) {
        r == Err::<WrittenIndex, IndexError>(IndexError::CorruptIndex(c))
    } else {
        match compact::moved(s, n, compact::room_from(start)) {
            Err(e) => r == Err::<WrittenIndex, IndexError>(e),
            Ok(docs) => if let Some(c) = compact::suffix_fault(
                s.segs(),
                n,
                s.segs().len() as int,
            ) {
                r == Err::<WrittenIndex, IndexError>(IndexError::CorruptIndex(c))
            } else {
                let p = compact::place_all(
                    docs,
                    start,
                    compact::cost(plan.batch_size_bytes),
                );
                let total = manifest::doc_total(refs.take(n)) + docs.len();
                match r {
                    Ok(w) => {
                        let all = w.manifest.segments;
                        &&& start + docs.len() <= u32::MAX
                        &&& total <= u32::MAX
                        &&& all@.len() == n + p.groups.len()
                        &&& w.files@.len() == p.groups.len()
                        &&& paths::path_views(w.paths@) == path_index::live_list(s.path_index)
                        &&& forall|i: int|
                            0 <= i < n ==> #[trigger] kept_ref(all@, refs, first_ids, i)
                        &&& forall|j: int|
                            0 <= j < p.groups.len() ==> #[trigger] group_written(
                                all@,
                                n,
                                w.files@,
                                p,
                                src,
                                j,
                            )
                        &&& w.manifest == (Manifest {
                            version: manifest::FORMAT_VERSION,
                            base_commit: head,
                            segments: all,
                            overlay_gen: 0,
                            overlay_file: None,
                            overlay_deletes_file: None,
                            worktree_anchor_file: None,
                            paths_idx_version: Some(paths_idx::FORMAT_VERSION),
                            total_files_indexed: total as u32,
                            created_at,
                            opstamp: 0,
                            checksum: None,
                        })
                    },
                    Err(IndexError::Segment(x)) => some_group_refused(p, src, x),
                    Err(e) => total > u32::MAX && e == compact::no_id_left(),
                }
            },
        }
    }
}

/// The same, where there may be nothing to do.
pub open spec fn is_compaction_opt(
    r: Result<Option<WrittenIndex>, IndexError>,
    s: IndexSnapshot,
    previous: Manifest,
    plan: CompactionPlan,
    head: Option<Vec<u8>>,
    created_at: u64,
) -> bool {
    match r {
        Ok(Some(w)) => is_compaction(Ok(w), s, previous, plan, head, created_at),
        Ok(None) => false,
        Err(e) => is_compaction(Err(e), s, previous, plan, head, created_at),
    }
}

/// Rewrites the segments from `plan.suffix_start` on and the overlay, and makes
/// the manifest of the result. `head` is the commit that the result reflects.
///
/// The segments before stay as they are; new documents take the ids after
/// theirs. A result with more documents than 32 bits can count is refused. The
/// manifest of the result counts on a path index that is written with it.
pub fn compact_index(
    s: &IndexSnapshot,
    previous: &Manifest,
    plan: &CompactionPlan,
    head: Option<Vec<u8>>,
    created_at: u64,
) -> (r: Result<WrittenIndex, IndexError>)
    requires
        s.wf(),
    ensures
        is_compaction(r, *s, *previous, *plan, head, created_at),
{
    let ghost refs = previous.segments@;
    let n: usize = plan.suffix_start;
    if n > previous.segments.len() {
        return Err(
            IndexError::CorruptIndex(
                Corruption::SuffixTooLong { suffix: n, segments: previous.segments.len() },
            ),
        );
    }
    let manifest_bases = manifest_segment_bases(&previous.segments);
    match validate_snapshot_matches_manifest(s, &manifest_bases) {
        Err(e) => {
            return Err(e);
        },
        Ok(_) => {},
    }
    let start: u32 = if n == 0 {
        0
    } else {
        manifest_bases[n - 1].saturating_add(previous.segments[n - 1].doc_count)
    };
    proof {
        lemma_bases_prefix(refs, n as int);
        if n > 0 {
            assert(refs.take(n as int).last() == refs[n - 1]);
            assert(bases(refs.take(n as int)).0.last() == manifest_bases@[n - 1]);
        } else {
            assert(refs.take(0).len() == 0);
        }
        assert(start == bases(refs.take(n as int)).1);
    }
    let st = match compact::rewrite(s, n, start, plan.batch_size_bytes) {
        Err(e) => {
            return Err(e);
        },
        Ok(st) => st,
    };
    let ghost docs = compact::moved(*s, n as int, compact::room_from(start))->Ok_0;
    let ghost src = compact::moved_pairs(*s, n as int);
    proof {
        lemma_placed_shape(docs, start, compact::cost(plan.batch_size_bytes));
    }
    let kept = kept_refs(&previous.segments, &manifest_bases, n);
    let ghost kept0 = kept@;
    let (all, new) = match write_groups(st, kept, Ghost(src)) {
        Err(e) => {
            return Err(e);
        },
        Ok(x) => x,
    };
    proof {
        assert forall|i: int| 0 <= i < n implies #[trigger] kept_ref(
            all@,
            refs,
            manifest_bases@,
            i,
        ) by {
            assert(kept_ref(kept0, refs, manifest_bases@, i));
            assert(all@[i] == kept0[i]);
        }
    }
    if !manifest::counts_fit(&all) {
        return Err(IndexError::DocIdOverflow { base_doc_count: u32::MAX, overlay_docs: 0 });
    }
    let total: u32 = manifest::manifest_total_docs(&all);
    let mut m = Manifest::new(all, total, created_at);
    m.base_commit = head;
    m.paths_idx_version = Some(paths_idx::FORMAT_VERSION);
    let list = s.path_index.cached_list();
    Ok(WrittenIndex { manifest: m, files: new, paths: list })
}

} // verus!
