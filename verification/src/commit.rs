//! Commits: pending edits become the next snapshot.

use crate::encoding;
use crate::error::IndexError;
use crate::le;
use crate::overlay;
use crate::overlay::{NewFile, OverlayDocView, OverlayView};
use crate::path_index;
use crate::path_index::PathIndex;
use crate::path_resolve;
use crate::paths;
use crate::paths::PathSet;
use crate::pending;
use crate::pending::{PendingEdits, TakeResult};
use crate::segment::reader::MmapSegment;
use crate::snapshot;
use crate::snapshot::IndexSnapshot;
use std::borrow::Cow;
use std::sync::Arc;
use vstd::prelude::*;

verus! {

/// What came of opening and reading a changed file.
#[derive(Debug)]
pub enum ReadOutcome {
    /// There is no file at the path.
    Missing,
    /// The path could not be opened inside the repository.
    Refused,
    /// Reading failed.
    Failed,
    /// What was read, at most one byte more than the size limit.
    Read(Vec<u8>),
}

/// What a commit does with a changed file.
#[derive(Debug)]
pub enum ChangedFileOutcome {
    /// It is indexed with this content.
    Indexed(Vec<u8>),
    /// It is left out: binary, too large, outside the repository or unreadable.
    Excluded,
    /// It is gone, and counts as deleted.
    Vanished,
}

/// How many bytes are read of a file.
pub open spec fn is_read_limit(max_file_size: u64, n: u64) -> bool {
    n == (if max_file_size == u64::MAX {
        u64::MAX
    } else {
        (max_file_size + 1) as u64
    })
}

/// How many bytes to read of a file: one more than the limit, so that a file
/// that outgrew it is recognised.
pub fn read_limit(max_file_size: u64) -> (n: u64)
    ensures
        is_read_limit(max_file_size, n),
{
    max_file_size.saturating_add(1)
}

/// What a commit does with a file of which this was read.
pub open spec fn is_verdict(read: ReadOutcome, max_file_size: u64, r: ChangedFileOutcome) -> bool {
    match read {
        ReadOutcome::Missing => r is Vanished,
        ReadOutcome::Refused => r is Excluded,
        ReadOutcome::Failed => r is Excluded,
        ReadOutcome::Read(raw) => if raw@.len() > max_file_size || encoding::binary(
            encoding::normalized(raw@),
        ) {
            r is Excluded
        } else {
            r matches ChangedFileOutcome::Indexed(c) && c@ == encoding::normalized(raw@)
        },
    }
}

/// Decides what a commit does with a changed file. Nothing about one file keeps
/// the others from being committed.
pub fn classify_changed_file(read: ReadOutcome, max_file_size: u64) -> (r: ChangedFileOutcome)
    ensures
        is_verdict(read, max_file_size, r),
{
    let raw = match read {
        ReadOutcome::Missing => {
            return ChangedFileOutcome::Vanished;
        },
        ReadOutcome::Refused => {
            return ChangedFileOutcome::Excluded;
        },
        ReadOutcome::Failed => {
            return ChangedFileOutcome::Excluded;
        },
        ReadOutcome::Read(raw) => raw,
    };
    if raw.len() as u64 > max_file_size {
        return ChangedFileOutcome::Excluded;
    }
    let content: Vec<u8> = match encoding::normalize_encoding(raw.as_slice()) {
        Cow::Borrowed(s) => le::bytes_clone(s),
        Cow::Owned(v) => v,
    };
    if encoding::is_binary(content.as_slice()) {
        return ChangedFileOutcome::Excluded;
    }
    ChangedFileOutcome::Indexed(content)
}

/// A changed file of a commit, with the grams of its content.
#[derive(Debug)]
pub enum ChangedFile {
    Indexed { content: Vec<u8>, grams: Vec<u64> },
    Excluded,
    Vanished,
}

/// The paths whose files are indexed: `outcomes` lists what came of each path.
pub open spec fn visible(list: Seq<Seq<u8>>, outcomes: Seq<ChangedFile>) -> Set<Seq<u8>> {
    Set::new(
        |p: Seq<u8>|
            exists|i: int|
                #![trigger outcomes[i]]
                0 <= i < list.len() && list[i] == p && outcomes[i] is Indexed,
    )
}

/// The changed paths that leave the index: excluded or vanished.
pub open spec fn lost(list: Seq<Seq<u8>>, outcomes: Seq<ChangedFile>) -> Set<Seq<u8>> {
    Set::new(
        |p: Seq<u8>|
            exists|i: int|
                #![trigger outcomes[i]]
                0 <= i < list.len() && list[i] == p && !(outcomes[i] is Indexed),
    )
}

/// The indexed files among the first `n`, as new overlay documents.
pub open spec fn indexed(
    list: Seq<Seq<u8>>,
    outcomes: Seq<ChangedFile>,
    n: nat,
) -> Seq<OverlayDocView>
    decreases n,
{
    if n == 0 {
        Seq::empty()
    } else {
        let rest = indexed(list, outcomes, (n - 1) as nat);
        match outcomes[n - 1] {
            ChangedFile::Indexed { content, grams } => rest.push(
                OverlayDocView {
                    doc_id: 0,
                    path: list[n - 1],
                    content: content@,
                    grams: grams@,
                },
            ),
            _ => rest,
        }
    }
}

/// How many documents the next overlay holds: those of the old one whose path
/// neither changed nor left, and one for every changed path that stays.
pub open spec fn projected(
    docs: Seq<OverlayDocView>,
    changed: Set<Seq<u8>>,
    removed: Set<Seq<u8>>,
) -> nat {
    overlay::carried(docs, removed, changed).len() + changed.difference(removed).len()
}

/// `n`, or the largest `usize` if `n` is larger.
pub open spec fn clamp_size(n: nat) -> usize {
    if n > usize::MAX {
        usize::MAX
    } else {
        n as usize
    }
}

/// How many documents the next overlay holds.
pub fn projected_overlay_doc_count(
    old_overlay: &OverlayView,
    visible_changed: &PathSet,
    removed_paths: &PathSet,
) -> (n: usize)
    requires
        visible_changed.wf(),
        removed_paths.wf(),
    ensures
        n == clamp_size(
            projected(old_overlay.documents(), visible_changed@, removed_paths@),
        ),
{
    let ghost docs = old_overlay.documents();
    let ghost changed = visible_changed@;
    let ghost removed = removed_paths@;
    let mut kept: usize = 0;
    let mut i: usize = 0;
    while i < old_overlay.docs.len()
        invariant
            visible_changed.wf(),
            removed_paths.wf(),
            docs == old_overlay.documents(),
            changed == visible_changed@,
            removed == removed_paths@,
            i <= docs.len(),
            kept <= i,
            kept == overlay::carried(docs.take(i as int), removed, changed).len(),
        decreases docs.len() - i,
    {
        let p: &[u8] = old_overlay.docs[i].path.as_slice();
        proof {
            let next = docs.take(i + 1);
            assert(next.drop_last() =~= docs.take(i as int));
            assert(next.last() == docs[i as int]);
        }
        if !visible_changed.contains(p) && !removed_paths.contains(p) {
            kept = kept + 1;
        }
        i = i + 1;
    }
    assert(docs.take(i as int) =~= docs);
    let mut rest = visible_changed.copy();
    rest.subtract(removed_paths);
    kept.saturating_add(rest.len())
}

/// The first id above those of the first `n` base segments, or the first range
/// of ids that does not fit.
pub open spec fn id_limit(segs: Seq<MmapSegment>, base_ids: Seq<u32>, n: nat) -> Result<
    u32,
    IndexError,
>
    decreases n,
{
    if n == 0 {
        Ok(0)
    } else {
        let i = n - 1;
        match id_limit(segs, base_ids, (n - 1) as nat) {
            Err(e) => Err(e),
            Ok(max) => if i >= base_ids.len() {
                Ok(max)
            } else if base_ids[i] + segs[i].doc_count > u32::MAX {
                Err(
                    IndexError::DocIdOverflow {
                        base_doc_count: base_ids[i],
                        overlay_docs: segs[i].doc_count as usize,
                    },
                )
            } else {
                let end = (base_ids[i] + segs[i].doc_count) as u32;
                Ok(
                    if end > max {
                        end
                    } else {
                        max
                    },
                )
            },
        }
    }
}

proof fn lemma_id_limit_stays(segs: Seq<MmapSegment>, base_ids: Seq<u32>, n: nat, m: nat)
    requires
        n <= m,
        id_limit(segs, base_ids, n) is Err,
    ensures
        id_limit(segs, base_ids, m) == id_limit(segs, base_ids, n),
    decreases m,
{
    if n < m {
        lemma_id_limit_stays(segs, base_ids, n, (m - 1) as nat);
    }
}

/// The first id above those of the base.
pub fn base_doc_id_limit(s: &IndexSnapshot) -> (r: Result<u32, IndexError>)
    ensures
        r == id_limit(s.segs(), s.base.base_ids@, s.segs().len()),
{
    let ghost segs = s.segs();
    let ghost ids = s.base.base_ids@;
    let mut max: u32 = 0;
    let mut i: usize = 0;
    while i < s.base.segments.len()
        invariant
            segs == s.segs(),
            ids == s.base.base_ids@,
            i <= segs.len(),
            id_limit(segs, ids, i as nat) == Ok::<u32, IndexError>(max),
        decreases segs.len() - i,
    {
        if i < s.base.base_ids.len() {
            let base: u32 = s.base.base_ids[i];
            let count: u32 = s.base.segments[i].doc_count;
            match base.checked_add(count) {
                None => {
                    proof {
                        lemma_id_limit_stays(segs, ids, (i + 1) as nat, segs.len());
                    }
                    return Err(
                        IndexError::DocIdOverflow {
                            base_doc_count: base,
                            overlay_docs: count as usize,
                        },
                    );
                },
                Some(end) => {
                    if end > max {
                        max = end;
                    }
                },
            }
        }
        i = i + 1;
    }
    Ok(max)
}

/// No id of the base is at or above the limit.
pub proof fn law_overlay_ids_start_above_the_base(
    segs: Seq<MmapSegment>,
    base_ids: Seq<u32>,
    n: nat,
    limit: u32,
    i: int,
    d: u32,
)
    requires
        id_limit(segs, base_ids, n) == Ok::<u32, IndexError>(limit),
        n <= segs.len(),
        n <= base_ids.len(),
        i < n,
        snapshot::in_segment(segs, base_ids, i, d),
    ensures
        d < limit,
    decreases n,
{
    let before = id_limit(segs, base_ids, (n - 1) as nat)->Ok_0;
    if i < n - 1 {
        law_overlay_ids_start_above_the_base(segs, base_ids, (n - 1) as nat, before, i, d);
    }
}

/// The overlay would be more than half of the base. Without a base there is no
/// such limit: the overlay is the index.
pub open spec fn overlay_full(base_docs: nat, overlay_docs: nat) -> bool {
    base_docs > 0 && 2 * overlay_docs > base_docs
}

/// The overlay documents of a commit; the error where ids run out.
pub open spec fn next_documents(
    prev: OverlayView,
    limit: u32,
    new: Seq<OverlayDocView>,
    changed: Set<Seq<u8>>,
    removed: Set<Seq<u8>>,
) -> Option<Seq<OverlayDocView>> {
    let kept = overlay::carried(prev.documents(), removed, changed);
    let same_base = limit == prev.base_doc_count;
    let first = if same_base {
        prev.next_doc_id as int
    } else {
        limit + kept.len()
    };
    if first + new.len() > u32::MAX {
        None
    } else {
        Some(
            (if same_base {
                kept
            } else {
                overlay::renumbered(kept, limit)
            }) + overlay::renumbered(new, first as u32),
        )
    }
}

pub(crate) proof fn lemma_one_outcome(list: Seq<Seq<u8>>, outcomes: Seq<ChangedFile>)
    requires
        paths::ascending(list),
        list.len() == outcomes.len(),
    ensures
        visible(list, outcomes).disjoint(lost(list, outcomes)),
        visible(list, outcomes).union(lost(list, outcomes)) == list.to_set(),
{
    let v = visible(list, outcomes);
    let l = lost(list, outcomes);
    assert forall|p: Seq<u8>| v.contains(p) implies !l.contains(p) by {
        if l.contains(p) {
            let i = choose|i: int|
                #![trigger outcomes[i]]
                0 <= i < list.len() && list[i] == p && outcomes[i] is Indexed;
            let j = choose|j: int|
                #![trigger outcomes[j]]
                0 <= j < list.len() && list[j] == p && !(outcomes[j] is Indexed);
            paths::lemma_ascending_unique(list, i, j);
        }
    }
    assert forall|p: Seq<u8>| v.union(l).contains(p) <==> list.to_set().contains(p) by {
        if v.contains(p) {
            let i = choose|i: int|
                #![trigger outcomes[i]]
                0 <= i < list.len() && list[i] == p && outcomes[i] is Indexed;
            assert(list.contains(list[i]));
        }
        if l.contains(p) {
            let i = choose|i: int|
                #![trigger outcomes[i]]
                0 <= i < list.len() && list[i] == p && !(outcomes[i] is Indexed);
            assert(list.contains(list[i]));
        }
        if list.contains(p) {
            let i = choose|i: int| 0 <= i < list.len() && list[i] == p;
            if outcomes[i] is Indexed {
                assert(v.contains(p));
            } else {
                assert(l.contains(p));
            }
        }
    }
    assert(v.union(l) =~= list.to_set());
}

/// The files of a commit sorted by what came of them.
struct Sorted {
    new_files: Vec<NewFile>,
    visible: PathSet,
    lost: PathSet,
}

/// The paths among the first `n` with an indexed file.
spec fn visible_upto(list: Seq<Seq<u8>>, outcomes: Seq<ChangedFile>, n: int) -> Set<Seq<u8>> {
    Set::new(
        |p: Seq<u8>|
            exists|i: int|
                #![trigger outcomes[i]]
                0 <= i < n && list[i] == p && outcomes[i] is Indexed,
    )
}

/// The paths among the first `n` without an indexed file.
spec fn lost_upto(list: Seq<Seq<u8>>, outcomes: Seq<ChangedFile>, n: int) -> Set<Seq<u8>> {
    Set::new(
        |p: Seq<u8>|
            exists|i: int|
                #![trigger outcomes[i]]
                0 <= i < n && list[i] == p && !(outcomes[i] is Indexed),
    )
}

/// The documents of files, without ids.
pub open spec fn file_docs(files: Seq<NewFile>) -> Seq<OverlayDocView> {
    Seq::new(files.len(), |i: int| overlay::as_doc(files[i], 0))
}

fn sort_outcomes(changed: &PathSet, outcomes: Vec<ChangedFile>) -> (r: Sorted)
    requires
        changed.wf(),
        outcomes@.len() == changed.paths@.len(),
    ensures
        r.visible.wf(),
        r.lost.wf(),
        r.visible@ == visible(changed.seq(), outcomes@),
        r.lost@ == lost(changed.seq(), outcomes@),
        file_docs(r.new_files@) == indexed(changed.seq(), outcomes@, outcomes@.len()),
        r.new_files@.len() == r.visible@.len(),
{
    let ghost list = changed.seq();
    let ghost all = outcomes@;
    let mut queue = outcomes;
    let mut new_files: Vec<NewFile> = Vec::new();
    let mut vis = PathSet::new();
    let mut gone = PathSet::new();
    let mut i: usize = 0;
    proof {
        assert(all.skip(0) =~= all);
        assert(vis@ =~= visible_upto(list, all, 0));
        assert(gone@ =~= lost_upto(list, all, 0));
        assert(file_docs(new_files@) =~= Seq::<OverlayDocView>::empty());
        vis.lemma_len();
    }
    while i < changed.paths.len()
        invariant
            list == changed.seq(),
            all == outcomes@,
            paths::ascending(list),
            paths::all_normal(list),
            list.len() == all.len(),
            i <= list.len(),
            queue@ == all.skip(i as int),
            vis.wf(),
            gone.wf(),
            vis@ == visible_upto(list, all, i as int),
            gone@ == lost_upto(list, all, i as int),
            file_docs(new_files@) == indexed(list, all, i as nat),
            new_files@.len() == vis@.len(),
        decreases list.len() - i,
    {
        let o = queue.remove(0);
        assert(o == all[i as int]);
        assert(queue@ =~= all.skip(i + 1));
        let p: &[u8] = changed.paths[i].as_slice();
        assert(p@ == list[i as int]);
        assert(path_resolve::normal(list[i as int]) == p@);
        let ghost vis0 = vis@;
        let ghost gone0 = gone@;
        match o {
            ChangedFile::Indexed { content, grams } => {
                let ghost files0 = new_files@;
                let f = NewFile { path: le::bytes_clone(p), content: Arc::new(content), grams };
                let ghost shown = overlay::as_doc(f, 0);
                new_files.push(f);
                proof {
                    vis.lemma_len();
                }
                let fresh = vis.insert(p);
                proof {
                    assert(file_docs(new_files@) =~= file_docs(files0).push(shown));
                    if vis0.contains(p@) {
                        let k = choose|k: int|
                            #![trigger all[k]]
                            0 <= k < i && list[k] == p@ && all[k] is Indexed;
                        paths::lemma_ascending_unique(list, k, i as int);
                    }
                }
            },
            _ => {
                gone.insert(p);
            },
        }
        proof {
            assert forall|q: Seq<u8>| visible_upto(list, all, i + 1).contains(q) <==> vis@.contains(
                q,
            ) by {
                if visible_upto(list, all, i + 1).contains(q) {
                    let k = choose|k: int|
                        #![trigger all[k]]
                        0 <= k < i + 1 && list[k] == q && all[k] is Indexed;
                    if k < i {
                        assert(vis0.contains(q));
                    }
                }
                if vis0.contains(q) {
                    let k = choose|k: int|
                        #![trigger all[k]]
                        0 <= k < i && list[k] == q && all[k] is Indexed;
                    assert(0 <= k < i + 1);
                }
                assert(all[i as int] is Indexed || !(all[i as int] is Indexed));
            }
            assert(vis@ =~= visible_upto(list, all, i + 1));
            assert forall|q: Seq<u8>| lost_upto(list, all, i + 1).contains(q) <==> gone@.contains(
                q,
            ) by {
                if lost_upto(list, all, i + 1).contains(q) {
                    let k = choose|k: int|
                        #![trigger all[k]]
                        0 <= k < i + 1 && list[k] == q && !(all[k] is Indexed);
                    if k < i {
                        assert(gone0.contains(q));
                    }
                }
                if gone0.contains(q) {
                    let k = choose|k: int|
                        #![trigger all[k]]
                        0 <= k < i && list[k] == q && !(all[k] is Indexed);
                    assert(0 <= k < i + 1);
                }
                assert(all[i as int] is Indexed || !(all[i as int] is Indexed));
            }
            assert(gone@ =~= lost_upto(list, all, i + 1));
        }
        i = i + 1;
    }
    proof {
        assert(vis@ =~= visible(list, all));
        assert(gone@ =~= lost(list, all));
    }
    Sorted { new_files, visible: vis, lost: gone }
}

/// What a commit of drained edits gives.
pub open spec fn is_commit(
    snap: IndexSnapshot,
    take: TakeResult,
    outcomes: Seq<ChangedFile>,
    r: Result<IndexSnapshot, IndexError>,
) -> bool {
    let list = take.newly_changed.seq();
    let changed = visible(list, outcomes);
    let removed = take.newly_deleted@.union(lost(list, outcomes));
    let new = indexed(list, outcomes, outcomes.len());
    let base_docs = snapshot::doc_sum(snap.segs());
    let overlay_docs = projected(snap.overlay.documents(), changed, removed);
    match id_limit(snap.segs(), snap.base.base_ids@, snap.segs().len()) {
        Err(e) => r == Err::<IndexSnapshot, IndexError>(e),
        Ok(limit) => if overlay_full(base_docs, overlay_docs) {
            r == Err::<IndexSnapshot, IndexError>(
                IndexError::OverlayFull {
                    overlay_docs: clamp_size(overlay_docs),
                    base_docs: base_docs as usize,
                },
            )
        } else {
            match next_documents(snap.overlay, limit, new, changed, removed) {
                None => r == Err::<IndexSnapshot, IndexError>(
                    IndexError::DocIdOverflow {
                        base_doc_count: limit,
                        overlay_docs: OverlayView::reported_docs(
                            snap.overlay.documents().len(),
                            new.len(),
                            changed.len(),
                        ) as usize,
                    },
                ),
                Some(docs) => r matches Ok(s) && {
                    &&& s.wf()
                    &&& s.base == snap.base
                    &&& s.overlay.documents() == docs
                    &&& s.overlay.base_doc_count == limit
                    &&& s.overlay.documents().len() == overlay_docs
                    &&& s.deleted() == snap.deleted().union(
                        pending::docs_of(
                            snap.base.path_doc_ids@,
                            take.newly_changed@.union(take.newly_deleted@),
                        ),
                    )
                    &&& (s.path_index.file_ids(), s.path_index.next_id as nat)
                        == path_index::with_fresh(
                        snap.path_index.file_ids().remove_keys(removed),
                        snap.path_index.next_id as nat,
                        sorted_paths(changed),
                    )
                    &&& s.overlay_doc_to_file_id@ == snapshot::overlay_file_ids(
                        docs,
                        s.path_index.file_ids(),
                    )
                },
            }
        },
    }
}

/// The next snapshot: the base of the old one, with the drained edits in the
/// overlay, the delete set and the file ids. `outcomes` says, in the order of
/// the changed paths, what came of each file.
///
/// Refused as a whole where the overlay would outgrow half of the base, or
/// where document ids run out.
pub fn commit_inner(snap: &IndexSnapshot, take: &TakeResult, outcomes: Vec<ChangedFile>) -> (r:
    Result<IndexSnapshot, IndexError>)
    requires
        snap.wf(),
        take.newly_changed.wf(),
        take.newly_deleted.wf(),
        take.newly_changed@.disjoint(take.newly_deleted@),
        outcomes@.len() == take.newly_changed.paths@.len(),
        snapshot::doc_sum(snap.segs()) <= u32::MAX,
        snap.path_index.next_id + outcomes@.len() <= u32::MAX,
    ensures
        is_commit(*snap, *take, outcomes@, r),
{
    let ghost list = take.newly_changed.seq();
    let ghost all = outcomes@;
    let base_docs: u128 = snapshot::count_docs(snap.base_segments());
    let limit: u32 = match base_doc_id_limit(snap) {
        Err(e) => {
            return Err(e);
        },
        Ok(l) => l,
    };
    let sorted = sort_outcomes(&take.newly_changed, outcomes);
    let visible_changed = sorted.visible;
    let mut removed_paths = take.newly_deleted.copy();
    removed_paths.extend(&sorted.lost);
    let ghost changed = visible(list, all);
    let ghost removed = take.newly_deleted@.union(lost(list, all));
    proof {
        lemma_one_outcome(list, all);
        visible_changed.lemma_len();
        assert(changed.difference(removed) =~= changed) by {
            assert forall|p: Seq<u8>| changed.contains(p) implies !removed.contains(p) by {
                assert(changed.union(lost(list, all)).contains(p));
                assert(take.newly_changed@.contains(p));
            }
        }
        lemma_sorted_paths(visible_changed);
    }
    let overlay_docs: usize = projected_overlay_doc_count(
        &snap.overlay,
        &visible_changed,
        &removed_paths,
    );
    if base_docs > 0 && 2 * (overlay_docs as u128) > base_docs {
        return Err(IndexError::OverlayFull { overlay_docs, base_docs: base_docs as usize });
    }
    let ghost new = indexed(list, all, all.len());
    let ghost files = sorted.new_files@;
    let view = match OverlayView::build_incremental(
        limit,
        &snap.overlay,
        sorted.new_files,
        &visible_changed,
        &removed_paths,
    ) {
        Err(e) => {
            return Err(e);
        },
        Ok(v) => v,
    };
    proof {
        let kept = overlay::carried(snap.overlay.documents(), removed, changed);
        let first = if limit == snap.overlay.base_doc_count {
            snap.overlay.next_doc_id as int
        } else {
            limit + kept.len()
        };
        assert(overlay::numbered(files, first as u32) =~= overlay::renumbered(new, first as u32))
            by {
            assert(new == file_docs(files));
        }
        assert(view.documents() == next_documents(snap.overlay, limit, new, changed, removed)->0);
    }
    let delete_set = pending::compute_delete_set(
        &snap.base.path_doc_ids,
        &take.newly_changed,
        &take.newly_deleted,
        &snap.delete_set,
    );
    proof {
        lemma_visible_len(take.newly_changed, visible_changed, all);
    }
    let path_index = PathIndex::build_incremental(
        &snap.path_index,
        &removed_paths,
        &visible_changed,
    );
    let ids = snapshot::map_overlay_docs(&view, &path_index);
    Ok(
        snapshot::new_snapshot(overlay::share(&snap.base), view, delete_set, path_index, ids),
    )
}

/// A set of paths in ascending order.
pub open spec fn sorted_paths(s: Set<Seq<u8>>) -> Seq<Seq<u8>> {
    choose|q: Seq<Seq<u8>>| paths::ascending(q) && q.to_set() == s
}

pub proof fn lemma_sorted_paths(s: PathSet)
    requires
        s.wf(),
    ensures
        sorted_paths(s@) == s.seq(),
{
    let q = sorted_paths(s@);
    assert(paths::ascending(s.seq()) && s.seq().to_set() == s@);
    paths::lemma_ascending_determined(q, s.seq());
}

proof fn lemma_visible_len(changed: PathSet, vis: PathSet, outcomes: Seq<ChangedFile>)
    requires
        changed.wf(),
        vis.wf(),
        vis@ == visible(changed.seq(), outcomes),
    ensures
        vis@.len() <= changed.seq().len(),
{
    changed.lemma_len();
    vis.lemma_len();
    assert(vis@.subset_of(changed@)) by {
        assert forall|p: Seq<u8>| vis@.contains(p) implies changed@.contains(p) by {
            let i = choose|i: int|
                #![trigger outcomes[i]]
                0 <= i < changed.seq().len() && changed.seq()[i] == p && outcomes[i] is Indexed;
            assert(changed.seq().contains(changed.seq()[i]));
        }
    }
    vstd::set_lib::lemma_len_subset(vis@, changed@);
}

/// Commits drained edits. A commit that fails puts them back, each path with its
/// last edit, before the edits that came since.
pub fn commit_batch(
    pending: &mut PendingEdits,
    snap: &IndexSnapshot,
    take: TakeResult,
    outcomes: Vec<ChangedFile>,
) -> (r: Result<IndexSnapshot, IndexError>)
    requires
        snap.wf(),
        take.newly_changed.wf(),
        take.newly_deleted.wf(),
        take.newly_changed@.disjoint(take.newly_deleted@),
        outcomes@.len() == take.newly_changed.paths@.len(),
        snapshot::doc_sum(snap.segs()) <= u32::MAX,
        snap.path_index.next_id + outcomes@.len() <= u32::MAX,
    ensures
        is_commit(*snap, take, outcomes@, r),
        final(pending)@ == (if r is Err && take.drained@.len() > 0 {
            pending::last_edits(pending::edit_views(take.drained@) + old(pending)@)
        } else {
            old(pending)@
        }),
{
    match commit_inner(snap, &take, outcomes) {
        Ok(s) => Ok(s),
        Err(e) => {
            pending.requeue_uncommitted(take.drained);
            Err(e)
        },
    }
}

/// The paths of drained edits that do not become documents: the deleted ones, and
/// the changed ones whose files are gone or not indexed.
pub fn non_doc_paths(take: &TakeResult, outcomes: &Vec<ChangedFile>) -> (r: PathSet)
    requires
        take.newly_changed.wf(),
        take.newly_deleted.wf(),
        outcomes@.len() == take.newly_changed.paths@.len(),
    ensures
        r.wf(),
        r@ == take.newly_deleted@.union(lost(take.newly_changed.seq(), outcomes@)),
{
    let ghost list = take.newly_changed.seq();
    let ghost all = outcomes@;
    let ghost deleted = take.newly_deleted@;
    let mut r = take.newly_deleted.copy();
    let mut i: usize = 0;
    assert(r@ =~= deleted.union(lost_upto(list, all, 0)));
    while i < outcomes.len()
        invariant
            list == take.newly_changed.seq(),
            paths::all_normal(list),
            all == outcomes@,
            all.len() == list.len(),
            i <= all.len(),
            r.wf(),
            r@ == deleted.union(lost_upto(list, all, i as int)),
        decreases all.len() - i,
    {
        let ghost before = r@;
        match &outcomes[i] {
            ChangedFile::Indexed { content: _, grams: _ } => {},
            _ => {
                r.insert(take.newly_changed.paths[i].as_slice());
            },
        }
        proof {
            assert(list[i as int] == take.newly_changed.paths@[i as int]@);
            assert(path_resolve::normal(list[i as int]) == list[i as int]);
            assert forall|q: Seq<u8>|
                r@.contains(q) <==> deleted.union(lost_upto(list, all, i + 1)).contains(q) by {
                if lost_upto(list, all, i as int).contains(q) {
                    let k = choose|k: int|
                        #![trigger all[k]]
                        0 <= k < i && list[k] == q && !(all[k] is Indexed);
                    assert(0 <= k < i + 1);
                }
                if lost_upto(list, all, i + 1).contains(q) {
                    let k = choose|k: int|
                        #![trigger all[k]]
                        0 <= k < i + 1 && list[k] == q && !(all[k] is Indexed);
                    if k < i {
                        assert(lost_upto(list, all, i as int).contains(q));
                    }
                }
                assert(all[i as int] is Indexed || !(all[i as int] is Indexed));
            }
            assert(r@ =~= deleted.union(lost_upto(list, all, i + 1)));
        }
        i = i + 1;
    }
    assert(lost_upto(list, all, i as int) =~= lost(list, all));
    r
}

/// After a commit, no base document of a path that was edited is visible.
pub proof fn law_edited_paths_hide_their_base_documents(
    base: Map<Seq<u8>, Vec<u32>>,
    prev: Set<u32>,
    edited: Set<Seq<u8>>,
    path: Seq<u8>,
    d: u32,
)
    requires
        edited.contains(path),
        base.contains_key(path),
        base[path]@.contains(d),
    ensures
        prev.union(pending::docs_of(base, edited)).contains(d),
{
}

/// A document with this path, in its normal form, this content and these grams is
/// among the documents.
pub open spec fn shows(
    docs: Seq<OverlayDocView>,
    path: Seq<u8>,
    content: Seq<u8>,
    grams: Seq<u64>,
) -> bool {
    exists|k: int|
        0 <= k < docs.len()
            && path_resolve::normal((#[trigger] docs[k]).path) == path
            && docs[k].content == content && docs[k].grams == grams
}

proof fn lemma_carried_shows(
    docs: Seq<OverlayDocView>,
    removed: Set<Seq<u8>>,
    changed: Set<Seq<u8>>,
    path: Seq<u8>,
    content: Seq<u8>,
    grams: Seq<u64>,
)
    ensures
        shows(overlay::carried(docs, removed, changed), path, content, grams) <==> shows(
            docs,
            path,
            content,
            grams,
        ) && !removed.contains(path) && !changed.contains(path),
    decreases docs.len(),
{
    if docs.len() > 0 {
        let front = docs.drop_last();
        let rest = overlay::carried(front, removed, changed);
        let all = overlay::carried(docs, removed, changed);
        lemma_carried_shows(front, removed, changed, path, content, grams);
        if shows(front, path, content, grams) {
            let k = choose|k: int|
                0 <= k < front.len()
                    && path_resolve::normal((#[trigger] front[k]).path) == path && front[k].content
                    == content && front[k].grams == grams;
            assert(docs[k] == front[k]);
        }
        if shows(docs, path, content, grams) {
            let k = choose|k: int|
                0 <= k < docs.len()
                    && path_resolve::normal((#[trigger] docs[k]).path) == path && docs[k].content
                    == content && docs[k].grams == grams;
            if k < front.len() {
                assert(front[k] == docs[k]);
            } else if all.len() > rest.len() {
                assert(all[rest.len() as int] == docs[k]);
            }
        }
        if shows(rest, path, content, grams) {
            let k = choose|k: int|
                0 <= k < rest.len()
                    && path_resolve::normal((#[trigger] rest[k]).path) == path && rest[k].content
                    == content && rest[k].grams == grams;
            assert(all[k] == rest[k]);
        }
        if shows(all, path, content, grams) {
            let k = choose|k: int|
                0 <= k < all.len()
                    && path_resolve::normal((#[trigger] all[k]).path) == path && all[k].content
                    == content && all[k].grams == grams;
            if k < rest.len() {
                assert(rest[k] == all[k]);
            } else {
                assert(docs[docs.len() - 1] == all[k]);
            }
        }
    }
}

/// A changed path with this content and these grams is among the first `n`.
pub open spec fn reads(
    list: Seq<Seq<u8>>,
    outcomes: Seq<ChangedFile>,
    n: nat,
    path: Seq<u8>,
    content: Seq<u8>,
    grams: Seq<u64>,
) -> bool {
    exists|i: int|
        #![trigger outcomes[i]]
        0 <= i < n && list[i] == path && (outcomes[i] matches ChangedFile::Indexed {
            content: c,
            grams: g,
        } && c@ == content && g@ == grams)
}

proof fn lemma_indexed_shows(
    list: Seq<Seq<u8>>,
    outcomes: Seq<ChangedFile>,
    n: nat,
    path: Seq<u8>,
    content: Seq<u8>,
    grams: Seq<u64>,
)
    requires
        n <= list.len(),
        list.len() == outcomes.len(),
        paths::all_normal(list),
    ensures
        shows(indexed(list, outcomes, n), path, content, grams) <==> reads(
            list,
            outcomes,
            n,
            path,
            content,
            grams,
        ),
    decreases n,
{
    if n > 0 {
        let m = (n - 1) as nat;
        assert(path_resolve::normal(list[n - 1]) == list[n - 1]);
        lemma_indexed_shows(list, outcomes, m, path, content, grams);
        let rest = indexed(list, outcomes, m);
        let all = indexed(list, outcomes, n);
        if shows(rest, path, content, grams) {
            let k = choose|k: int|
                0 <= k < rest.len()
                    && path_resolve::normal((#[trigger] rest[k]).path) == path && rest[k].content
                    == content && rest[k].grams == grams;
            assert(all[k] == rest[k]);
        }
        if shows(all, path, content, grams) {
            let k = choose|k: int|
                0 <= k < all.len()
                    && path_resolve::normal((#[trigger] all[k]).path) == path && all[k].content
                    == content && all[k].grams == grams;
            if k < rest.len() {
                assert(rest[k] == all[k]);
                assert(shows(rest, path, content, grams));
            } else {
                assert(outcomes[n - 1] is Indexed);
                assert(reads(list, outcomes, n, path, content, grams));
            }
        }
        if reads(list, outcomes, n, path, content, grams) {
            let i = choose|i: int|
                #![trigger outcomes[i]]
                0 <= i < n && list[i] == path && (outcomes[i] matches ChangedFile::Indexed {
                    content: c,
                    grams: g,
                } && c@ == content && g@ == grams);
            if i < m {
                assert(reads(list, outcomes, m, path, content, grams));
            } else {
                assert(path_resolve::normal(all[rest.len() as int].path) == path);
            }
        }
    }
}

proof fn lemma_renumbered_shows(
    docs: Seq<OverlayDocView>,
    first: u32,
    path: Seq<u8>,
    content: Seq<u8>,
    grams: Seq<u64>,
)
    ensures
        shows(overlay::renumbered(docs, first), path, content, grams) <==> shows(
            docs,
            path,
            content,
            grams,
        ),
{
    let r = overlay::renumbered(docs, first);
    if shows(docs, path, content, grams) {
        let k = choose|k: int|
            0 <= k < docs.len()
                && path_resolve::normal((#[trigger] docs[k]).path) == path
                && docs[k].content == content && docs[k].grams == grams;
        assert(path_resolve::normal(r[k].path) == path);
    }
    if shows(r, path, content, grams) {
        let k = choose|k: int|
            0 <= k < r.len()
                && path_resolve::normal((#[trigger] r[k]).path) == path
                && r[k].content == content && r[k].grams == grams;
        assert(path_resolve::normal(docs[k].path) == path);
    }
}

proof fn lemma_sum_shows(
    a: Seq<OverlayDocView>,
    b: Seq<OverlayDocView>,
    path: Seq<u8>,
    content: Seq<u8>,
    grams: Seq<u64>,
)
    ensures
        shows(a + b, path, content, grams) <==> shows(a, path, content, grams) || shows(
            b,
            path,
            content,
            grams,
        ),
{
    let c = a + b;
    if shows(a, path, content, grams) {
        let k = choose|k: int|
            0 <= k < a.len()
                && path_resolve::normal((#[trigger] a[k]).path) == path
                && a[k].content == content && a[k].grams == grams;
        assert(c[k] == a[k]);
    }
    if shows(b, path, content, grams) {
        let k = choose|k: int|
            0 <= k < b.len()
                && path_resolve::normal((#[trigger] b[k]).path) == path
                && b[k].content == content && b[k].grams == grams;
        assert(c[a.len() + k] == b[k]);
    }
    if shows(c, path, content, grams) {
        let k = choose|k: int|
            0 <= k < c.len()
                && path_resolve::normal((#[trigger] c[k]).path) == path
                && c[k].content == content && c[k].grams == grams;
        if k < a.len() {
            assert(a[k] == c[k]);
        } else {
            assert(b[k - a.len()] == c[k]);
        }
    }
}

/// After a commit the overlay shows a path with a content and its grams exactly if that
/// is what was read for it, or if the path was not edited and the overlay showed it so
/// before.
pub proof fn law_commit_shows_the_edits(
    prev: OverlayView,
    limit: u32,
    list: Seq<Seq<u8>>,
    outcomes: Seq<ChangedFile>,
    deleted: Set<Seq<u8>>,
    docs: Seq<OverlayDocView>,
    path: Seq<u8>,
    content: Seq<u8>,
    grams: Seq<u64>,
)
    requires
        list.len() == outcomes.len(),
        paths::all_normal(list),
        next_documents(
            prev,
            limit,
            indexed(list, outcomes, outcomes.len()),
            visible(list, outcomes),
            deleted.union(lost(list, outcomes)),
        ) == Some(docs),
    ensures
        shows(docs, path, content, grams) <==> reads(
            list,
            outcomes,
            list.len(),
            path,
            content,
            grams,
        ) || (shows(
            prev.documents(),
            path,
            content,
            grams,
        ) && !list.contains(path) && !deleted.contains(path)),
{
    let changed = visible(list, outcomes);
    let removed = deleted.union(lost(list, outcomes));
    let new = indexed(list, outcomes, outcomes.len());
    let kept = overlay::carried(prev.documents(), removed, changed);
    let same_base = limit == prev.base_doc_count;
    let first = if same_base {
        prev.next_doc_id as int
    } else {
        limit + kept.len()
    };
    let front = if same_base {
        kept
    } else {
        overlay::renumbered(kept, limit)
    };
    lemma_carried_shows(prev.documents(), removed, changed, path, content, grams);
    lemma_indexed_shows(list, outcomes, outcomes.len(), path, content, grams);
    lemma_renumbered_shows(kept, limit, path, content, grams);
    lemma_renumbered_shows(new, first as u32, path, content, grams);
    lemma_sum_shows(front, overlay::renumbered(new, first as u32), path, content, grams);
    assert(list.contains(path) <==> changed.contains(path) || lost(list, outcomes).contains(path))
        by {
        if list.contains(path) {
            let i = choose|i: int| 0 <= i < list.len() && list[i] == path;
            if outcomes[i] is Indexed {
                assert(changed.contains(path));
            } else {
                assert(lost(list, outcomes).contains(path));
            }
        }
    }
}

} // verus!
