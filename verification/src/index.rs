//! The index of a repository: what is committed, what is buffered, and what has
//! to reach the disk.

use crate::batch_apply;
use crate::batch_apply::{BatchStep, ChangeBatch};
use crate::commit;
use crate::commit::ChangedFile;
use crate::compact_index;
use crate::compact_index::WrittenIndex;
use crate::compact_plan;
use crate::compact_plan::CompactionPlan;
use crate::config::Config;
use crate::error::IndexError;
use crate::files;
use crate::flush;
use crate::flush::{AnchorInputs, FlushAnchor, FlushBookkeeping, FlushedIndex};
use crate::freshness::{ChangeSet, UpdateLimits, UpdateOutcome};
use crate::manifest;
use crate::manifest::Manifest;
use crate::open;
use crate::overlay;
use crate::path_resolve;
use crate::path_resolve::ParentSight;
use crate::paths::{PathMap, PathSet};
use crate::pending;
use crate::pending::{EditKind, PendingEdits, TakeResult};
use crate::snapshot;
use crate::snapshot::IndexSnapshot;
use crate::stats;
use crate::stats::{IndexStats, SegmentSizes};
use crate::update;
use crate::update::Sighting;
use crate::worktree_anchor::{Observed, WorktreeAnchor};
use crate::worktree_codec;
use std::sync::Arc;
use vstd::prelude::*;

verus! {

/// An index.
pub struct Index {
    pub config: Config,
    /// The root of the repository, resolved.
    pub canonical_root: Vec<u8>,
    /// What searches see.
    pub snapshot: Arc<IndexSnapshot>,
    /// Edits that are not committed.
    pub pending: PendingEdits,
    /// What the commits since the last flush observed.
    pub flush_book: FlushBookkeeping,
    /// The working-tree anchor, once it was read.
    pub worktree_anchor: Option<WorktreeAnchor>,
}

/// The observations of the working-tree anchor that a manifest names. One that
/// cannot be read counts as empty: paths are then applied again.
pub open spec fn anchor_entries(
    manifest: Option<Manifest>,
    bytes: Option<Vec<u8>>,
) -> Map<Seq<u8>, Observed> {
    match (manifest, bytes) {
        (Some(m), Some(b)) => match m.worktree_anchor_file {
            Some(name) => if files::plain(name@) && b@.len() <= worktree_codec::MAX_SIDECAR_SIZE {
                match worktree_codec::decoded(b@) {
                    Ok(entries) => entries,
                    Err(_) => Map::empty(),
                }
            } else {
                Map::empty()
            },
            None => Map::empty(),
        },
        _ => Map::empty(),
    }
}

/// Reads the working-tree anchor that a manifest names.
pub fn load_worktree_anchor(manifest: &Option<Manifest>, bytes: &Option<Vec<u8>>) -> (r:
    WorktreeAnchor)
    ensures
        r.wf(),
        r@ == anchor_entries(*manifest, *bytes),
{
    if let (Some(m), Some(b)) = (manifest, bytes) {
        if let Some(name) = &m.worktree_anchor_file {
            if let Ok(a) = worktree_codec::read_worktree_anchor(name.as_slice(), b.as_slice()) {
                return a;
            }
        }
    }
    WorktreeAnchor::new()
}

impl Index {
    /// The parts are sound, and the documents of the base have 32-bit ids.
    pub open spec fn wf(self) -> bool {
        &&& self.snapshot.wf()
        &&& snapshot::doc_sum(self.snapshot.segs()) <= u32::MAX
        &&& self.flush_book.wf()
        &&& (self.worktree_anchor matches Some(a) ==> a.wf())
    }

    /// An index that shows this snapshot.
    pub fn new(config: Config, canonical_root: Vec<u8>, snapshot: IndexSnapshot) -> (r: Self)
        requires
            snapshot.wf(),
            snapshot::doc_sum(snapshot.segs()) <= u32::MAX,
        ensures
            r.wf(),
            r.config == config,
            r.canonical_root == canonical_root,
            *r.snapshot == snapshot,
            r.pending@ == Seq::<(Seq<u8>, EditKind)>::empty(),
            r.flush_book.read_epoch is None,
            r.flush_book.non_doc_paths@ == Set::<Seq<u8>>::empty(),
            r.worktree_anchor is None,
    {
        Index {
            config,
            canonical_root,
            snapshot: Arc::new(snapshot),
            pending: PendingEdits::new(),
            flush_book: FlushBookkeeping::new(),
            worktree_anchor: None,
        }
    }

    /// The snapshot that searches see.
    pub fn snapshot(&self) -> (r: Arc<IndexSnapshot>)
        ensures
            r == self.snapshot,
    {
        overlay::share(&self.snapshot)
    }

    /// The path of the repository that a path names.
    pub open spec fn resolve(self, path: Seq<u8>, parent: ParentSight) -> Result<
        Seq<u8>,
        Seq<u8>,
    > {
        path_resolve::resolved(path, parent, self.config.repo_root@, self.canonical_root@)
    }

    /// All but the buffered edits is as it was.
    pub open spec fn only_pending_differs(self, before: Self) -> bool {
        self == (Index { pending: self.pending, ..before })
    }

    /// What a notification makes of an index.
    pub open spec fn is_notified(
        before: Index,
        after: Index,
        path: Seq<u8>,
        parent: ParentSight,
        kind: EditKind,
        r: Result<(), IndexError>,
    ) -> bool {
        &&& after.only_pending_differs(before)
        &&& match before.resolve(path, parent) {
            Ok(p) => r is Ok && after.pending@ == before.pending@.push((p, kind)),
            Err(p) => (r matches Err(IndexError::PathOutsideRepo(q)) && q@ == p) && after.pending@
                == before.pending@,
        }
    }

    /// Buffers a change of a file. Searches see it after the next commit.
    pub fn notify_change(&mut self, path: &[u8], parent: &ParentSight) -> (r: Result<
        (),
        IndexError,
    >)
        ensures
            Self::is_notified(*old(self), *final(self), path@, *parent, EditKind::Changed, r),
    {
        proof {
            path_resolve::law_resolved_paths_are_normal(
                path@,
                *parent,
                self.config.repo_root@,
                self.canonical_root@,
            );
        }
        match path_resolve::repo_relative_path(
            path,
            parent,
            self.config.repo_root.as_slice(),
            self.canonical_root.as_slice(),
        ) {
            Ok(p) => {
                self.pending.notify_change(p.as_slice());
                Ok(())
            },
            Err(e) => Err(e),
        }
    }

    /// Buffers a deletion of a file. Searches see it after the next commit.
    pub fn notify_delete(&mut self, path: &[u8], parent: &ParentSight) -> (r: Result<
        (),
        IndexError,
    >)
        ensures
            Self::is_notified(*old(self), *final(self), path@, *parent, EditKind::Deleted, r),
    {
        proof {
            path_resolve::law_resolved_paths_are_normal(
                path@,
                *parent,
                self.config.repo_root@,
                self.canonical_root@,
            );
        }
        match path_resolve::repo_relative_path(
            path,
            parent,
            self.config.repo_root.as_slice(),
            self.canonical_root.as_slice(),
        ) {
            Ok(p) => {
                self.pending.notify_delete(p.as_slice());
                Ok(())
            },
            Err(e) => Err(e),
        }
    }

    /// Buffers the edits of a batch of observed changes.
    pub fn apply_change_batch(&mut self, batch: &ChangeBatch, parents: &Vec<ParentSight>) -> (r:
        Result<BatchStep, IndexError>)
        requires
            parents@.len() == batch.records@.len(),
        ensures
            final(self).only_pending_differs(*old(self)),
            batch_apply::is_buffered(
                r,
                *batch,
                parents@,
                batch_apply::Roots {
                    repo_root: old(self).config.repo_root@,
                    canonical_root: old(self).canonical_root@,
                },
                old(self).pending@,
                final(self).pending@,
            ),
    {
        batch_apply::apply_change_batch(
            &mut self.pending,
            batch,
            parents,
            self.config.repo_root.as_slice(),
            self.canonical_root.as_slice(),
        )
    }

    /// Drains the buffer for a commit.
    pub fn begin_commit(&mut self) -> (take: TakeResult)
        ensures
            final(self).only_pending_differs(*old(self)),
            final(self).pending@ == Seq::<(Seq<u8>, EditKind)>::empty(),
            take.newly_changed.wf(),
            take.newly_deleted.wf(),
            pending::is_drain(old(self).pending@, take),
            take.newly_changed@.disjoint(take.newly_deleted@),
    {
        let take = self.pending.take_for_commit();
        proof {
            pending::law_changed_and_deleted_are_disjoint(old(self).pending@);
        }
        take
    }

    /// What a commit of drained edits makes of an index.
    pub open spec fn is_committed(
        before: Index,
        after: Index,
        take: TakeResult,
        outcomes: Seq<ChangedFile>,
        read_epoch: u128,
        r: Result<(), IndexError>,
    ) -> bool {
        match r {
            Ok(_) => {
                &&& commit::is_commit(
                    *before.snapshot,
                    take,
                    outcomes,
                    Ok(*after.snapshot),
                )
                &&& after.pending@ == before.pending@
                &&& after.flush_book.read_epoch == flush::kept_epoch(
                    before.flush_book.read_epoch,
                    read_epoch,
                )
                &&& after.flush_book.non_doc_paths@ == before.flush_book.non_doc_paths@.union(
                    take.newly_deleted@.union(
                        commit::lost(take.newly_changed.seq(), outcomes),
                    ),
                )
            },
            Err(e) => {
                &&& commit::is_commit(*before.snapshot, take, outcomes, Err(e))
                &&& after.snapshot == before.snapshot
                &&& after.flush_book == before.flush_book
                &&& after.pending@ == (if take.drained@.len() > 0 {
                    pending::last_edits(
                        pending::edit_views(take.drained@) + before.pending@,
                    )
                } else {
                    before.pending@
                })
            },
        }
    }

    /// Commits drained edits and shows the result. `outcomes` says, in the order
    /// of the changed paths, what came of each file; `read_epoch` is the time
    /// before the first of them was read. A commit that fails puts the edits
    /// back.
    pub fn commit_batch(&mut self, take: TakeResult, outcomes: Vec<ChangedFile>, read_epoch: u128)
        -> (r: Result<(), IndexError>)
        requires
            old(self).wf(),
            take.newly_changed.wf(),
            take.newly_deleted.wf(),
            take.newly_changed@.disjoint(take.newly_deleted@),
            outcomes@.len() == take.newly_changed.paths@.len(),
            old(self).snapshot.path_index.next_id + outcomes@.len() <= u32::MAX,
        ensures
            final(self).wf(),
            final(self).config == old(self).config,
            final(self).canonical_root == old(self).canonical_root,
            final(self).worktree_anchor == old(self).worktree_anchor,
            Self::is_committed(*old(self), *final(self), take, outcomes@, read_epoch, r),
    {
        let non_docs = commit::non_doc_paths(&take, &outcomes);
        let snap = overlay::share(&self.snapshot);
        match commit::commit_batch(&mut self.pending, &snap, take, outcomes) {
            Ok(s) => {
                self.snapshot = Arc::new(s);
                self.flush_book.note_commit_for_flush(read_epoch, &non_docs);
                Ok(())
            },
            Err(e) => Err(e),
        }
    }

    /// The working-tree anchor, empty where none was read.
    pub open spec fn anchor(self) -> Map<Seq<u8>, Observed> {
        match self.worktree_anchor {
            Some(a) => a@,
            None => Map::empty(),
        }
    }

    /// Drops the paths that an earlier flush made durable and that did not change
    /// since; says how many.
    pub fn retain_unflushed(&self, list: &mut PathSet, current: &Vec<Option<Observed>>) -> (
    dropped: usize)
        requires
            self.wf(),
            old(list).wf(),
            current@.len() == old(list).paths@.len(),
        ensures
            final(list).wf(),
            final(list).seq() == flush::unflushed(self.anchor(), old(list).seq(), current@),
            dropped == old(list).seq().len() - final(list).seq().len(),
    {
        match &self.worktree_anchor {
            Some(a) => flush::retain_unflushed(list, a, current),
            None => {
                let empty = WorktreeAnchor::new();
                flush::retain_unflushed(list, &empty, current)
            },
        }
    }

    /// Starts an update from git: says how it ends where no change gets applied.
    /// Paths that an earlier flush made durable are dropped from the changes.
    pub fn begin_update(
        &self,
        changes: &mut ChangeSet,
        limits: &UpdateLimits,
        current: &Vec<Option<Observed>>,
    ) -> (r: Option<UpdateOutcome>)
        requires
            self.wf(),
            old(changes).paths.wf(),
            current@.len() == old(changes).paths.paths@.len(),
        ensures
            final(changes).paths.wf(),
            update::is_begun(
                *old(changes),
                *final(changes),
                *limits,
                self.anchor(),
                current@,
                r,
            ),
    {
        match &self.worktree_anchor {
            Some(a) => update::begin_update(changes, limits, a, current),
            None => {
                let empty = WorktreeAnchor::new();
                update::begin_update(changes, limits, &empty, current)
            },
        }
    }

    /// Buffers the edits of reported paths; says how many were applied and how
    /// many skipped.
    pub fn apply_changed_paths(&mut self, list: &PathSet, sights: &Vec<Sighting>) -> (r: (
        usize,
        usize,
    ))
        requires
            sights@.len() == list.paths@.len(),
        ensures
            final(self).only_pending_differs(*old(self)),
            update::is_applied(
                old(self).pending@,
                final(self).pending@,
                list.seq(),
                sights@,
                old(self).config.repo_root@,
                old(self).canonical_root@,
                r,
            ),
    {
        update::apply_changed_paths(
            &mut self.pending,
            list,
            sights,
            self.config.repo_root.as_slice(),
            self.canonical_root.as_slice(),
        )
    }

    /// The figures of the index.
    pub fn stats(
        &self,
        manifest: &Option<Manifest>,
        manifest_size: Option<u64>,
        sizes: &Vec<SegmentSizes>,
    ) -> (r: IndexStats)
        requires
            self.wf(),
            snapshot::doc_sum(self.snapshot.segs()) <= usize::MAX,
            stats::gram_sum(self.snapshot.segs()) <= usize::MAX,
            manifest matches Some(m) ==> m.segments@.len() == sizes@.len(),
            stats::size_total(*manifest, sizes@, manifest_size) <= u64::MAX,
        ensures
            stats::describes(
                r,
                *self.snapshot,
                *manifest,
                manifest_size,
                sizes@,
                self.pending@.len(),
            ),
    {
        stats::compute_stats(
            &self.snapshot,
            manifest,
            manifest_size,
            sizes,
            self.pending.uncommitted_count(),
        )
    }

    /// Checks the index in full.
    pub fn verify(&self, manifest: &Manifest, deletes: &Option<Vec<u8>>) -> (r: Result<
        (),
        IndexError,
    >)
        requires
            self.wf(),
        ensures
            open::is_verification(r, *self.snapshot, *manifest, *deletes),
    {
        open::verify(&self.snapshot, manifest, deletes)
    }

    /// What a flush makes of an index.
    pub open spec fn is_flushed(
        before: Index,
        after: Index,
        previous: Manifest,
        observed: Map<Seq<u8>, Observed>,
        now: u128,
        created_at: u64,
        r: Result<Option<FlushedIndex>, IndexError>,
    ) -> bool {
        let something = before.snapshot.overlay.docs@.len() > 0
            || before.flush_book.non_doc_paths@ != Set::<Seq<u8>>::empty();
        if !something {
            &&& r matches Ok(None)
            &&& after.flush_book == before.flush_book
            &&& after.worktree_anchor == before.worktree_anchor
        } else {
            &&& after.flush_book.read_epoch is None
            &&& after.flush_book.non_doc_paths@ == Set::<Seq<u8>>::empty()
            &&& after.worktree_anchor is None
            &&& flush::is_flush_opt(
                r,
                *before.snapshot,
                previous,
                FlushAnchor::KeepHead,
                flush::AnchorView {
                    read_epoch: before.flush_book.read_epoch,
                    non_doc_paths: before.flush_book.non_doc_paths@,
                    previous: before.anchor(),
                    observed: observed,
                    now,
                },
                created_at,
            )
        }
    }

    /// Makes the overlay durable, unless there is nothing to make durable. The
    /// recorded commit stays: the changes are not committed. The bookkeeping is
    /// used up, whether the flush succeeds or not.
    pub fn flush_overlay(
        &mut self,
        previous: &Manifest,
        observed: PathMap<Observed>,
        now: u128,
        created_at: u64,
    ) -> (r: Result<Option<FlushedIndex>, IndexError>)
        requires
            old(self).wf(),
            observed.wf(),
            manifest::doc_total(previous.segments@) <= u32::MAX,
        ensures
            final(self).wf(),
            final(self).config == old(self).config,
            final(self).canonical_root == old(self).canonical_root,
            final(self).snapshot == old(self).snapshot,
            final(self).pending == old(self).pending,
            Self::is_flushed(
                *old(self),
                *final(self),
                *previous,
                observed@,
                now,
                created_at,
                r,
            ),
    {
        if !flush::has_something_to_flush(&self.snapshot, &self.flush_book) {
            return Ok(None);
        }
        let book = self.flush_book.take_anchor_inputs();
        let mut anchor: Option<WorktreeAnchor> = None;
        std::mem::swap(&mut anchor, &mut self.worktree_anchor);
        let known = match anchor {
            Some(a) => a,
            None => WorktreeAnchor::new(),
        };
        let inputs = AnchorInputs { book, previous: known, observed, now };
        match flush::flush_overlay_durable(
            &self.snapshot,
            previous,
            FlushAnchor::KeepHead,
            &inputs,
            created_at,
        ) {
            Ok(f) => Ok(Some(f)),
            Err(e) => Err(e),
        }
    }

    /// What compacting by a plan gives, where there may be none.
    pub open spec fn is_rewritten(
        plan: Option<CompactionPlan>,
        snap: IndexSnapshot,
        previous: Manifest,
        head: Option<Vec<u8>>,
        created_at: u64,
        r: Result<Option<WrittenIndex>, IndexError>,
    ) -> bool {
        match plan {
            None => r matches Ok(None),
            Some(p) => compact_index::is_compaction_opt(r, snap, previous, p, head, created_at),
        }
    }

    /// Rewrites segments if that is needed; nothing where it is not.
    pub fn maybe_compact(&self, previous: &Manifest, head: Option<Vec<u8>>, created_at: u64) -> (r:
        Result<Option<WrittenIndex>, IndexError>)
        requires
            self.wf(),
        ensures
            Self::is_rewritten(
                compact_plan::needed(*self.snapshot, self.config),
                *self.snapshot,
                *previous,
                head,
                created_at,
                r,
            ),
    {
        match compact_plan::plan(&self.snapshot, &self.config) {
            None => Ok(None),
            Some(p) => match compact_index::compact_index(
                &self.snapshot,
                previous,
                &p,
                head,
                created_at,
            ) {
                Ok(w) => Ok(Some(w)),
                Err(e) => Err(e),
            },
        }
    }

    /// Rewrites segments on request, if there is anything to fold in; nothing
    /// where there is not.
    pub fn compact(&self, previous: &Manifest, head: Option<Vec<u8>>, created_at: u64) -> (r:
        Result<Option<WrittenIndex>, IndexError>)
        requires
            self.wf(),
        ensures
            Self::is_rewritten(
                compact_plan::forced(*self.snapshot, self.config),
                *self.snapshot,
                *previous,
                head,
                created_at,
                r,
            ),
    {
        match compact_plan::forced_plan(&self.snapshot, &self.config) {
            None => Ok(None),
            Some(p) => match compact_index::compact_index(
                &self.snapshot,
                previous,
                &p,
                head,
                created_at,
            ) {
                Ok(w) => Ok(Some(w)),
                Err(e) => Err(e),
            },
        }
    }

    /// Forgets the anchor and the bookkeeping: the index on disk was replaced.
    pub fn reset_flush_state(&mut self)
        ensures
            final(self).flush_book.wf(),
            final(self).flush_book.read_epoch is None,
            final(self).flush_book.non_doc_paths@ == Set::<Seq<u8>>::empty(),
            final(self).worktree_anchor is None,
            final(self).config == old(self).config,
            final(self).canonical_root == old(self).canonical_root,
            final(self).snapshot == old(self).snapshot,
            final(self).pending == old(self).pending,
    {
        self.worktree_anchor = None;
        self.flush_book = FlushBookkeeping::new();
    }

    /// Shows a snapshot of an index that was written anew. Edits that came in the
    /// meantime stay buffered.
    pub fn install_rebuilt_index(&mut self, rebuilt: IndexSnapshot)
        requires
            old(self).wf(),
            rebuilt.wf(),
            snapshot::doc_sum(rebuilt.segs()) <= u32::MAX,
        ensures
            final(self).wf(),
            *final(self).snapshot == rebuilt,
            final(self).pending@ == old(self).pending@,
            final(self).flush_book.read_epoch is None,
            final(self).flush_book.non_doc_paths@ == Set::<Seq<u8>>::empty(),
            final(self).worktree_anchor is None,
            final(self).config == old(self).config,
            final(self).canonical_root == old(self).canonical_root,
    {
        let take = self.pending.take_for_commit();
        self.snapshot = Arc::new(rebuilt);
        renotify(&mut self.pending, &take.drained);
        self.reset_flush_state();
    }
}

/// Buffers drained edits again, in their order.
fn renotify(pending: &mut PendingEdits, drained: &Vec<crate::pending::FileEdit>)
    ensures
        final(pending)@ == old(pending)@ + pending::edit_views(drained@),
{
    let ghost start = pending@;
    let ghost all = pending::edit_views(drained@);
    let mut i: usize = 0;
    assert(pending@ =~= start + all.take(0));
    while i < drained.len()
        invariant
            all == pending::edit_views(drained@),
            all.len() == drained@.len(),
            i <= all.len(),
            pending@ == start + all.take(i as int),
        decreases all.len() - i,
    {
        let e = &drained[i];
        assert(all[i as int] == (path_resolve::normal(e.path@), e.kind));
        match e.kind {
            EditKind::Changed => {
                pending.notify_change(e.path.as_slice());
            },
            EditKind::Deleted => {
                pending.notify_delete(e.path.as_slice());
            },
        }
        proof {
            assert(all.take(i + 1) =~= all.take(i as int).push(all[i as int]));
            assert(pending@ =~= start + all.take(i + 1));
        }
        i = i + 1;
    }
    assert(all.take(i as int) =~= all);
}

/// A working-tree anchor is read exactly if the manifest names it by a plain name and it is
/// sound and within 64 mebibytes; then it is what was written. Any other counts as empty, so
/// that every path is looked at again.
pub proof fn law_anchors_are_read_or_empty(m: Manifest, name: Vec<u8>, b: Vec<u8>, p: Seq<u8>)
    ensures
        anchor_entries(None, Some(b)) == Map::<Seq<u8>, Observed>::empty(),
        anchor_entries(Some(m), None) == Map::<Seq<u8>, Observed>::empty(),
        m.worktree_anchor_file is None ==> anchor_entries(Some(m), Some(b)) == Map::<
            Seq<u8>,
            Observed,
        >::empty(),
        m.worktree_anchor_file == Some(name) && files::plain(name@) && b@.len() <= 67_108_864
            && worktree_codec::decoded(b@) is Ok ==> anchor_entries(Some(m), Some(b))
            == worktree_codec::decoded(b@)->Ok_0,
        worktree_codec::decoded(b@) is Err ==> !anchor_entries(Some(m), Some(b)).contains_key(p),
{
}

} // verus!
