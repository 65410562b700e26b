//! Updates of the index from what git reports, within limits.
//!
//! The repository is looked at outside; here it is decided what each finding
//! means. A search after an update that was not made misses matches at most: it
//! never reports a wrong one.

use crate::error::IndexError;
use crate::flush;
use crate::freshness::{ChangeSet, UpdateLimits, UpdateOutcome};
use crate::git;
use crate::le;
use crate::manifest::Manifest;
use crate::path_resolve;
use crate::path_resolve::ParentSight;
use crate::paths::PathSet;
use crate::pending::{EditKind, PendingEdits};
use crate::worktree_anchor::{Observed, WorktreeAnchor};
use vstd::prelude::*;

verus! {

/// What ends an update before any change is applied: an exhausted budget, no
/// changes, or more files than the limit.
pub open spec fn early_outcome(
    changes: ChangeSet,
    remaining: nat,
    limits: UpdateLimits,
) -> Option<UpdateOutcome> {
    let detect_elapsed_ms = changes.detect_elapsed_ms;
    match changes.budget_exceeded {
        Some(behind) => Some(
            UpdateOutcome::BudgetExceeded { files_behind_estimate: behind, detect_elapsed_ms },
        ),
        None => if remaining == 0 {
            Some(UpdateOutcome::NoChanges { detect_elapsed_ms })
        } else {
            match limits.max_files {
                Some(max) => if remaining > max {
                    Some(
                        UpdateOutcome::TooManyFiles {
                            files_behind: remaining as usize,
                            detect_elapsed_ms,
                        },
                    )
                } else {
                    None
                },
                None => None,
            }
        },
    }
}

/// The paths that are left to apply after those that an earlier flush made
/// durable.
pub open spec fn left_to_apply(
    changes: ChangeSet,
    anchor: Map<Seq<u8>, Observed>,
    current: Seq<Option<Observed>>,
) -> Seq<Seq<u8>> {
    if changes.budget_exceeded is Some {
        changes.paths.seq()
    } else {
        flush::unflushed(anchor, changes.paths.seq(), current)
    }
}

/// What the start of an update makes of the changes.
pub open spec fn is_begun(
    before: ChangeSet,
    after: ChangeSet,
    limits: UpdateLimits,
    anchor: Map<Seq<u8>, Observed>,
    current: Seq<Option<Observed>>,
    r: Option<UpdateOutcome>,
) -> bool {
    &&& after.paths.seq() == left_to_apply(before, anchor, current)
    &&& after.budget_exceeded == before.budget_exceeded
    &&& after.detect_elapsed_ms == before.detect_elapsed_ms
    &&& r == early_outcome(before, after.paths.seq().len(), limits)
}

/// Decides whether the detected changes get applied. Paths that an earlier flush
/// made durable and that did not change since are dropped first, so that only
/// work that remains counts. `current` is what is on disk at each path.
pub fn begin_update(
    changes: &mut ChangeSet,
    limits: &UpdateLimits,
    anchor: &WorktreeAnchor,
    current: &Vec<Option<Observed>>,
) -> (r: Option<UpdateOutcome>)
    requires
        old(changes).paths.wf(),
        anchor.wf(),
        current@.len() == old(changes).paths.paths@.len(),
    ensures
        final(changes).paths.wf(),
        is_begun(*old(changes), *final(changes), *limits, anchor@, current@, r),
{
    let detect_elapsed_ms: u64 = changes.detect_elapsed_ms;
    if let Some(behind) = changes.budget_exceeded {
        return Some(
            UpdateOutcome::BudgetExceeded { files_behind_estimate: behind, detect_elapsed_ms },
        );
    }
    flush::retain_unflushed(&mut changes.paths, anchor, current);
    let remaining: usize = changes.paths.len();
    if remaining == 0 {
        return Some(UpdateOutcome::NoChanges { detect_elapsed_ms });
    }
    if let Some(max) = limits.max_files {
        if remaining > max {
            return Some(UpdateOutcome::TooManyFiles { files_behind: remaining, detect_elapsed_ms });
        }
    }
    None
}

/// What stands at a reported path.
#[derive(Debug)]
pub enum Entry {
    /// Nothing: it was deleted.
    Gone,
    /// Something that does not resolve, such as a dangling symlink. It is there,
    /// so it counts as changed.
    Unresolvable,
    /// Something that resolves to this path.
    Resolved(Vec<u8>),
}

/// What was seen at a reported path.
#[derive(Debug)]
pub struct Sighting {
    pub entry: Entry,
    /// What is known of the directories on the way; absent where they could not
    /// be looked at.
    pub parent: Option<ParentSight>,
}

/// The edit that a reported path leads to; none where it is skipped.
pub open spec fn edit_of(
    path: Seq<u8>,
    s: Sighting,
    repo_root: Seq<u8>,
    canonical_root: Seq<u8>,
) -> Option<(Seq<u8>, EditKind)> {
    let abs = path_resolve::path_in(canonical_root, path);
    match s.parent {
        None => None,
        Some(parent) => {
            let (target, kind) = match s.entry {
                Entry::Gone => (abs, EditKind::Deleted),
                Entry::Unresolvable => (abs, EditKind::Changed),
                Entry::Resolved(q) => (q@, EditKind::Changed),
            };
            if s.entry is Resolved && path_resolve::stripped(target, canonical_root) is None {
                None
            } else {
                match path_resolve::resolved(target, parent, repo_root, canonical_root) {
                    Ok(p) => Some((p, kind)),
                    Err(_) => None,
                }
            }
        },
    }
}

/// The edits that reported paths lead to, in their order.
pub open spec fn edits_of(
    list: Seq<Seq<u8>>,
    sights: Seq<Sighting>,
    repo_root: Seq<u8>,
    canonical_root: Seq<u8>,
) -> Seq<(Seq<u8>, EditKind)>
    decreases list.len(),
{
    if list.len() == 0 {
        Seq::empty()
    } else {
        let rest = edits_of(list.drop_last(), sights.drop_last(), repo_root, canonical_root);
        match edit_of(list.last(), sights.last(), repo_root, canonical_root) {
            Some(e) => rest.push(e),
            None => rest,
        }
    }
}

/// Buffers the edit of one reported path; says whether there is one.
fn apply_changed_path(
    pending: &mut PendingEdits,
    path: &[u8],
    sight: &Sighting,
    repo_root: &[u8],
    canonical_root: &[u8],
) -> (applied: bool)
    ensures
        match edit_of(path@, *sight, repo_root@, canonical_root@) {
            Some(e) => applied && final(pending)@ == old(pending)@.push(e),
            None => !applied && final(pending)@ == old(pending)@,
        },
{
    match &sight.parent {
        None => false,
        Some(parent) => {
            let abs = path_resolve::join_path(canonical_root, path);
            proof {
                path_resolve::law_resolved_paths_are_normal(
                    abs@,
                    *parent,
                    repo_root@,
                    canonical_root@,
                );
            }
            match &sight.entry {
                Entry::Gone => match path_resolve::repo_relative_path(
                    abs.as_slice(),
                    parent,
                    repo_root,
                    canonical_root,
                ) {
                    Ok(p) => {
                        pending.notify_delete(p.as_slice());
                        true
                    },
                    Err(_) => false,
                },
                Entry::Unresolvable => match path_resolve::repo_relative_path(
                    abs.as_slice(),
                    parent,
                    repo_root,
                    canonical_root,
                ) {
                    Ok(p) => {
                        pending.notify_change(p.as_slice());
                        true
                    },
                    Err(_) => false,
                },
                Entry::Resolved(q) => {
                    if path_resolve::strip_prefix(q.as_slice(), canonical_root).is_none() {
                        return false;
                    }
                    proof {
                        path_resolve::law_resolved_paths_are_normal(
                            q@,
                            *parent,
                            repo_root@,
                            canonical_root@,
                        );
                    }
                    match path_resolve::repo_relative_path(
                        q.as_slice(),
                        parent,
                        repo_root,
                        canonical_root,
                    ) {
                        Ok(p) => {
                            pending.notify_change(p.as_slice());
                            true
                        },
                        Err(_) => false,
                    }
                },
            }
        },
    }
}

/// What applying reported paths makes of the buffer, and what it says.
pub open spec fn is_applied(
    before: Seq<(Seq<u8>, EditKind)>,
    after: Seq<(Seq<u8>, EditKind)>,
    list: Seq<Seq<u8>>,
    sights: Seq<Sighting>,
    repo_root: Seq<u8>,
    canonical_root: Seq<u8>,
    r: (usize, usize),
) -> bool {
    let edits = edits_of(list, sights, repo_root, canonical_root);
    &&& after == before + edits
    &&& r.0 == edits.len()
    &&& r.1 == list.len() - edits.len()
}

/// Buffers the edits of reported paths; says how many were applied and how many
/// skipped. One bad path never ends the update.
pub fn apply_changed_paths(
    pending: &mut PendingEdits,
    list: &PathSet,
    sights: &Vec<Sighting>,
    repo_root: &[u8],
    canonical_root: &[u8],
) -> (r: (usize, usize))
    requires
        sights@.len() == list.paths@.len(),
    ensures
        is_applied(
            old(pending)@,
            final(pending)@,
            list.seq(),
            sights@,
            repo_root@,
            canonical_root@,
            r,
        ),
{
    let ghost all = list.seq();
    let ghost sv = sights@;
    let ghost start = pending@;
    let mut applied: usize = 0;
    let mut skipped: usize = 0;
    let mut i: usize = 0;
    assert(pending@ =~= start + edits_of(all.take(0), sv.take(0), repo_root@, canonical_root@));
    while i < list.paths.len()
        invariant
            all == list.seq(),
            all.len() == list.paths@.len(),
            sv == sights@,
            sv.len() == all.len(),
            i <= all.len(),
            pending@ == start + edits_of(
                all.take(i as int),
                sv.take(i as int),
                repo_root@,
                canonical_root@,
            ),
            applied == edits_of(all.take(i as int), sv.take(i as int), repo_root@, canonical_root@).len(),
            applied + skipped == i,
        decreases all.len() - i,
    {
        let ghost before = edits_of(
            all.take(i as int),
            sv.take(i as int),
            repo_root@,
            canonical_root@,
        );
        proof {
            assert(all.take(i + 1).drop_last() =~= all.take(i as int));
            assert(sv.take(i + 1).drop_last() =~= sv.take(i as int));
            assert(all[i as int] == list.paths@[i as int]@);
        }
        if apply_changed_path(
            pending,
            list.paths[i].as_slice(),
            &sights[i],
            repo_root,
            canonical_root,
        ) {
            applied = applied + 1;
            proof {
                let e = edit_of(all[i as int], sv[i as int], repo_root@, canonical_root@)->0;
                assert(start + before.push(e) =~= (start + before).push(e));
            }
        } else {
            skipped = skipped + 1;
        }
        i = i + 1;
    }
    proof {
        assert(all.take(i as int) =~= all);
        assert(sv.take(i as int) =~= sv);
    }
    (applied, skipped)
}

/// What follows the commit of an update.
#[derive(Debug)]
pub enum UpdateStep {
    /// The update ends with this.
    Done(UpdateOutcome),
    /// The index has to be built anew; the update then ends with this.
    Rebuild(UpdateOutcome),
}

/// What follows the commit of an update.
pub open spec fn is_next_step(
    commit: Result<(), IndexError>,
    limits: UpdateLimits,
    changes: ChangeSet,
    applied: usize,
    skipped: usize,
    r: Result<UpdateStep, IndexError>,
) -> bool {
    let detect_elapsed_ms = changes.detect_elapsed_ms;
    let updated = UpdateOutcome::Updated { files: applied, skipped, detect_elapsed_ms };
    let bounded = limits.max_files is Some || limits.budget_ms is Some;
    match commit {
        Ok(_) => r == Ok::<UpdateStep, IndexError>(UpdateStep::Done(updated)),
        Err(IndexError::OverlayFull { .. }) => if bounded {
            r == Ok::<UpdateStep, IndexError>(
                UpdateStep::Done(
                    UpdateOutcome::OverlayFull {
                        files_behind: changes.paths.paths@.len() as usize,
                        detect_elapsed_ms,
                    },
                ),
            )
        } else {
            r == Ok::<UpdateStep, IndexError>(UpdateStep::Rebuild(updated))
        },
        Err(e) => r == Err::<UpdateStep, IndexError>(e),
    }
}

/// Decides what follows the commit. Where the overlay is full, a bounded update
/// leaves the index as it is and says so, because a full build would not stay
/// within the bounds; an unbounded one has the index built anew.
pub fn after_update_commit(
    commit: Result<(), IndexError>,
    limits: &UpdateLimits,
    changes: &ChangeSet,
    applied: usize,
    skipped: usize,
) -> (r: Result<UpdateStep, IndexError>)
    ensures
        is_next_step(commit, *limits, *changes, applied, skipped, r),
{
    let detect_elapsed_ms: u64 = changes.detect_elapsed_ms;
    let updated = UpdateOutcome::Updated { files: applied, skipped, detect_elapsed_ms };
    let bounded: bool = limits.max_files.is_some() || limits.budget_ms.is_some();
    match commit {
        Ok(_) => Ok(UpdateStep::Done(updated)),
        Err(e) => match e {
            IndexError::OverlayFull { overlay_docs: _, base_docs: _ } => if bounded {
                let files_behind: usize = changes.paths.paths.len();
                Ok(UpdateStep::Done(UpdateOutcome::OverlayFull { files_behind, detect_elapsed_ms }))
            } else {
                Ok(UpdateStep::Rebuild(updated))
            },
            other => Err(other),
        },
    }
}

/// The outcome that a search reports of an update.
pub open spec fn is_reported(update: Result<UpdateOutcome, IndexError>, r: UpdateOutcome) -> bool {
    match update {
        Ok(o) => r == o,
        Err(_) => r == (UpdateOutcome::NoChanges { detect_elapsed_ms: 0 }),
    }
}

/// The outcome that a search after an update reports: that of the update, or, if
/// it failed, that nothing changed. A failed update never fails the search.
pub fn fresh_outcome(update: Result<UpdateOutcome, IndexError>) -> (r: UpdateOutcome)
    ensures
        is_reported(update, r),
{
    match update {
        Ok(o) => o,
        Err(_) => UpdateOutcome::NoChanges { detect_elapsed_ms: 0 },
    }
}

/// Whether a head is other than the recorded one.
pub open spec fn is_staleness(manifest: Manifest, head: Option<Vec<u8>>, r: bool) -> bool {
    r == (flush::name_view(manifest.base_commit) != flush::name_view(head))
}

/// Whether the head moved since the index was built.
pub fn is_stale(manifest: &Manifest, head: &Option<Vec<u8>>) -> (r: bool)
    ensures
        is_staleness(*manifest, *head, r),
{
    match (&manifest.base_commit, head) {
        (Some(a), Some(b)) => !le::bytes_eq(a.as_slice(), b.as_slice()),
        (None, None) => false,
        _ => true,
    }
}

/// Every edit that an update buffers stays inside the repository.
pub proof fn law_applied_paths_stay_inside(
    list: Seq<Seq<u8>>,
    sights: Seq<Sighting>,
    repo_root: Seq<u8>,
    canonical_root: Seq<u8>,
)
    requires
        list.len() == sights.len(),
        path_resolve::components(canonical_root).len() > 0,
        forall|i: int|
            0 <= i < sights.len() ==> ((#[trigger] sights[i]).parent matches Some(p)
                ==> path_resolve::is_canonical(p)),
    ensures
        forall|k: int|
            0 <= k < edits_of(list, sights, repo_root, canonical_root).len() ==> git::stays_inside(
                (#[trigger] edits_of(list, sights, repo_root, canonical_root)[k]).0,
            ),
    decreases list.len(),
{
    if list.len() > 0 {
        let a = list.drop_last();
        let b = sights.drop_last();
        assert forall|i: int| 0 <= i < b.len() implies ((#[trigger] b[i]).parent matches Some(p)
            ==> path_resolve::is_canonical(p)) by {
            assert(b[i] == sights[i]);
        }
        law_applied_paths_stay_inside(a, b, repo_root, canonical_root);
        let s = sights.last();
        assert(s == sights[sights.len() - 1]);
        if edit_of(list.last(), s, repo_root, canonical_root) is Some {
            let target = match s.entry {
                Entry::Resolved(q) => q@,
                _ => path_resolve::path_in(canonical_root, list.last()),
            };
            path_resolve::law_resolved_paths_stay_inside(
                target,
                s.parent->0,
                repo_root,
                canonical_root,
            );
        }
        let rest = edits_of(a, b, repo_root, canonical_root);
        let all = edits_of(list, sights, repo_root, canonical_root);
        assert forall|k: int| 0 <= k < all.len() implies git::stays_inside((#[trigger] all[k]).0) by {
            if k < rest.len() {
                assert(all[k] == rest[k]);
            } else {
                assert(Some(all[k]) == edit_of(list.last(), s, repo_root, canonical_root));
            }
        }
    }
}

/// A file that is there is never taken for deleted, whether it resolves or not.
pub proof fn law_present_files_are_not_deleted(
    path: Seq<u8>,
    s: Sighting,
    repo_root: Seq<u8>,
    canonical_root: Seq<u8>,
)
    requires
        !(s.entry is Gone),
    ensures
        edit_of(path, s, repo_root, canonical_root) matches Some(e) ==> e.1 == EditKind::Changed,
{
}

} // verus!
