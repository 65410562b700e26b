//! What is decided about files, changes and updates, case by case.

use crate::change_laws;
use crate::commit;
use crate::commit::{ChangedFile, ChangedFileOutcome, ReadOutcome};
use crate::commit_laws;
use crate::compact_index::WrittenIndex;
use crate::compact_plan;
use crate::config::Config;
use crate::delta;
use crate::delta::{ChangesView, CommittedChanges, DeltaInputs, DeltaOutcome};
use crate::encoding;
use crate::error::IndexError;
use crate::flush;
use crate::flush::FlushedIndex;
use crate::freshness;
use crate::freshness::{ChangeSet, FreshnessError, GitFault, GitOutput, UpdateLimits, UpdateOutcome};
use crate::full_build;
use crate::full_build::Scan;
use crate::git;
use crate::hash;
use crate::index::Index;
use crate::manifest::Manifest;
use crate::open;
use crate::path_laws;
use crate::path_resolve;
use crate::path_resolve::ParentSight;
use crate::pending;
use crate::pending::{EditKind, TakeResult};
use crate::plan_laws;
use crate::snapshot::IndexSnapshot;
use crate::update;
use crate::update::{Sighting, UpdateStep};
use crate::worktree_anchor::Observed;
use vstd::prelude::*;

verus! {

/// Text that is indexed has no zero among its first 8192 bytes.
pub open spec fn is_text(b: Seq<u8>) -> bool {
    forall|i: int| 0 <= i < b.len() && i < 8192 ==> #[trigger] b[i] != 0
}

proof fn lemma_is_text(b: Seq<u8>)
    ensures
        is_text(b) <==> !encoding::binary(b),
{
    if encoding::binary(b) {
        let i = choose|i: int| 0 <= i < b.len() && i < encoding::BINARY_PROBE && b[i] == 0;
        assert(b[i] == 0);
    }
    if !is_text(b) {
        let i = choose|i: int| 0 <= i < b.len() && i < 8192 && #[trigger] b[i] == 0;
        assert(b[i] == 0);
    }
}

/// A changed file is indexed exactly if it was read, is no larger than allowed, and is text;
/// it counts as deleted exactly if it is gone. What is indexed is all of its text.
pub proof fn law_changed_text_is_indexed(read: ReadOutcome, max: u64, r: ChangedFileOutcome)
    requires
        commit::is_verdict(read, max, r),
    ensures
        r is Indexed <==> (read matches ReadOutcome::Read(raw) && raw@.len() <= max && is_text(
            encoding::normalized(raw@),
        )),
        r matches ChangedFileOutcome::Indexed(c) ==> (read matches ReadOutcome::Read(raw) && c@
            == encoding::normalized(raw@)),
        r is Vanished <==> read is Missing,
{
    if let ReadOutcome::Read(raw) = read {
        lemma_is_text(encoding::normalized(raw@));
    }
}

/// A file of a build becomes text exactly if its path fits in a segment, it was read, and
/// it is text; then with all of its text and the hash of it. Otherwise the reason says
/// which of these failed first.
pub proof fn law_built_text_is_indexed(rel: Seq<u8>, raw: Option<&[u8]>, r: Scan)
    requires
        full_build::is_scan(rel, raw, r),
    ensures
        r is OversizedPath <==> rel.len() > 65_535,
        r is Unreadable <==> rel.len() <= 65_535 && raw is None,
        r is Text <==> rel.len() <= 65_535 && (raw matches Some(b) && is_text(
            encoding::normalized(b@),
        )),
        r matches Scan::Text { content, content_hash } ==> (raw matches Some(b) && content@
            == encoding::normalized(b@) && content_hash == hash::xxh64_of(content@, 0)),
{
    if let Some(b) = raw {
        lemma_is_text(encoding::normalized(b@));
    }
}

/// The output of a git command is complete only if the command ended by itself and
/// succeeded; one that was killed is partial, whatever it says.
pub proof fn law_killed_commands_are_partial(
    killed: bool,
    success: bool,
    stdout: Vec<u8>,
    r: GitOutput,
)
    requires
        freshness::is_sorting(killed, success, stdout, r),
    ensures
        r is Complete <==> !killed && success,
        r is Partial <==> killed,
        r matches GitOutput::Complete(b) ==> b == stdout,
        r matches GitOutput::Partial(b) ==> b == stdout,
{
}

/// The changed files are the paths that git reports, all of them and no others, and they
/// are marked as incomplete, with their number, exactly if the output is. A command that
/// failed reports no change; one that could not be run is an error.
pub proof fn law_detection_takes_every_report(
    run: Result<GitOutput, GitFault>,
    elapsed: u64,
    r: Result<ChangeSet, FreshnessError>,
    p: Seq<u8>,
)
    requires
        freshness::is_detection(run, elapsed, r),
    ensures
        run is Err <==> r is Err,
        r matches Ok(c) ==> c.detect_elapsed_ms == elapsed,
        r matches Ok(c) ==> (c.budget_exceeded is Some <==> run matches Ok(GitOutput::Partial(_))),
        run matches Ok(GitOutput::Complete(b)) ==> (r matches Ok(c) && (c.paths@.contains(p)
            <==> exists|i: int|
            0 <= i < git::status_report(b@).len() && path_resolve::normal(
                #[trigger] git::status_report(b@)[i],
            ) == p)),
        run matches Ok(GitOutput::Partial(b)) ==> (r matches Ok(c) && c.budget_exceeded == Some(
            c.paths@.len() as usize,
        ) && (c.paths@.contains(p) <==> exists|i: int|
            0 <= i < git::status_report(b@).len() && path_resolve::normal(
                #[trigger] git::status_report(b@)[i],
            ) == p)),
        run matches Ok(GitOutput::NoData) ==> (r matches Ok(c) && !c.paths@.contains(p)),
{
    match run {
        Ok(GitOutput::Complete(b)) => {
            change_laws::law_status_paths_are_those_reported(b@, p);
        },
        Ok(GitOutput::Partial(b)) => {
            change_laws::law_status_paths_are_those_reported(b@, p);
        },
        _ => {},
    }
}

/// Changes between commits are taken from complete output alone, and from a recorded
/// commit that is a commit id.
pub proof fn law_deltas_are_exact(
    base: Seq<u8>,
    run: Result<GitOutput, GitFault>,
    r: Result<CommittedChanges, FreshnessError>,
)
    requires
        delta::is_committed_detection(base, run, r),
    ensures
        r is Ok ==> git::is_commit(base) && run matches Ok(GitOutput::Complete(_)),
        git::is_commit(base) ==> (run matches Ok(GitOutput::Complete(b)) ==> match r {
            Ok(c) => delta::name_status_report(b@, false) == Ok::<ChangesView, GitFault>(c@),
            Err(FreshnessError::Io(f)) => delta::name_status_report(b@, false) == Err::<
                ChangesView,
                GitFault,
            >(f),
        }),
{
}

/// A delta is worth it exactly if there are one to 5000 changes and, unless all of them are
/// deletions, one more segment is within the limit.
pub proof fn law_deltas_are_small(m: Manifest, c: ChangesView, config: Config, r: bool)
    requires
        delta::is_choice(m, c, config, r),
    ensures
        ({
            let n = c.added.len() + c.modified.len() + c.deleted.len();
            let most = if config.max_segments == 0 {
                1
            } else {
                config.max_segments as int
            };
            r <==> 1 <= n <= 5000 && (n == c.deleted.len() || m.segments@.len() + 1 <= most)
        }),
{
}

/// A moved head is answered by a delta only if everything about it is known: both commits,
/// that the new one descends from the old one, and the changes, which are those applied.
pub proof fn law_deltas_need_certainty(
    m: Manifest,
    head: Option<Vec<u8>>,
    inputs: DeltaInputs,
    config: Config,
    r: Option<CommittedChanges>,
)
    requires
        delta::is_delta(m, head, inputs, config, r),
    ensures
        r matches Some(c) ==> inputs.git_found && inputs.is_ancestor && inputs.changes == Ok::<
            CommittedChanges,
            FreshnessError,
        >(c) && (m.base_commit matches Some(b) && git::is_commit(b@)) && (head matches Some(h)
            && git::is_commit(h@)) && delta::is_choice(m, c@, config, true),
        inputs.git_found && inputs.is_ancestor && (m.base_commit matches Some(b) && git::is_commit(
            b@,
        )) && (head matches Some(h) && git::is_commit(h@)) && (inputs.changes matches Ok(c)
            && delta::is_choice(m, c@, config, true)) ==> r is Some,
{
}

/// A full overlay ends a delta in a rebuild and a flush in nothing; other errors are passed
/// on as they are.
pub proof fn law_full_overlays_are_answered(
    done: Result<(), IndexError>,
    d: Result<DeltaOutcome, IndexError>,
    f: Result<bool, IndexError>,
)
    requires
        delta::is_delta_end(done, d),
        flush::is_flush_start(done, f),
    ensures
        d == Ok::<DeltaOutcome, IndexError>(DeltaOutcome::Applied) <==> done is Ok,
        f == Ok::<bool, IndexError>(true) <==> done is Ok,
        d == Ok::<DeltaOutcome, IndexError>(DeltaOutcome::Fallback) <==> done matches Err(
            IndexError::OverlayFull { .. },
        ),
        f == Ok::<bool, IndexError>(false) <==> done matches Err(IndexError::OverlayFull { .. }),
        d matches Err(e) ==> done == Err::<(), IndexError>(e),
        f matches Err(e) ==> done == Err::<(), IndexError>(e),
{
}

/// An update whose commit succeeds says how many paths were applied and how many skipped.
/// Where the overlay is full, only an update without bounds has the index built anew; one
/// with any bound says that all its changes are still to be done.
pub proof fn law_bounded_updates_never_rebuild(
    done: Result<(), IndexError>,
    limits: UpdateLimits,
    changes: ChangeSet,
    applied: usize,
    skipped: usize,
    r: Result<UpdateStep, IndexError>,
)
    requires
        update::is_next_step(done, limits, changes, applied, skipped, r),
    ensures
        r matches Ok(UpdateStep::Rebuild(_)) ==> limits.max_files is None && limits.budget_ms
            is None && done matches Err(IndexError::OverlayFull { .. }),
        done is Ok ==> (r matches Ok(UpdateStep::Done(UpdateOutcome::Updated {
            files,
            skipped: left,
            ..
        })) && files == applied && left == skipped),
        done matches Err(IndexError::OverlayFull { .. }) && (limits.max_files is Some
            || limits.budget_ms is Some) ==> (r matches Ok(UpdateStep::Done(
            UpdateOutcome::OverlayFull { files_behind, .. },
        )) && files_behind == changes.paths.paths@.len()),
        done matches Err(IndexError::OverlayFull { .. }) && limits.max_files is None
            && limits.budget_ms is None ==> r matches Ok(UpdateStep::Rebuild(_)),
        r matches Err(e) ==> done == Err::<(), IndexError>(e),
{
    assert(changes.paths.paths@.len() == changes.paths.paths.len());
}

/// A failed update never fails the search: it reports that nothing changed. One that did
/// not fail is reported as it is.
pub proof fn law_searches_survive_updates(
    done: Result<UpdateOutcome, IndexError>,
    r: UpdateOutcome,
)
    requires
        update::is_reported(done, r),
    ensures
        done matches Ok(o) ==> r == o,
        done is Err ==> r is NoChanges,
{
}

/// An index is stale exactly if the head is not the recorded commit.
pub proof fn law_moved_heads_are_noticed(m: Manifest, head: Option<Vec<u8>>, r: bool)
    requires
        update::is_staleness(m, head, r),
    ensures
        !r <==> match (m.base_commit, head) {
            (Some(a), Some(b)) => a@ == b@,
            (None, None) => true,
            _ => false,
        },
{
}

/// A directory that only its owner may enter is always taken, and any other only if the
/// configuration does not insist.
pub proof fn law_private_directories_are_taken(
    mode: u32,
    config: Config,
    r: Result<(), IndexError>,
)
    requires
        open::is_admission(mode, config, r),
    ensures
        mode & 0o077 == 0 ==> r is Ok,
        !config.strict_permissions ==> r is Ok,
        mode & 0o077 != 0 && config.strict_permissions ==> r is Err,
{
}

/// The monitor is suggested once, where it is not on, and only if detection took more than
/// half of a budget.
pub proof fn law_suggestions_are_made_once(
    elapsed: u64,
    budget: u64,
    stamp_exists: bool,
    enabled: bool,
    r: bool,
)
    requires
        freshness::is_suggestion(elapsed, budget, stamp_exists, enabled, r),
    ensures
        stamp_exists || enabled || budget == 0 ==> !r,
        !stamp_exists && !enabled && budget > 0 ==> (r <==> elapsed + elapsed > budget),
{
}

/// A commit that succeeds shows its result, keeps the edits that came since, and remembers
/// the paths that did not become documents; one that fails shows what was shown, and has
/// every drained edit buffered again, each path by its last one.
pub proof fn law_failed_commits_lose_nothing(
    before: Index,
    after: Index,
    take: TakeResult,
    outcomes: Seq<ChangedFile>,
    read_epoch: u128,
    r: Result<(), IndexError>,
    p: Seq<u8>,
)
    requires
        Index::is_committed(before, after, take, outcomes, read_epoch, r),
        commit_laws::can_commit(take, outcomes),
    ensures
        r is Err ==> after.snapshot == before.snapshot,
        r is Err ==> pending::last_kind(after.pending@, p) == pending::last_kind(
            pending::edit_views(take.drained@) + before.pending@,
            p,
        ),
        r is Ok ==> after.pending@ == before.pending@,
        r is Ok ==> (after.flush_book.non_doc_paths@.contains(p)
            <==> before.flush_book.non_doc_paths@.contains(p) || take.newly_deleted@.contains(p)
            || exists|i: int|
            #![trigger outcomes[i]]
            0 <= i < outcomes.len() && take.newly_changed.paths@[i]@ == p && !(outcomes[i]
                is Indexed)),
        r is Ok && before.flush_book.read_epoch is Some ==> after.flush_book.read_epoch
            == before.flush_book.read_epoch,
        r is Ok && before.flush_book.read_epoch is None ==> after.flush_book.read_epoch == Some(
            read_epoch,
        ),
{
    let list = take.newly_changed.seq();
    let all = pending::edit_views(take.drained@) + before.pending@;
    if r is Err {
        pending::law_last_edits_keep_kinds(all, p);
        if take.drained@.len() == 0 {
            assert(all =~= before.pending@);
        }
    } else {
        let lost = commit::lost(list, outcomes);
        if lost.contains(p) {
            let i = choose|i: int|
                #![trigger outcomes[i]]
                0 <= i < list.len() && list[i] == p && !(outcomes[i] is Indexed);
            assert(take.newly_changed.paths@[i]@ == p);
            assert(!(outcomes[i] is Indexed));
        }
        if exists|i: int|
            #![trigger outcomes[i]]
            0 <= i < outcomes.len() && take.newly_changed.paths@[i]@ == p && !(outcomes[i]
                is Indexed) {
            let i = choose|i: int|
                #![trigger outcomes[i]]
                0 <= i < outcomes.len() && take.newly_changed.paths@[i]@ == p && !(outcomes[i]
                    is Indexed);
            assert(list[i] == p);
            assert(lost.contains(p));
        }
    }
}

/// A flush of an index is made exactly if there is a dirty document, or a path that left
/// the index and is not recorded yet; it leaves what searches see as it is, and the
/// recorded commit where it was.
pub proof fn law_flushes_keep_the_commit(
    before: Index,
    after: Index,
    previous: Manifest,
    observed: Map<Seq<u8>, Observed>,
    now: u128,
    created_at: u64,
    r: Result<Option<FlushedIndex>, IndexError>,
)
    requires
        Index::is_flushed(before, after, previous, observed, now, created_at, r),
    ensures
        r matches Ok(None) <==> before.snapshot.overlay.docs@.len() == 0 && forall|p: Seq<u8>|
            !before.flush_book.non_doc_paths@.contains(p),
        r matches Ok(Some(w)) ==> (match (w.manifest.base_commit, previous.base_commit) {
            (Some(a), Some(b)) => a@ == b@,
            (None, None) => true,
            _ => false,
        }),
{
    let book = before.flush_book.non_doc_paths@;
    if forall|p: Seq<u8>| !book.contains(p) {
        assert(book =~= Set::<Seq<u8>>::empty());
    }
    if book == Set::<Seq<u8>>::empty() {
        assert(forall|p: Seq<u8>| !book.contains(p));
    }
}

/// An index is left alone where compaction is not needed: its overlay is no more than a
/// tenth of its base, it has no more segments than allowed, and its file ids are not spent.
/// On request it is left alone only if, beside that, there is neither an overlay nor a
/// deletion.
pub proof fn law_compactions_are_made_when_needed(
    s: IndexSnapshot,
    c: Config,
    previous: Manifest,
    head: Option<Vec<u8>>,
    created_at: u64,
    needed: Result<Option<WrittenIndex>, IndexError>,
    forced: Result<Option<WrittenIndex>, IndexError>,
)
    requires
        Index::is_rewritten(
            compact_plan::needed(s, c),
            s,
            previous,
            head,
            created_at,
            needed,
        ),
        Index::is_rewritten(
            compact_plan::forced(s, c),
            s,
            previous,
            head,
            created_at,
            forced,
        ),
    ensures
        needed matches Ok(None) <==> !plan_laws::overlay_is_large(s)
            && !plan_laws::segments_are_many(s, c) && !plan_laws::ids_are_spent(s),
        forced matches Ok(None) <==> !plan_laws::overlay_is_large(s)
            && !plan_laws::segments_are_many(s, c) && !plan_laws::ids_are_spent(s)
            && s.overlay.docs@.len() == 0 && forall|d: u32| !s.deleted().contains(d),
{
    plan_laws::law_compaction_has_a_reason(s, c);
    assert((exists|d: u32| s.deleted().contains(d)) || forall|d: u32| !s.deleted().contains(d));
}

/// A drained buffer has every path that was edited, as its last edit says: changed or
/// deleted, and never both.
pub proof fn law_drains_take_every_path(
    edits: Seq<(Seq<u8>, EditKind)>,
    take: TakeResult,
    i: int,
    p: Seq<u8>,
)
    requires
        pending::is_drain(edits, take),
    ensures
        0 <= i < edits.len() && edits[i].0 == p && (forall|j: int|
            i < j < edits.len() ==> (#[trigger] edits[j]).0 != p) ==> (take.newly_changed@.contains(
            p,
        ) <==> edits[i].1 == EditKind::Changed) && (take.newly_deleted@.contains(p) <==> edits[i].1
            == EditKind::Deleted),
        (forall|j: int| 0 <= j < edits.len() ==> (#[trigger] edits[j]).0 != p)
            ==> !take.newly_changed@.contains(p) && !take.newly_deleted@.contains(p),
        take.drained@.len() == edits.len(),
{
    pending::law_last_edit_decides(edits, p, i, EditKind::Changed);
    pending::law_last_edit_decides(edits, p, i, EditKind::Deleted);
    assert(pending::edit_views(take.drained@).len() == take.drained@.len());
}

/// A file below the root is buffered as notified, under its path in the repository, after
/// what was buffered before; one outside of the repository is refused and buffered nowhere.
/// Nothing else of the index changes.
pub proof fn law_notifications_are_buffered(
    before: Index,
    after: Index,
    path: Seq<u8>,
    parent: ParentSight,
    kind: EditKind,
    r: Result<(), IndexError>,
    rel: Seq<u8>,
)
    requires
        Index::is_notified(before, after, path, parent, kind, r),
        change_laws::stays(rel),
        before.config.repo_root@.len() > 0,
    ensures
        after.snapshot == before.snapshot,
        parent == ParentSight::Plain && path == path_laws::below(before.config.repo_root@, rel)
            ==> r is Ok && after.pending@ == before.pending@.push((rel, kind)),
        path_resolve::stripped(path, before.config.repo_root@) is None && path_resolve::stripped(
            path,
            before.canonical_root@,
        ) is None ==> r is Err && after.pending@ == before.pending@,
{
    let root = before.config.repo_root@;
    change_laws::lemma_stripped(root, rel);
    change_laws::lemma_stays(rel);
    change_laws::law_paths_outside_are_refused(path, parent, root, before.canonical_root@);
}

/// The start of an update keeps every reported path whose file differs from what the last
/// flush recorded, and no other; it ends the update exactly if not all changes are known,
/// if nothing is left, or if more is left than it may take.
pub proof fn law_updates_begin_with_what_differs(
    before: ChangeSet,
    after: ChangeSet,
    limits: UpdateLimits,
    anchor: Map<Seq<u8>, Observed>,
    current: Seq<Option<Observed>>,
    r: Option<UpdateOutcome>,
)
    requires
        update::is_begun(before, after, limits, anchor, current, r),
        current.len() == before.paths.paths@.len(),
    ensures
        before.budget_exceeded is Some ==> after.paths.seq() == before.paths.seq(),
        before.budget_exceeded is None ==> after.paths.paths@.len() == change_laws::differing(
            anchor,
            before.paths.seq(),
            current,
            current.len() as int,
        ),
        before.budget_exceeded is None ==> forall|i: int|
            #![trigger current[i]]
            0 <= i < current.len() && !(anchor.contains_key(before.paths.seq()[i]) && current[i]
                == Some(anchor[before.paths.seq()[i]])) ==> after.paths.seq().contains(
                before.paths.seq()[i],
            ),
        r is None <==> before.budget_exceeded is None && after.paths.paths@.len() > 0 && (
        limits.max_files matches Some(max) ==> after.paths.paths@.len() <= max),
{
    let list = before.paths.seq();
    let left = after.paths.seq();
    assert(left.len() == after.paths.paths.len());
    change_laws::law_updates_stop_for_a_reason(before, left.len(), limits);
    if before.budget_exceeded is None {
        if current.len() == 0 {
            assert(list.len() == 0);
        } else {
            change_laws::law_updates_take_what_differs(before, anchor, current, 0);
        }
        assert forall|i: int|
            #![trigger current[i]]
            0 <= i < current.len() && !(anchor.contains_key(list[i]) && current[i] == Some(
                anchor[list[i]],
            )) implies left.contains(list[i]) by {
            change_laws::law_updates_take_what_differs(before, anchor, current, i);
            let at = change_laws::differing(anchor, list, current, i) as int;
            assert(left[at] == list[i]);
        }
    }
}

/// Applying reported paths buffers, after what was buffered before, the edit of each path
/// that has one, and says how many there are and how many paths have none.
pub proof fn law_reported_paths_are_applied(
    before: Seq<(Seq<u8>, EditKind)>,
    after: Seq<(Seq<u8>, EditKind)>,
    list: Seq<Seq<u8>>,
    sights: Seq<Sighting>,
    repo_root: Seq<u8>,
    canonical_root: Seq<u8>,
    r: (usize, usize),
    i: int,
)
    requires
        update::is_applied(before, after, list, sights, repo_root, canonical_root, r),
        list.len() == sights.len(),
        0 <= i < list.len(),
    ensures
        r.0 + r.1 == list.len(),
        after.len() == before.len() + r.0,
        r.0 == change_laws::edited_before(
            list,
            sights,
            repo_root,
            canonical_root,
            list.len() as int,
        ),
        after.take(before.len() as int) == before,
        update::edit_of(list[i], sights[i], repo_root, canonical_root) matches Some(e)
            ==> after.skip(before.len() as int).contains(e),
{
    change_laws::law_updates_edit_every_path(list, sights, repo_root, canonical_root, i);
    let edits = update::edits_of(list, sights, repo_root, canonical_root);
    assert(after.take(before.len() as int) =~= before);
    assert(after.skip(before.len() as int) =~= edits);
    let at = change_laws::edited_before(list, sights, repo_root, canonical_root, i) as int;
    if let Some(e) = update::edit_of(list[i], sights[i], repo_root, canonical_root) {
        assert(edits[at] == e);
    }
}

/// Of a file one byte more than the limit is read, so that one above the limit is told from
/// one that just fits.
pub proof fn law_larger_files_are_recognised(max: u64, n: u64)
    requires
        commit::is_read_limit(max, n),
    ensures
        max < u64::MAX ==> n == max + 1,
        n >= max,
{
}

/// A budget is spent once as much time has passed; without a budget it never is.
pub proof fn law_budgets_are_spent_in_time(
    budget: Option<u64>,
    millis: u128,
    elapsed: u64,
    r: bool,
)
    requires
        freshness::is_elapsed(millis, elapsed),
        freshness::is_budget(budget, elapsed, r),
    ensures
        budget is None ==> !r,
        budget matches Some(b) ==> (r <==> millis >= b),
        millis <= u64::MAX ==> elapsed == millis,
{
}

/// There is something to flush exactly if a document is dirty or a path left the index.
pub proof fn law_dirt_is_flushed(s: IndexSnapshot, book: flush::FlushBookkeeping, r: bool)
    requires
        flush::is_due(s, book, r),
    ensures
        r <==> s.overlay.docs@.len() > 0 || exists|p: Seq<u8>| book.non_doc_paths@.contains(p),
{
    if !exists|p: Seq<u8>| book.non_doc_paths@.contains(p) {
        assert(book.non_doc_paths@ =~= Set::<Seq<u8>>::empty());
    }
}

} // verus!
