//! Batches of changes that a watcher observed.

use crate::commit::ReadOutcome;
use crate::error::IndexError;
use crate::le;
use crate::overlay;
use crate::path_resolve;
use crate::path_resolve::ParentSight;
use crate::paths;
use crate::paths::{PathMap, PathSet, SLASH};
use crate::pending::{EditKind, PendingEdits};
use std::sync::Arc;
use vstd::prelude::*;

verus! {

/// What happened to a file.
#[derive(Debug, Clone, Copy, PartialEq, Eq, Structural)]
pub enum ChangeKind {
    Added,
    Modified,
    Deleted,
    /// Its times changed, not its content.
    Touched,
    Unchanged,
    /// It has to be looked at again.
    Uncertain,
}

/// A change of one file.
#[derive(Debug)]
pub struct ChangeRecord {
    /// Path in the repository, or absolute.
    pub path: Vec<u8>,
    pub kind: ChangeKind,
    /// The content, where it was read already.
    pub content: Option<Arc<Vec<u8>>>,
}

/// Changes that were observed together.
#[derive(Debug)]
pub struct ChangeBatch {
    pub generation: u64,
    pub records: Vec<ChangeRecord>,
}

/// The edit that a kind of change calls for.
pub open spec fn edit_for(kind: ChangeKind) -> Option<EditKind> {
    match kind {
        ChangeKind::Added => Some(EditKind::Changed),
        ChangeKind::Modified => Some(EditKind::Changed),
        ChangeKind::Deleted => Some(EditKind::Deleted),
        _ => None,
    }
}

/// The roots of a repository.
pub struct Roots {
    pub repo_root: Seq<u8>,
    pub canonical_root: Seq<u8>,
}

/// The path of a change in the repository: a relative path in its normal form, an
/// absolute one resolved.
pub open spec fn change_path(c: ChangeRecord, parent: ParentSight, roots: Roots) -> Result<
    Seq<u8>,
    Seq<u8>,
> {
    if c.path@.len() > 0 && c.path@[0] == SLASH {
        path_resolve::resolved(c.path@, parent, roots.repo_root, roots.canonical_root)
    } else {
        Ok(path_resolve::normal(c.path@))
    }
}

/// The edits of the first `n` changes.
pub open spec fn change_edits(
    records: Seq<ChangeRecord>,
    parents: Seq<ParentSight>,
    n: nat,
    roots: Roots,
) -> Seq<(Seq<u8>, EditKind)>
    decreases n,
{
    if n == 0 {
        Seq::empty()
    } else {
        let rest = change_edits(records, parents, (n - 1) as nat, roots);
        match (
            change_path(records[n - 1], parents[n - 1], roots),
            edit_for(records[n - 1].kind),
        ) {
            (Ok(p), Some(kind)) => rest.push((p, kind)),
            _ => rest,
        }
    }
}

/// The contents that came with the first `n` changes, the last one of each path.
pub open spec fn change_contents(
    records: Seq<ChangeRecord>,
    parents: Seq<ParentSight>,
    n: nat,
    roots: Roots,
) -> Map<Seq<u8>, Seq<u8>>
    decreases n,
{
    if n == 0 {
        Map::empty()
    } else {
        let rest = change_contents(records, parents, (n - 1) as nat, roots);
        let c = records[n - 1];
        match (change_path(c, parents[n - 1], roots), c.content) {
            (Ok(p), Some(content)) => if edit_for(c.kind) == Some(EditKind::Changed) {
                rest.insert(p, content@)
            } else {
                rest
            },
            _ => rest,
        }
    }
}

/// Change `i` is the first whose path lies outside of the repository.
pub open spec fn first_stray(
    records: Seq<ChangeRecord>,
    parents: Seq<ParentSight>,
    i: int,
    roots: Roots,
) -> bool {
    &&& 0 <= i < records.len()
    &&& change_path(records[i], parents[i], roots) is Err
    &&& forall|k: int| 0 <= k < i ==> change_path(#[trigger] records[k], parents[k], roots) is Ok
}

/// A map of contents as bytes.
pub open spec fn content_views(m: Map<Seq<u8>, Arc<Vec<u8>>>) -> Map<Seq<u8>, Seq<u8>> {
    m.map_values(|v: Arc<Vec<u8>>| v@)
}

/// What follows a batch. With it, the generation of the batch is applied.
#[derive(Debug)]
pub enum BatchStep {
    /// There is nothing to commit.
    Done { generation: u64 },
    /// The buffered edits are to be committed; these contents need not be read.
    Commit { generation: u64, preloaded: PathMap<Arc<Vec<u8>>> },
}

/// What buffering a batch gives.
pub open spec fn is_buffered(
    r: Result<BatchStep, IndexError>,
    batch: ChangeBatch,
    parents: Seq<ParentSight>,
    roots: Roots,
    before: Seq<(Seq<u8>, EditKind)>,
    after: Seq<(Seq<u8>, EditKind)>,
) -> bool {
    let records = batch.records@;
    let n = records.len();
    match r {
        Ok(step) => {
            let edits = change_edits(records, parents, n, roots);
            &&& forall|k: int|
                0 <= k < n ==> change_path(#[trigger] records[k], parents[k], roots) is Ok
            &&& after == before + edits
            &&& match step {
                BatchStep::Done { generation } => edits.len() == 0 && generation
                    == batch.generation,
                BatchStep::Commit { generation, preloaded } => edits.len() > 0 && generation
                    == batch.generation && preloaded.wf() && content_views(preloaded@)
                    == change_contents(records, parents, n, roots),
            }
        },
        Err(e) => exists|i: int|
            {
                &&& #[trigger] first_stray(records, parents, i, roots)
                &&& after == before + change_edits(
                    records,
                    parents,
                    i as nat,
                    roots,
                )
                &&& e matches IndexError::PathOutsideRepo(p) && Err::<Seq<u8>, Seq<u8>>(
                    p@,
                ) == change_path(records[i], parents[i], roots)
            },
    }
}

/// Buffers the edits of observed changes. `parents` tells of the directories on
/// the way to each path. A change outside of the repository ends the batch; the
/// edits before it stay buffered.
pub fn apply_change_batch(
    pending: &mut PendingEdits,
    batch: &ChangeBatch,
    parents: &Vec<ParentSight>,
    repo_root: &[u8],
    canonical_root: &[u8],
) -> (r: Result<BatchStep, IndexError>)
    requires
        parents@.len() == batch.records@.len(),
    ensures
        is_buffered(
            r,
            *batch,
            parents@,
            Roots { repo_root: repo_root@, canonical_root: canonical_root@ },
            old(pending)@,
            final(pending)@,
        ),
{
    let ghost roots = Roots { repo_root: repo_root@, canonical_root: canonical_root@ };
    let ghost rs = batch.records@;
    let ghost ps = parents@;
    let ghost start = pending@;
    let mut preloaded: PathMap<Arc<Vec<u8>>> = PathMap::new();
    let mut has_ops: bool = false;
    let mut i: usize = 0;
    proof {
        assert(pending@ =~= start + change_edits(rs, ps, 0, roots));
        assert(content_views(preloaded@) =~= change_contents(rs, ps, 0, roots));
    }
    while i < batch.records.len()
        invariant
            rs == batch.records@,
            ps == parents@,
            rs.len() == ps.len(),
            roots == (Roots { repo_root: repo_root@, canonical_root: canonical_root@ }),
            start == old(pending)@,
            i <= rs.len(),
            preloaded.wf(),
            forall|k: int|
                0 <= k < i ==> change_path(#[trigger] rs[k], ps[k], roots) is Ok,
            pending@ == start + change_edits(rs, ps, i as nat, roots),
            has_ops == (change_edits(rs, ps, i as nat, roots).len() > 0),
            content_views(preloaded@) == change_contents(rs, ps, i as nat, roots),
        decreases rs.len() - i,
    {
        let c = &batch.records[i];
        let ghost edits = change_edits(rs, ps, i as nat, roots);
        let ghost contents = preloaded@;
        let rel = if c.path.len() > 0 && c.path[0] == SLASH {
            match path_resolve::repo_relative_path(
                c.path.as_slice(),
                &parents[i],
                repo_root,
                canonical_root,
            ) {
                Ok(p) => p,
                Err(e) => {
                    assert(first_stray(rs, ps, i as int, roots));
                    return Err(e);
                },
            }
        } else {
            path_resolve::normal_path(c.path.as_slice())
        };
        proof {
            path_resolve::law_normal_form_keeps_components(c.path@);
            path_resolve::law_resolved_paths_are_normal(
                c.path@,
                parents@[i as int],
                repo_root@,
                canonical_root@,
            );
        }
        match c.kind {
            ChangeKind::Added | ChangeKind::Modified => {
                has_ops = true;
                if let Some(content) = &c.content {
                    preloaded.insert(rel.as_slice(), overlay::share(content));
                    assert(content_views(preloaded@) =~= content_views(contents).insert(
                        rel@,
                        content@,
                    ));
                }
                pending.notify_change(rel.as_slice());
                assert(pending@ =~= start + edits.push((rel@, EditKind::Changed)));
            },
            ChangeKind::Deleted => {
                has_ops = true;
                pending.notify_delete(rel.as_slice());
                assert(pending@ =~= start + edits.push((rel@, EditKind::Deleted)));
            },
            _ => {},
        }
        i = i + 1;
    }
    if has_ops {
        Ok(BatchStep::Commit { generation: batch.generation, preloaded })
    } else {
        Ok(BatchStep::Done { generation: batch.generation })
    }
}

/// The listed paths whose content did not come with the batch.
pub open spec fn not_loaded(list: Seq<Seq<u8>>, loaded: Map<Seq<u8>, Seq<u8>>) -> Seq<Seq<u8>>
    decreases list.len(),
{
    if list.len() == 0 {
        Seq::empty()
    } else {
        let rest = not_loaded(list.drop_last(), loaded);
        if loaded.contains_key(list.last()) {
            rest
        } else {
            rest.push(list.last())
        }
    }
}

/// The changed paths that have to be read: those whose content did not come with
/// the batch, in order.
pub fn paths_to_read(changed: &PathSet, preloaded: &PathMap<Arc<Vec<u8>>>) -> (r: Vec<Vec<u8>>)
    requires
        changed.wf(),
        preloaded.wf(),
    ensures
        paths::path_views(r@) == not_loaded(changed.seq(), content_views(preloaded@)),
{
    let ghost list = changed.seq();
    let ghost loaded = content_views(preloaded@);
    let mut r: Vec<Vec<u8>> = Vec::new();
    let mut i: usize = 0;
    assert(paths::path_views(r@) =~= not_loaded(list.take(0), loaded));
    while i < changed.paths.len()
        invariant
            changed.wf(),
            preloaded.wf(),
            list == changed.seq(),
            loaded == content_views(preloaded@),
            i <= list.len(),
            paths::path_views(r@) == not_loaded(list.take(i as int), loaded),
        decreases list.len() - i,
    {
        let p: &[u8] = changed.paths[i].as_slice();
        let ghost before = paths::path_views(r@);
        proof {
            assert(list[i as int] == p@);
            assert(path_resolve::normal(list[i as int]) == list[i as int]);
            assert(list.take(i + 1).drop_last() =~= list.take(i as int));
            assert(loaded.contains_key(p@) == preloaded@.contains_key(p@));
        }
        if preloaded.get(p).is_none() {
            r.push(le::bytes_clone(p));
            assert(paths::path_views(r@) =~= before.push(p@));
        }
        i = i + 1;
    }
    assert(list.take(i as int) =~= list);
    r
}

/// `r` tells of the listed paths: the content that came with the batch where it
/// did, else the next of what was `read`.
pub open spec fn merged(
    r: Seq<ReadOutcome>,
    list: Seq<Seq<u8>>,
    loaded: Map<Seq<u8>, Seq<u8>>,
    read: Seq<ReadOutcome>,
) -> bool {
    &&& r.len() == list.len()
    &&& forall|i: int|
        #![trigger r[i]]
        0 <= i < r.len() ==> if loaded.contains_key(list[i]) {
            r[i] matches ReadOutcome::Read(b) && b@ == loaded[list[i]]
        } else {
            r[i] == read[not_loaded(list.take(i), loaded).len() as int]
        }
}

proof fn lemma_not_loaded_grows(list: Seq<Seq<u8>>, loaded: Map<Seq<u8>, Seq<u8>>, i: int)
    requires
        0 <= i <= list.len(),
    ensures
        not_loaded(list.take(i), loaded).len() <= not_loaded(list, loaded).len(),
    decreases list.len() - i,
{
    if i < list.len() {
        lemma_not_loaded_grows(list, loaded, i + 1);
        assert(list.take(i + 1).drop_last() =~= list.take(i));
    } else {
        assert(list.take(i) =~= list);
    }
}

/// What is known of every changed file before the commit decides about it: the
/// content that came with the batch is not read again. `read` tells of the other
/// paths, in order.
pub fn merge_reads(
    changed: &PathSet,
    preloaded: &PathMap<Arc<Vec<u8>>>,
    read: Vec<ReadOutcome>,
) -> (r: Vec<ReadOutcome>)
    requires
        changed.wf(),
        preloaded.wf(),
        read@.len() == not_loaded(changed.seq(), content_views(preloaded@)).len(),
    ensures
        merged(r@, changed.seq(), content_views(preloaded@), read@),
{
    let ghost list = changed.seq();
    let ghost loaded = content_views(preloaded@);
    let ghost all = read@;
    let mut queue = read;
    let mut r: Vec<ReadOutcome> = Vec::new();
    let mut i: usize = 0;
    let ghost mut k: int = 0;
    proof {
        assert(queue@ =~= all.skip(0));
        assert(not_loaded(list.take(0), loaded).len() == 0);
        assert(list.take(list.len() as int) =~= list);
    }
    while i < changed.paths.len()
        invariant
            changed.wf(),
            preloaded.wf(),
            list == changed.seq(),
            loaded == content_views(preloaded@),
            all.len() == not_loaded(list, loaded).len(),
            i <= list.len(),
            r@.len() == i,
            k == not_loaded(list.take(i as int), loaded).len(),
            k <= all.len(),
            queue@ == all.skip(k),
            merged(r@, list.take(i as int), loaded, all),
        decreases list.len() - i,
    {
        let p: &[u8] = changed.paths[i].as_slice();
        let ghost before = r@;
        proof {
            assert(list[i as int] == p@);
            assert(path_resolve::normal(list[i as int]) == list[i as int]);
            assert(list.take(i + 1).drop_last() =~= list.take(i as int));
            assert(loaded.contains_key(p@) == preloaded@.contains_key(p@));
            lemma_not_loaded_grows(list, loaded, i + 1);
        }
        match preloaded.get(p) {
            Some(content) => {
                r.push(ReadOutcome::Read(le::bytes_clone(content.as_slice())));
            },
            None => {
                r.push(queue.remove(0));
                proof {
                    assert(all.skip(k)[0] == all[k]);
                    assert(queue@ =~= all.skip(k + 1));
                    k = k + 1;
                }
            },
        }
        proof {
            let next = list.take(i + 1);
            assert forall|j: int| #![trigger r@[j]] 0 <= j < r@.len() implies if loaded.contains_key(
                next[j],
            ) {
                r@[j] matches ReadOutcome::Read(b) && b@ == loaded[next[j]]
            } else {
                r@[j] == all[not_loaded(next.take(j), loaded).len() as int]
            } by {
                assert(next.take(j) =~= list.take(i as int).take(j));
                if j < i {
                    assert(r@[j] == before[j]);
                    assert(next[j] == list.take(i as int)[j]);
                } else {
                    assert(next.take(j) =~= list.take(i as int));
                }
            }
        }
        i = i + 1;
    }
    r
}

} // verus!
