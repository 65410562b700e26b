//! Pending edits between commits.
//!
//! [`PendingEdits`] accumulates file changes and deletions. Nothing here is
//! visible to queries until a commit drains the buffer.

use crate::bitmap;
use crate::le;
use crate::path_resolve;
use crate::paths::{PathMap, PathSet};
use roaring::RoaringBitmap;
use vstd::prelude::*;

verus! {

/// Kind of file change.
#[derive(Debug, Clone, Copy, PartialEq, Eq, Structural)]
pub enum EditKind {
    /// The file was added or its content changed.
    Changed,
    /// The file was removed.
    Deleted,
}

/// A buffered file edit.
#[derive(Debug)]
pub struct FileEdit {
    /// Repository-relative path.
    pub path: Vec<u8>,
    /// Nature of the change.
    pub kind: EditKind,
}

/// The paths, in their normal form, and the kinds of a list of edits.
pub open spec fn edit_views(edits: Seq<FileEdit>) -> Seq<(Seq<u8>, EditKind)> {
    Seq::new(edits.len(), |i: int| (path_resolve::normal(edits[i].path@), edits[i].kind))
}

/// The last kind of edit that a path received, if it received one.
pub open spec fn last_kind(edits: Seq<(Seq<u8>, EditKind)>, path: Seq<u8>) -> Option<EditKind>
    decreases edits.len(),
{
    if edits.len() == 0 {
        None
    } else if edits.last().0 == path {
        Some(edits.last().1)
    } else {
        last_kind(edits.drop_last(), path)
    }
}

/// The paths whose last edit is of a kind.
pub open spec fn paths_of_kind(edits: Seq<(Seq<u8>, EditKind)>, kind: EditKind) -> Set<Seq<u8>> {
    Set::new(|p: Seq<u8>| last_kind(edits, p) == Some(kind))
}

/// No path occurs twice.
pub open spec fn one_per_path(edits: Seq<(Seq<u8>, EditKind)>) -> bool {
    forall|i: int, j: int| 0 <= i < j < edits.len() ==> edits[i].0 != edits[j].0
}

/// A drained buffer.
#[derive(Debug)]
pub struct TakeResult {
    /// Paths whose last edit is a change.
    pub newly_changed: PathSet,
    /// Paths whose last edit is a deletion.
    pub newly_deleted: PathSet,
    /// The edits in the order they arrived, to be put back if a commit fails.
    pub drained: Vec<FileEdit>,
}

/// What draining these edits gives.
pub open spec fn is_drain(edits: Seq<(Seq<u8>, EditKind)>, r: TakeResult) -> bool {
    &&& edit_views(r.drained@) == edits
    &&& r.newly_changed@ == paths_of_kind(edits, EditKind::Changed)
    &&& r.newly_deleted@ == paths_of_kind(edits, EditKind::Deleted)
}

/// Buffer of edits that are not committed yet. Paths are told apart by their
/// components.
#[derive(Debug)]
pub struct PendingEdits {
    pub uncommitted: Vec<FileEdit>,
}

impl View for PendingEdits {
    type V = Seq<(Seq<u8>, EditKind)>;

    open spec fn view(&self) -> Seq<(Seq<u8>, EditKind)> {
        edit_views(self.uncommitted@)
    }
}

impl PendingEdits {
    /// An empty buffer.
    pub fn new() -> (p: Self)
        ensures
            p@ == Seq::<(Seq<u8>, EditKind)>::empty(),
    {
        let p = PendingEdits { uncommitted: Vec::new() };
        assert(p@ =~= Seq::<(Seq<u8>, EditKind)>::empty());
        p
    }

    fn push(&mut self, path: &[u8], kind: EditKind)
        ensures
            final(self)@ == old(self)@.push((path_resolve::normal(path@), kind)),
    {
        let ghost before = self@;
        let path = le::bytes_clone(path);
        self.uncommitted.push(FileEdit { path, kind });
        assert(self@ =~= before.push((path_resolve::normal(path@), kind)));
    }

    /// Buffers a file change.
    pub fn notify_change(&mut self, path: &[u8])
        ensures
            final(self)@ == old(self)@.push((path_resolve::normal(path@), EditKind::Changed)),
    {
        self.push(path, EditKind::Changed);
    }

    /// Buffers a file deletion.
    pub fn notify_delete(&mut self, path: &[u8])
        ensures
            final(self)@ == old(self)@.push((path_resolve::normal(path@), EditKind::Deleted)),
    {
        self.push(path, EditKind::Deleted);
    }

    /// Drains the buffer: the changed and the deleted paths, each path by its
    /// last edit, and the edits themselves.
    pub fn take_for_commit(&mut self) -> (r: TakeResult)
        ensures
            final(self)@ == Seq::<(Seq<u8>, EditKind)>::empty(),
            r.newly_changed.wf(),
            r.newly_deleted.wf(),
            is_drain(old(self)@, r),
    {
        let mut drained: Vec<FileEdit> = Vec::new();
        std::mem::swap(&mut drained, &mut self.uncommitted);
        assert(self@ =~= Seq::<(Seq<u8>, EditKind)>::empty());
        let ghost edits = edit_views(drained@);
        let mut changed = PathSet::new();
        let mut deleted = PathSet::new();
        let mut i: usize = 0;
        assert(changed@ =~= paths_of_kind(edits.take(0), EditKind::Changed));
        assert(deleted@ =~= paths_of_kind(edits.take(0), EditKind::Deleted));
        while i < drained.len()
            invariant
                i <= drained@.len(),
                edits == edit_views(drained@),
                changed.wf(),
                deleted.wf(),
                changed@ == paths_of_kind(edits.take(i as int), EditKind::Changed),
                deleted@ == paths_of_kind(edits.take(i as int), EditKind::Deleted),
            decreases drained@.len() - i,
        {
            let path: &[u8] = drained[i].path.as_slice();
            match drained[i].kind {
                EditKind::Changed => {
                    deleted.remove(path);
                    changed.insert(path);
                },
                EditKind::Deleted => {
                    changed.remove(path);
                    deleted.insert(path);
                },
            }
            proof {
                let next = edits.take(i + 1);
                assert(next.drop_last() =~= edits.take(i as int));
                assert(next.last() == edits[i as int]);
                assert(changed@ =~= paths_of_kind(next, EditKind::Changed));
                assert(deleted@ =~= paths_of_kind(next, EditKind::Deleted));
            }
            i = i + 1;
        }
        assert(edits.take(i as int) =~= edits);
        TakeResult { newly_changed: changed, newly_deleted: deleted, drained }
    }

    /// Puts drained edits back in front of those that arrived since, and keeps
    /// the last edit of each path only.
    pub fn requeue_uncommitted(&mut self, edits: Vec<FileEdit>)
        ensures
            edits@.len() == 0 ==> final(self)@ == old(self)@,
            edits@.len() > 0 ==> one_per_path(final(self)@),
            edits@.len() > 0 ==> final(self)@ == last_edits(edit_views(edits@) + old(self)@),
            forall|p: Seq<u8>| #[trigger]
                last_kind(final(self)@, p) == last_kind(edit_views(edits@) + old(self)@, p),
    {
        let ghost front = edit_views(edits@);
        let ghost back = self@;
        if edits.len() == 0 {
            assert(front + back =~= back);
            return;
        }
        let mut combined = edits;
        combined.append(&mut self.uncommitted);
        let ghost all = edit_views(combined@);
        assert(all =~= front + back);
        let kept = keep_last(combined);
        self.uncommitted = kept;
    }

    /// Drops every buffered edit.
    pub fn reset(&mut self)
        ensures
            final(self)@ == Seq::<(Seq<u8>, EditKind)>::empty(),
    {
        self.uncommitted.clear();
        assert(self@ =~= Seq::<(Seq<u8>, EditKind)>::empty());
    }

    /// Whether edits are buffered.
    pub fn has_uncommitted(&self) -> (r: bool)
        ensures
            r == (self@.len() > 0),
    {
        self.uncommitted.len() > 0
    }

    /// Number of buffered edits.
    pub fn uncommitted_count(&self) -> (n: usize)
        ensures
            n == self@.len(),
    {
        self.uncommitted.len()
    }
}

impl Default for PendingEdits {
    fn default() -> (p: Self)
        ensures
            p@ == Seq::<(Seq<u8>, EditKind)>::empty(),
    {
        PendingEdits::new()
    }
}

/// The edits of `all` that no later edit of the same path follows, in order.
pub open spec fn last_edits(all: Seq<(Seq<u8>, EditKind)>) -> Seq<(Seq<u8>, EditKind)>
    decreases all.len(),
{
    if all.len() == 0 {
        Seq::empty()
    } else {
        let rest = last_edits(all.drop_first());
        if exists|i: int| 1 <= i < all.len() && (#[trigger] all[i]).0 == all[0].0 {
            rest
        } else {
            seq![all[0]] + rest
        }
    }
}

/// The last edits mention the same paths as all edits.
proof fn lemma_last_edits_paths(all: Seq<(Seq<u8>, EditKind)>, p: Seq<u8>)
    ensures
        (exists|i: int| 0 <= i < all.len() && (#[trigger] all[i]).0 == p) <==> (exists|i: int|
            0 <= i < last_edits(all).len() && (#[trigger] last_edits(all)[i]).0 == p),
    decreases all.len(),
{
    if all.len() > 0 {
        let tail = all.drop_first();
        let rest = last_edits(tail);
        let kept = last_edits(all);
        lemma_last_edits_paths(tail, p);
        let repeated = exists|i: int| 1 <= i < all.len() && (#[trigger] all[i]).0 == all[0].0;
        if exists|i: int| 0 <= i < all.len() && (#[trigger] all[i]).0 == p {
            let i = choose|i: int| 0 <= i < all.len() && (#[trigger] all[i]).0 == p;
            if i > 0 {
                assert(tail[i - 1].0 == p);
            } else if repeated {
                let k = choose|k: int| 1 <= k < all.len() && (#[trigger] all[k]).0 == all[0].0;
                assert(tail[k - 1].0 == p);
            }
            if i > 0 || repeated {
                let w = choose|w: int| 0 <= w < rest.len() && (#[trigger] rest[w]).0 == p;
                if repeated {
                    assert(kept[w].0 == p);
                } else {
                    assert(kept[w + 1].0 == p);
                }
            } else {
                assert(kept[0].0 == p);
            }
        }
        if exists|i: int| 0 <= i < kept.len() && (#[trigger] kept[i]).0 == p {
            let i = choose|i: int| 0 <= i < kept.len() && (#[trigger] kept[i]).0 == p;
            if !repeated && i == 0 {
                assert(all[0].0 == p);
            } else {
                let w = if repeated { i } else { i - 1 };
                assert(rest[w].0 == p);
                let k = choose|k: int| 0 <= k < tail.len() && (#[trigger] tail[k]).0 == p;
                assert(all[k + 1].0 == p);
            }
        }
    }
}

/// The last edits hold each path once.
proof fn lemma_last_edits_distinct(all: Seq<(Seq<u8>, EditKind)>)
    ensures
        one_per_path(last_edits(all)),
    decreases all.len(),
{
    if all.len() > 0 {
        let tail = all.drop_first();
        let rest = last_edits(tail);
        let kept = last_edits(all);
        lemma_last_edits_distinct(tail);
        if !(exists|i: int| 1 <= i < all.len() && (#[trigger] all[i]).0 == all[0].0) {
            assert forall|i: int, j: int| 0 <= i < j < kept.len() implies kept[i].0
                != kept[j].0 by {
                assert(kept[j] == rest[j - 1]);
                if i > 0 {
                    assert(kept[i] == rest[i - 1]);
                } else if kept[j].0 == all[0].0 {
                    lemma_last_edits_paths(tail, all[0].0);
                    assert(rest[j - 1].0 == all[0].0);
                    let k = choose|k: int|
                        0 <= k < tail.len() && (#[trigger] tail[k]).0 == all[0].0;
                    assert(all[k + 1].0 == all[0].0);
                }
            }
        }
    }
}

/// The last kind of a path, from the front.
proof fn lemma_last_kind_front(all: Seq<(Seq<u8>, EditKind)>, p: Seq<u8>)
    requires
        all.len() > 0,
    ensures
        last_kind(all, p) == (match last_kind(all.drop_first(), p) {
            Some(k) => Some(k),
            None => if all[0].0 == p {
                Some(all[0].1)
            } else {
                None
            },
        }),
    decreases all.len(),
{
    if all.len() > 1 {
        lemma_last_kind_front(all.drop_last(), p);
        assert(all.drop_last().drop_first() =~= all.drop_first().drop_last());
        assert(all.drop_first().last() == all.last());
    } else {
        reveal_with_fuel(last_kind, 2);
    }
}

/// A path without an edit has no last kind.
proof fn lemma_last_kind_absent(all: Seq<(Seq<u8>, EditKind)>, p: Seq<u8>)
    ensures
        last_kind(all, p) is Some <==> exists|i: int|
            0 <= i < all.len() && (#[trigger] all[i]).0 == p,
    decreases all.len(),
{
    if all.len() > 0 {
        let head = all.drop_last();
        lemma_last_kind_absent(head, p);
        if exists|i: int| 0 <= i < all.len() && (#[trigger] all[i]).0 == p {
            let i = choose|i: int| 0 <= i < all.len() && (#[trigger] all[i]).0 == p;
            if i < head.len() {
                assert(head[i].0 == p);
            }
        }
        if last_kind(head, p) is Some {
            let i = choose|i: int| 0 <= i < head.len() && (#[trigger] head[i]).0 == p;
            assert(all[i].0 == p);
        }
        assert(all[all.len() - 1] == all.last());
    }
}

/// Dropping earlier edits changes the last kind of no path.
pub proof fn law_last_edits_keep_kinds(all: Seq<(Seq<u8>, EditKind)>, p: Seq<u8>)
    ensures
        last_kind(last_edits(all), p) == last_kind(all, p),
    decreases all.len(),
{
    if all.len() > 0 {
        let tail = all.drop_first();
        let rest = last_edits(tail);
        let kept = last_edits(all);
        law_last_edits_keep_kinds(tail, p);
        lemma_last_kind_front(all, p);
        if exists|i: int| 1 <= i < all.len() && (#[trigger] all[i]).0 == all[0].0 {
            if all[0].0 == p {
                let k = choose|k: int| 1 <= k < all.len() && (#[trigger] all[k]).0 == all[0].0;
                assert(tail[k - 1].0 == p);
                lemma_last_kind_absent(tail, p);
            }
        } else {
            lemma_last_kind_front(kept, p);
            assert(kept.drop_first() =~= rest);
        }
    }
}

/// Walks the edits from the back and keeps the first one met of each path.
fn keep_last(edits: Vec<FileEdit>) -> (r: Vec<FileEdit>)
    ensures
        edit_views(r@) == last_edits(edit_views(edits@)),
        one_per_path(edit_views(r@)),
        forall|p: Seq<u8>| #[trigger]
            last_kind(edit_views(r@), p) == last_kind(edit_views(edits@), p),
{
    let ghost all = edit_views(edits@);
    let mut rest = edits;
    let mut seen = PathSet::new();
    let mut backwards: Vec<FileEdit> = Vec::new();
    assert(all.skip(all.len() as int).len() == 0);
    assert(edit_views(backwards@).reverse() =~= last_edits(all.skip(all.len() as int)));
    assert(edit_views(rest@) =~= all.take(rest@.len() as int));
    while rest.len() > 0
        invariant
            rest@.len() <= all.len(),
            edit_views(rest@) == all.take(rest@.len() as int),
            seen.wf(),
            forall|p: Seq<u8>| #[trigger]
                seen@.contains(p) <==> exists|i: int|
                    rest@.len() <= i < all.len() && (#[trigger] all[i]).0 == p,
            edit_views(backwards@).reverse() == last_edits(all.skip(rest@.len() as int)),
        decreases rest@.len(),
    {
        let ghost n = rest@.len() - 1;
        let ghost rest0 = rest@;
        let ghost seen0 = seen@;
        let ghost back0 = backwards@;
        let edit = rest.pop().unwrap();
        proof {
            assert(edit_views(rest0)[n] == all[n]);
            assert(edit_views(rest@) =~= all.take(n));
        }
        let ghost path = path_resolve::normal(edit.path@);
        let fresh = seen.insert(edit.path.as_slice());
        proof {
            let here = all.skip(n);
            let tail = all.skip(n + 1);
            assert(here.drop_first() =~= tail);
            assert(here[0] == all[n]);
            assert(path == all[n].0 && edit.kind == all[n].1);
            assert((exists|i: int| 1 <= i < here.len() && (#[trigger] here[i]).0 == here[0].0)
                <==> !fresh) by {
                if exists|i: int| 1 <= i < here.len() && (#[trigger] here[i]).0 == here[0].0 {
                    let i = choose|i: int| 1 <= i < here.len() && (#[trigger] here[i]).0
                        == here[0].0;
                    assert(all[n + i].0 == path);
                }
                if !fresh {
                    let i = choose|i: int| n + 1 <= i < all.len() && (#[trigger] all[i]).0
                        == path;
                    assert(here[i - n].0 == here[0].0);
                }
            }
            assert forall|p: Seq<u8>| #[trigger] seen@.contains(p) <==> exists|i: int|
                n <= i < all.len() && (#[trigger] all[i]).0 == p by {
                if seen0.contains(p) {
                    let i = choose|i: int| n + 1 <= i < all.len() && (#[trigger] all[i]).0 == p;
                    assert(all[i].0 == p);
                }
                if p == path {
                    assert(all[n].0 == p);
                }
                if exists|i: int| n <= i < all.len() && (#[trigger] all[i]).0 == p {
                    let i = choose|i: int| n <= i < all.len() && (#[trigger] all[i]).0 == p;
                    if i > n {
                        assert(seen0.contains(p));
                    }
                }
            }
        }
        if fresh {
            backwards.push(edit);
            proof {
                assert(edit_views(backwards@) =~= edit_views(back0).push(all[n]));
                assert(edit_views(backwards@).reverse() =~= seq![all[n]] + edit_views(
                    back0,
                ).reverse());
            }
        }
    }
    assert(all.skip(0) =~= all);
    let mut out: Vec<FileEdit> = Vec::new();
    let ghost done = edit_views(backwards@);
    assert(done.take(done.len() as int) =~= done);
    assert(edit_views(out@) + done.take(done.len() as int).reverse() =~= done.reverse());
    while backwards.len() > 0
        invariant
            edit_views(backwards@) == done.take(backwards@.len() as int),
            backwards@.len() <= done.len(),
            edit_views(out@) + done.take(backwards@.len() as int).reverse() == done.reverse(),
        decreases backwards@.len(),
    {
        let ghost n = backwards@.len() - 1;
        let ghost back0 = backwards@;
        let ghost out0 = out@;
        let edit = backwards.pop().unwrap();
        proof {
            assert(edit_views(back0)[n] == done[n]);
            assert(edit_views(backwards@) =~= done.take(n));
            assert(done.take(n + 1).reverse() =~= seq![done[n]] + done.take(n).reverse());
        }
        out.push(edit);
        proof {
            assert(edit_views(out@) =~= edit_views(out0).push(done[n]));
            assert(edit_views(out0).push(done[n]) + done.take(n).reverse() =~= edit_views(out0) + (
            seq![done[n]] + done.take(n).reverse()));
        }
    }
    proof {
        assert(done.take(0).reverse() =~= Seq::empty());
        assert(edit_views(out@) =~= last_edits(all));
        lemma_last_edits_distinct(all);
        assert forall|p: Seq<u8>| #[trigger] last_kind(edit_views(out@), p) == last_kind(
            all,
            p,
        ) by {
            law_last_edits_keep_kinds(all, p);
        }
    }
    out
}

/// A path is changed or deleted by its last edit, never both.
pub proof fn law_changed_and_deleted_are_disjoint(edits: Seq<(Seq<u8>, EditKind)>)
    ensures
        paths_of_kind(edits, EditKind::Changed).disjoint(paths_of_kind(edits, EditKind::Deleted)),
{
}

/// Putting drained edits back and draining again gives the same changed and
/// deleted paths as if they had never been drained.
pub proof fn law_requeue_preserves_commit(
    drained: Seq<(Seq<u8>, EditKind)>,
    since: Seq<(Seq<u8>, EditKind)>,
    kind: EditKind,
)
    ensures
        paths_of_kind(last_edits(drained + since), kind) == paths_of_kind(drained + since, kind),
{
    assert forall|p: Seq<u8>| #[trigger] last_kind(last_edits(drained + since), p) == last_kind(
        drained + since,
        p,
    ) by {
        law_last_edits_keep_kinds(drained + since, p);
    }
    assert(paths_of_kind(last_edits(drained + since), kind) =~= paths_of_kind(
        drained + since,
        kind,
    ));
}

/// The documents of the listed paths.
pub open spec fn docs_of(base: Map<Seq<u8>, Vec<u32>>, paths: Set<Seq<u8>>) -> Set<u32> {
    Set::new(
        |d: u32|
            exists|p: Seq<u8>| #[trigger]
                paths.contains(p) && base.contains_key(p) && base[p]@.contains(d),
    )
}

proof fn lemma_docs_of_step(base: Map<Seq<u8>, Vec<u32>>, a: Set<Seq<u8>>, p: Seq<u8>)
    ensures
        docs_of(base, a.insert(p)) == docs_of(base, a).union(
            if base.contains_key(p) {
                base[p]@.to_set()
            } else {
                Set::empty()
            },
        ),
{
    let b = a.insert(p);
    let mine = if base.contains_key(p) {
        base[p]@.to_set()
    } else {
        Set::empty()
    };
    assert forall|d: u32| docs_of(base, b).contains(d) <==> docs_of(base, a).union(mine).contains(
        d,
    ) by {
        if docs_of(base, b).contains(d) {
            let q = choose|q: Seq<u8>| #[trigger]
                b.contains(q) && base.contains_key(q) && base[q]@.contains(d);
            if q != p {
                assert(a.contains(q));
            }
        }
        if docs_of(base, a).contains(d) {
            let q = choose|q: Seq<u8>| #[trigger]
                a.contains(q) && base.contains_key(q) && base[q]@.contains(d);
            assert(b.contains(q));
        }
        if mine.contains(d) {
            assert(b.contains(p));
        }
    }
    assert(docs_of(base, b) =~= docs_of(base, a).union(mine));
}

fn delete_paths(delete_set: &mut RoaringBitmap, base: &PathMap<Vec<u32>>, paths: &PathSet)
    requires
        base.wf(),
        paths.wf(),
    ensures
        bitmap::values(*final(delete_set)) == bitmap::values(*old(delete_set)).union(
            docs_of(base@, paths@),
        ),
{
    let ghost before = bitmap::values(*delete_set);
    let ghost seq = paths.seq();
    let mut i: usize = 0;
    assert(bitmap::values(*delete_set) =~= before.union(docs_of(base@, seq.take(0).to_set())));
    while i < paths.paths.len()
        invariant
            base.wf(),
            paths.wf(),
            seq == paths.seq(),
            i <= seq.len(),
            bitmap::values(*delete_set) == before.union(
                docs_of(base@, seq.take(i as int).to_set()),
            ),
        decreases seq.len() - i,
    {
        let ghost at = bitmap::values(*delete_set);
        let ghost p = seq[i as int];
        proof {
            assert(path_resolve::normal(p) == p);
            crate::paths::lemma_take_to_set(seq, i as int);
        }
        match base.get(paths.paths[i].as_slice()) {
            Some(ids) => {
                let mut k: usize = 0;
                assert(bitmap::values(*delete_set) =~= at.union(ids@.take(0).to_set()));
                while k < ids.len()
                    invariant
                        k <= ids@.len(),
                        bitmap::values(*delete_set) == at.union(ids@.take(k as int).to_set()),
                    decreases ids@.len() - k,
                {
                    bitmap::insert(delete_set, ids[k]);
                    proof {
                        crate::paths::lemma_take_to_set(ids@, k as int);
                        assert(bitmap::values(*delete_set) =~= at.union(
                            ids@.take(k + 1).to_set(),
                        ));
                    }
                    k = k + 1;
                }
                proof {
                    assert(ids@.take(k as int) =~= ids@);
                    lemma_docs_of_step(base@, seq.take(i as int).to_set(), p);
                    assert(bitmap::values(*delete_set) =~= before.union(
                        docs_of(base@, seq.take(i + 1).to_set()),
                    ));
                }
            },
            None => {
                proof {
                    lemma_docs_of_step(base@, seq.take(i as int).to_set(), p);
                }
            },
        }
        i = i + 1;
    }
    assert(seq.take(i as int) =~= seq);
}

/// The base documents that changed or deleted files invalidate: those of
/// before, and every document of a changed or deleted path.
pub fn compute_delete_set(
    base_path_doc_ids: &PathMap<Vec<u32>>,
    modified_paths: &PathSet,
    deleted_paths: &PathSet,
    prev: &RoaringBitmap,
) -> (r: RoaringBitmap)
    requires
        base_path_doc_ids.wf(),
        modified_paths.wf(),
        deleted_paths.wf(),
    ensures
        bitmap::values(r) == bitmap::values(*prev).union(
            docs_of(base_path_doc_ids@, modified_paths@.union(deleted_paths@)),
        ),
{
    let mut delete_set = bitmap::clone(prev);
    delete_paths(&mut delete_set, base_path_doc_ids, modified_paths);
    delete_paths(&mut delete_set, base_path_doc_ids, deleted_paths);
    proof {
        let b = base_path_doc_ids@;
        let m = modified_paths@;
        let d = deleted_paths@;
        lemma_docs_of_union(b, m, d);
        assert(bitmap::values(delete_set) =~= bitmap::values(*prev).union(
            docs_of(b, m.union(d)),
        ));
    }
    delete_set
}

proof fn lemma_docs_of_union(base: Map<Seq<u8>, Vec<u32>>, a: Set<Seq<u8>>, b: Set<Seq<u8>>)
    ensures
        docs_of(base, a.union(b)) == docs_of(base, a).union(docs_of(base, b)),
{
    assert forall|d: u32| docs_of(base, a.union(b)).contains(d) <==> docs_of(base, a).union(
        docs_of(base, b),
    ).contains(d) by {
        if docs_of(base, a.union(b)).contains(d) {
            let q = choose|q: Seq<u8>| #[trigger]
                a.union(b).contains(q) && base.contains_key(q) && base[q]@.contains(d);
            assert(a.contains(q) || b.contains(q));
        }
        if docs_of(base, a).contains(d) {
            let q = choose|q: Seq<u8>| #[trigger]
                a.contains(q) && base.contains_key(q) && base[q]@.contains(d);
            assert(a.union(b).contains(q));
        }
        if docs_of(base, b).contains(d) {
            let q = choose|q: Seq<u8>| #[trigger]
                b.contains(q) && base.contains_key(q) && base[q]@.contains(d);
            assert(a.union(b).contains(q));
        }
    }
    assert(docs_of(base, a.union(b)) =~= docs_of(base, a).union(docs_of(base, b)));
}

/// The delete set only grows: commit after commit, nothing that was
/// invalidated comes back, and two commits invalidate what one commit of both
/// batches would.
pub proof fn law_delete_set_accumulates(
    base: Map<Seq<u8>, Vec<u32>>,
    prev: Set<u32>,
    first: Set<Seq<u8>>,
    second: Set<Seq<u8>>,
)
    ensures
        prev.subset_of(prev.union(docs_of(base, first))),
        prev.union(docs_of(base, first)).union(docs_of(base, second)) == prev.union(
            docs_of(base, first.union(second)),
        ),
{
    lemma_docs_of_union(base, first, second);
    assert(prev.union(docs_of(base, first)).union(docs_of(base, second)) =~= prev.union(
        docs_of(base, first.union(second)),
    ));
}

/// The last edit of a path decides: a commit takes the path as changed or as deleted as
/// that edit says, whatever came before it, and leaves a path without edits alone.
pub proof fn law_last_edit_decides(
    edits: Seq<(Seq<u8>, EditKind)>,
    p: Seq<u8>,
    i: int,
    kind: EditKind,
)
    ensures
        0 <= i < edits.len() && edits[i].0 == p && (forall|j: int|
            i < j < edits.len() ==> (#[trigger] edits[j]).0 != p) ==> (paths_of_kind(
            edits,
            kind,
        ).contains(p) <==> kind == edits[i].1),
        (forall|j: int| 0 <= j < edits.len() ==> (#[trigger] edits[j]).0 != p) ==> !paths_of_kind(
            edits,
            kind,
        ).contains(p),
    decreases edits.len(),
{
    if edits.len() > 0 {
        let front = edits.drop_last();
        if edits.last().0 == p {
            assert(edits[edits.len() - 1].0 == p);
        } else {
            law_last_edit_decides(front, p, i, kind);
            if 0 <= i < edits.len() && edits[i].0 == p && (forall|j: int|
                i < j < edits.len() ==> (#[trigger] edits[j]).0 != p) {
                assert(i < front.len());
                assert(front[i] == edits[i]);
                assert forall|j: int| i < j < front.len() implies (#[trigger] front[j]).0 != p by {
                    assert(edits[j].0 != p);
                }
            }
            if forall|j: int| 0 <= j < edits.len() ==> (#[trigger] edits[j]).0 != p {
                assert forall|j: int| 0 <= j < front.len() implies (#[trigger] front[j]).0 != p by {
                    assert(edits[j].0 != p);
                }
            }
            assert(last_kind(edits, p) == last_kind(front, p));
        }
    }
}

/// Edit `i` is followed by no edit of its path.
pub open spec fn is_last(all: Seq<(Seq<u8>, EditKind)>, i: int) -> bool {
    0 <= i < all.len() && forall|j: int| i < j < all.len() ==> (#[trigger] all[j]).0 != all[i].0
}

/// The edits that are put back after a failed commit are those that no later edit of
/// their path follows.
pub proof fn law_requeued_edits_are_the_last(
    all: Seq<(Seq<u8>, EditKind)>,
    e: (Seq<u8>, EditKind),
)
    ensures
        last_edits(all).contains(e) <==> exists|i: int| #[trigger] is_last(all, i) && all[i] == e,
    decreases all.len(),
{
    if all.len() > 0 {
        let rest = all.drop_first();
        let kept = last_edits(rest);
        law_requeued_edits_are_the_last(rest, e);
        if kept.contains(e) {
            let i = choose|i: int| #[trigger] is_last(rest, i) && rest[i] == e;
            assert(all[i + 1] == e);
            assert forall|j: int| i + 1 < j < all.len() implies (#[trigger] all[j]).0 != e.0 by {
                assert(rest[j - 1].0 != rest[i].0);
            }
            assert(is_last(all, i + 1));
        }
        if exists|i: int| #[trigger] is_last(all, i) && all[i] == e {
            let i = choose|i: int| #[trigger] is_last(all, i) && all[i] == e;
            if i > 0 {
                assert(rest[i - 1] == e);
                assert forall|j: int| i - 1 < j < rest.len() implies (#[trigger] rest[j]).0
                    != rest[i - 1].0 by {
                    assert(all[j + 1].0 != all[i].0);
                }
                assert(is_last(rest, i - 1));
            }
        }
        let again = exists|i: int| 1 <= i < all.len() && (#[trigger] all[i]).0 == all[0].0;
        if !again {
            let list = seq![all[0]] + kept;
            assert(is_last(all, 0));
            assert(list[0] == all[0]);
            if kept.contains(e) {
                let k = choose|k: int| 0 <= k < kept.len() && kept[k] == e;
                assert(list[k + 1] == e);
            }
            if list.contains(e) {
                let k = choose|k: int| 0 <= k < list.len() && list[k] == e;
                if k > 0 {
                    assert(kept[k - 1] == e);
                }
            }
        } else {
            assert(!is_last(all, 0));
        }
    }
}

} // verus!
