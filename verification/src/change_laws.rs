//! What the index makes of changes that git or a watcher reports.

use crate::batch_apply;
use crate::batch_apply::{BatchStep, ChangeBatch, ChangeKind, ChangeRecord, Roots};
use crate::commit::ReadOutcome;
use crate::delta;
use crate::delta::ChangesView;
use crate::error::IndexError;
use crate::files;
use crate::flush;
use crate::freshness;
use crate::freshness::{ChangeSet, GitFault, UpdateLimits, UpdateOutcome};
use crate::git;
use crate::path_laws;
use crate::path_resolve;
use crate::path_resolve::ParentSight;
use crate::paths;
use crate::pending::EditKind;
use crate::status_laws;
use crate::update;
use crate::update::{Entry, Sighting};
use crate::worktree_anchor::Observed;
use vstd::prelude::*;

verus! {

/// The changes of `a`, followed by those of `b`.
pub open spec fn followed_by(a: ChangesView, b: ChangesView) -> ChangesView {
    ChangesView {
        added: a.added + b.added,
        modified: a.modified + b.modified,
        deleted: a.deleted + b.deleted,
    }
}

proof fn lemma_accumulates(toks: Seq<Seq<u8>>, c: ChangesView, strict: bool)
    ensures
        delta::name_status(toks, c, strict) == (match delta::name_status(
            toks,
            delta::no_changes(),
            strict,
        ) {
            Ok(v) => Ok::<ChangesView, GitFault>(followed_by(c, v)),
            Err(f) => Err(f),
        }),
    decreases toks.len(),
{
    let none = delta::no_changes();
    if toks.len() == 0 {
        assert(followed_by(c, none) =~= c);
    } else if delta::is_kind(delta::kind_of(toks[0])) && toks.len() >= 2 {
        let rest = toks.skip(2);
        let kind = delta::kind_of(toks[0]);
        if git::safe(toks[1]) {
            let one = delta::with_change(none, kind, toks[1]);
            lemma_accumulates(rest, delta::with_change(c, kind, toks[1]), strict);
            lemma_accumulates(rest, one, strict);
            if let Ok(v) = delta::name_status(rest, none, strict) {
                assert(followed_by(delta::with_change(c, kind, toks[1]), v) =~= followed_by(
                    c,
                    followed_by(one, v),
                ));
            }
        } else if !strict {
            lemma_accumulates(rest, c, strict);
        }
    }
}

/// The one change that a record reports.
pub open spec fn one_change(kind: u8, p: Seq<u8>) -> ChangesView {
    ChangesView {
        added: if kind == 0x41 {
            seq![p]
        } else {
            Seq::empty()
        },
        modified: if kind == 0x4D || kind == 0x54 {
            seq![p]
        } else {
            Seq::empty()
        },
        deleted: if kind == 0x44 {
            seq![p]
        } else {
            Seq::empty()
        },
    }
}

proof fn lemma_two_tokens(a: Seq<u8>, b: Seq<u8>, rest: Seq<u8>)
    requires
        status_laws::is_token(a),
        status_laws::is_token(b),
    ensures
        delta::without_last_empty(
            git::tokens(status_laws::ended(a) + status_laws::ended(b) + rest),
        ) == seq![a, b] + delta::without_last_empty(git::tokens(rest)),
{
    let ea = status_laws::ended(a);
    let eb = status_laws::ended(b);
    assert(ea + eb + rest =~= ea + (eb + rest));
    lemma_one_token(a, eb + rest);
    lemma_one_token(b, rest);
    let ts = git::tokens(rest);
    assert(git::tokens(ea + eb + rest) =~= seq![a, b] + ts);
    assert((seq![a, b] + ts).last() == ts.last());
    assert((seq![a, b] + ts).drop_last() =~= seq![a, b] + ts.drop_last());
}

proof fn lemma_one_token(tok: Seq<u8>, rest: Seq<u8>)
    requires
        status_laws::is_token(tok),
    ensures
        git::tokens(status_laws::ended(tok) + rest) == seq![tok] + git::tokens(rest),
        git::tokens(rest).len() > 0,
{
    let a = status_laws::ended(tok);
    git::lemma_tokens_concat(a, rest);
    git::lemma_token_len_is(a, tok.len());
    assert(a.take(tok.len() as int) =~= tok);
    assert(a.skip(tok.len() as int + 1) =~= Seq::<u8>::empty());
    assert(git::tokens(Seq::<u8>::empty()) =~= seq![Seq::<u8>::empty()]);
    assert(git::tokens(a) =~= seq![tok, Seq::<u8>::empty()]);
    assert(git::tokens(a).drop_last() =~= seq![tok]);
}

/// A report of changes between commits is read record by record: the letter before a
/// path says whether it was added, modified or deleted, a change of type counts as
/// modified, and the path goes in front of what the rest reports. A letter that is not
/// one of these ends the reading; so does, where that is asked for, a path that leads
/// out of the repository, which is left out otherwise.
pub proof fn law_changes_are_read_one_by_one(
    status: Seq<u8>,
    p: Seq<u8>,
    rest: Seq<u8>,
    strict: bool,
)
    requires
        status_laws::is_token(status),
        status_laws::is_token(p),
        status.len() > 0,
    ensures
        ({
            let kind = status[0];
            let all = status_laws::ended(status) + status_laws::ended(p) + rest;
            let r = delta::name_status_report(all, strict);
            let after = delta::name_status_report(rest, strict);
            if kind != 0x41 && kind != 0x4D && kind != 0x54 && kind != 0x44 {
                r == Err::<ChangesView, GitFault>(GitFault::UnsupportedStatus { kind })
            } else if status_laws::inside(p).len() == 1 {
                match after {
                    Ok(v) => r == Ok::<ChangesView, GitFault>(followed_by(one_change(kind, p), v)),
                    Err(f) => r == Err::<ChangesView, GitFault>(f),
                }
            } else if strict {
                r == Err::<ChangesView, GitFault>(GitFault::UnsafePath)
            } else {
                r == after
            }
        }),
        delta::name_status_report(Seq::empty(), strict) == Ok::<ChangesView, GitFault>(
            ChangesView { added: Seq::empty(), modified: Seq::empty(), deleted: Seq::empty() },
        ),
        delta::name_status_report(status, strict) is Err,
{
    let kind = status[0];
    let none = delta::no_changes();
    let toks = delta::without_last_empty(git::tokens(rest));
    lemma_two_tokens(status, p, rest);
    status_laws::law_usable_paths_have_no_way_out(p);
    let all = seq![status, p] + toks;
    assert(all.skip(2) =~= toks);
    assert(all[0] == status && all[1] == p);
    let one = delta::with_change(none, kind, p);
    if delta::is_kind(kind) {
        assert(one =~= one_change(kind, p));
        lemma_accumulates(toks, one, strict);
    }
    let empty = Seq::<u8>::empty();
    assert(git::tokens(empty) =~= seq![empty]);
    assert(delta::without_last_empty(git::tokens(empty)) =~= Seq::<Seq<u8>>::empty());
    git::lemma_token_len_is(status, status.len());
    assert(git::tokens(status) =~= seq![status]);
    assert(delta::without_last_empty(git::tokens(status)) =~= seq![status]);
}

/// The changed paths are those that were added, modified or deleted.
pub proof fn law_changed_paths_are_those_reported(c: ChangesView, p: Seq<u8>)
    ensures
        c.paths().contains(p) <==> {
            ||| exists|i: int|
                0 <= i < c.added.len() && path_resolve::normal(#[trigger] c.added[i]) == p
            ||| exists|i: int|
                0 <= i < c.modified.len() && path_resolve::normal(#[trigger] c.modified[i]) == p
            ||| exists|i: int|
                0 <= i < c.deleted.len() && path_resolve::normal(#[trigger] c.deleted[i]) == p
        },
        c.count() == c.added.len() + c.modified.len() + c.deleted.len(),
{
    lemma_normals(c.added, p);
    lemma_normals(c.modified, p);
    lemma_normals(c.deleted, p);
}

proof fn lemma_normals(list: Seq<Seq<u8>>, p: Seq<u8>)
    ensures
        path_resolve::normals(list).to_set().contains(p) <==> exists|i: int|
            0 <= i < list.len() && path_resolve::normal(#[trigger] list[i]) == p,
{
    let ns = path_resolve::normals(list);
    if ns.contains(p) {
        let i = choose|i: int| 0 <= i < ns.len() && ns[i] == p;
        assert(path_resolve::normal(list[i]) == p);
    }
    if exists|i: int| 0 <= i < list.len() && path_resolve::normal(#[trigger] list[i]) == p {
        let i = choose|i: int| 0 <= i < list.len() && path_resolve::normal(#[trigger] list[i]) == p;
        assert(ns[i] == p);
    }
}

/// The files that `git status` reports as changed are those that its records name.
pub proof fn law_status_paths_are_those_reported(b: Seq<u8>, p: Seq<u8>)
    ensures
        freshness::reported_paths(b).contains(p) <==> exists|i: int|
            0 <= i < git::status_report(b).len() && path_resolve::normal(
                #[trigger] git::status_report(b)[i],
            ) == p,
{
    lemma_normals(git::status_report(b), p);
}

/// An update is made exactly if all changes are known, there are some, and no more than
/// it may take; otherwise it says which of these failed, and how much is left to do.
pub proof fn law_updates_stop_for_a_reason(changes: ChangeSet, remaining: nat, limits: UpdateLimits)
    requires
        remaining <= usize::MAX,
    ensures
        ({
            let r = update::early_outcome(changes, remaining, limits);
            let ms = changes.detect_elapsed_ms;
            let too_many = limits.max_files matches Some(max) && max < remaining;
            &&& r is None <==> changes.budget_exceeded is None && remaining > 0 && !too_many
            &&& r matches Some(o) ==> o.elapsed() == ms
            &&& changes.budget_exceeded matches Some(n) ==> r == Some(
                UpdateOutcome::BudgetExceeded { files_behind_estimate: n, detect_elapsed_ms: ms },
            )
            &&& changes.budget_exceeded is None && remaining == 0 ==> r == Some(
                UpdateOutcome::NoChanges { detect_elapsed_ms: ms },
            )
            &&& changes.budget_exceeded is None && too_many ==> (r matches Some(
                UpdateOutcome::TooManyFiles { files_behind, .. },
            ) && files_behind == remaining)
        }),
{
}

/// How many of the first `n` listed paths are not as the anchor recorded them.
pub open spec fn differing(
    anchor: Map<Seq<u8>, Observed>,
    list: Seq<Seq<u8>>,
    current: Seq<Option<Observed>>,
    n: int,
) -> nat
    decreases n,
{
    if n <= 0 {
        0
    } else {
        differing(anchor, list, current, n - 1) + if anchor.contains_key(list[n - 1])
            && current[n - 1] == Some(anchor[list[n - 1]]) {
            0nat
        } else {
            1
        }
    }
}

proof fn lemma_unflushed(
    anchor: Map<Seq<u8>, Observed>,
    list: Seq<Seq<u8>>,
    current: Seq<Option<Observed>>,
    n: int,
)
    requires
        0 <= n <= list.len(),
        list.len() == current.len(),
    ensures
        ({
            let kept = flush::unflushed(anchor, list.take(n), current.take(n));
            &&& kept.len() == differing(anchor, list, current, n)
            &&& forall|i: int|
                #![trigger differing(anchor, list, current, i)]
                0 <= i < n && !(anchor.contains_key(list[i]) && current[i] == Some(
                    anchor[list[i]],
                )) ==> differing(anchor, list, current, i) < kept.len() && kept[differing(
                    anchor,
                    list,
                    current,
                    i,
                ) as int] == list[i]
        }),
    decreases n,
{
    if n > 0 {
        lemma_unflushed(anchor, list, current, n - 1);
        assert(list.take(n).drop_last() =~= list.take(n - 1));
        assert(current.take(n).drop_last() =~= current.take(n - 1));
        assert(list.take(n).last() == list[n - 1]);
        assert(current.take(n).last() == current[n - 1]);
    }
}

/// Of the reported paths an update leaves out those whose file is still what an earlier
/// flush recorded, and keeps all others, in their order; where not all changes are known
/// it keeps all.
pub proof fn law_updates_take_what_differs(
    changes: ChangeSet,
    anchor: Map<Seq<u8>, Observed>,
    current: Seq<Option<Observed>>,
    i: int,
)
    requires
        current.len() == changes.paths.paths@.len(),
        0 <= i < current.len(),
    ensures
        ({
            let list = changes.paths.seq();
            let left = update::left_to_apply(changes, anchor, current);
            let at = differing(anchor, list, current, i);
            &&& changes.budget_exceeded is Some ==> left == list
            &&& changes.budget_exceeded is None ==> left.len() == differing(
                anchor,
                list,
                current,
                list.len() as int,
            )
            &&& changes.budget_exceeded is None && !(anchor.contains_key(list[i]) && current[i]
                == Some(anchor[list[i]])) ==> at < left.len() && left[at as int] == list[i]
        }),
{
    let list = changes.paths.seq();
    lemma_unflushed(anchor, list, current, list.len() as int);
    assert(list.take(list.len() as int) =~= list);
    assert(current.take(list.len() as int) =~= current);
    let at = differing(anchor, list, current, i);
}

/// A plain path none of whose names is `..`.
pub open spec fn stays(rel: Seq<u8>) -> bool {
    path_laws::plain(rel) && !path_resolve::components(rel).contains(seq![0x2Eu8, 0x2Eu8])
}

pub(crate) proof fn lemma_stays(rel: Seq<u8>)
    requires
        stays(rel),
    ensures
        !path_resolve::escapes(path_resolve::components(rel)),
        path_resolve::joined(path_resolve::components(rel)) == rel,
        path_resolve::components(rel).len() > 0,
        path_resolve::has_file_name(path_resolve::components(rel)),
{
    path_laws::law_plain_paths_are_normal(rel);
    path_laws::lemma_plain_joined(rel);
    let cs = path_resolve::components(rel);
    assert(path_resolve::dot_dot() =~= seq![0x2Eu8, 0x2Eu8]);
    assert forall|i: int| 0 <= i < cs.len() implies !path_resolve::leads_out(#[trigger] cs[i]) by {
        assert(!files::has_byte(cs[i], paths::SLASH));
        if cs[i] == path_resolve::root() {
            assert(cs[i][0] == paths::SLASH);
        }
        assert(cs.contains(cs[i]));
    }
    path_laws::lemma_plain_names(rel);
    assert(!path_resolve::is_void(path_resolve::names(rel)[cs.len() - 1]));
    assert(!path_resolve::leads_out(cs[cs.len() - 1]));
}

/// A path below the root, as given or resolved, names the file below the root. One that
/// goes through a symlink names the file of that name in the directory that the symlink
/// leads to.
pub proof fn law_paths_resolve_below_the_root(
    root: Seq<u8>,
    other: Seq<u8>,
    rel: Seq<u8>,
    dir: Vec<u8>,
    to: Seq<u8>,
)
    requires
        root.len() > 0,
        other.len() > 0,
        stays(rel),
        stays(to),
        dir@ == path_laws::below(other, to),
    ensures
        path_resolve::resolved(path_laws::below(root, rel), ParentSight::Plain, root, other) == Ok::<
            Seq<u8>,
            Seq<u8>,
        >(rel),
        path_resolve::stripped(path_laws::below(other, rel), root) is None
            ==> path_resolve::resolved(
            path_laws::below(other, rel),
            ParentSight::Plain,
            root,
            other,
        ) == Ok::<Seq<u8>, Seq<u8>>(rel),
        path_resolve::resolved(path_laws::below(root, rel), ParentSight::Linked(dir), root, other)
            == Ok::<Seq<u8>, Seq<u8>>(
            path_laws::below(to, path_resolve::components(rel).last()),
        ),
{
    let cs = path_resolve::components(rel);
    lemma_stays(rel);
    lemma_stays(to);
    path_laws::law_components_follow_the_directory(root, rel);
    path_laws::law_components_follow_the_directory(other, rel);
    path_laws::law_components_follow_the_directory(other, to);
    lemma_stripped(root, rel);
    lemma_stripped(other, rel);
    lemma_stripped(other, to);
    let ts = path_resolve::components(to);
    let all = ts.push(cs.last());
    path_laws::lemma_plain_joined(to);
    assert(all.drop_last() =~= ts);
    if all.len() == 2 {
        assert(all[0] == ts[0]);
        if ts[0] == path_resolve::root() {
            assert(ts[0][0] == paths::SLASH);
            assert(files::has_byte(ts[0], paths::SLASH));
        }
    }
    assert(path_resolve::joined(all) == path_laws::below(to, cs.last()));
}

pub(crate) proof fn lemma_stripped(root: Seq<u8>, rel: Seq<u8>)
    requires
        root.len() > 0,
        path_laws::plain(rel),
    ensures
        path_resolve::stripped(path_laws::below(root, rel), root) == Some(
            path_resolve::components(rel),
        ),
{
    path_laws::law_components_follow_the_directory(root, rel);
    let a = path_resolve::components(path_laws::below(root, rel));
    let b = path_resolve::components(root);
    assert(a.skip(b.len() as int) =~= path_resolve::components(rel));
}

/// A path that is below neither root, or that has a `..` below it, is refused, and so is
/// one that goes through a symlink out of the repository.
pub proof fn law_paths_outside_are_refused(
    path: Seq<u8>,
    parent: ParentSight,
    root: Seq<u8>,
    other: Seq<u8>,
)
    ensures
        path_resolve::stripped(path, root) is None && path_resolve::stripped(path, other) is None
            ==> path_resolve::resolved(path, parent, root, other) == Err::<Seq<u8>, Seq<u8>>(path),
        path_resolve::stripped(path, root) matches Some(cs) && cs.contains(
            seq![0x2Eu8, 0x2Eu8],
        ) ==> path_resolve::resolved(path, parent, root, other) == Err::<Seq<u8>, Seq<u8>>(path),
        parent matches ParentSight::Linked(dir) ==> path_resolve::stripped(dir@, other) is None
            ==> path_resolve::resolved(path, parent, root, other) is Err,
{
    if let Some(cs) = path_resolve::stripped(path, root) {
        assert(path_resolve::dot_dot() =~= seq![0x2Eu8, 0x2Eu8]);
        if cs.contains(seq![0x2Eu8, 0x2Eu8]) {
            let i = choose|i: int| 0 <= i < cs.len() && cs[i] == seq![0x2Eu8, 0x2Eu8];
            assert(path_resolve::leads_out(cs[i]));
        }
    }
}

/// A path that git reports is edited as what stands at it: deleted if nothing does, else
/// changed, under its own path, or under the path that it resolves to. It is skipped if
/// it resolves to a place outside of the repository, or if the way to it could not be
/// looked at.
pub proof fn law_reported_paths_are_edited(
    root: Seq<u8>,
    rel: Seq<u8>,
    s: Sighting,
    to: Seq<u8>,
)
    requires
        root.len() > 0,
        root.last() != 0x2F,
        stays(rel),
        stays(to),
    ensures
        s.parent is None ==> update::edit_of(rel, s, root, root) is None,
        s.parent == Some(ParentSight::Plain) ==> match s.entry {
            Entry::Gone => update::edit_of(rel, s, root, root) == Some((rel, EditKind::Deleted)),
            Entry::Unresolvable => update::edit_of(rel, s, root, root) == Some(
                (rel, EditKind::Changed),
            ),
            Entry::Resolved(q) => {
                &&& q@ == path_laws::below(root, to) ==> update::edit_of(rel, s, root, root)
                    == Some((to, EditKind::Changed))
                &&& path_resolve::stripped(q@, root) is None ==> update::edit_of(
                    rel,
                    s,
                    root,
                    root,
                ) is None
            },
        },
{
    assert(path_resolve::path_in(root, rel) =~= path_laws::below(root, rel));
    lemma_stripped(root, rel);
    lemma_stripped(root, to);
    lemma_stays(rel);
    lemma_stays(to);
}

/// How many of the first `n` reported paths lead to an edit.
pub open spec fn edited_before(
    list: Seq<Seq<u8>>,
    sights: Seq<Sighting>,
    repo_root: Seq<u8>,
    canonical_root: Seq<u8>,
    n: int,
) -> nat
    decreases n,
{
    if n <= 0 {
        0
    } else {
        edited_before(list, sights, repo_root, canonical_root, n - 1) + if update::edit_of(
            list[n - 1],
            sights[n - 1],
            repo_root,
            canonical_root,
        ) is Some {
            1nat
        } else {
            0
        }
    }
}

proof fn lemma_edits(
    list: Seq<Seq<u8>>,
    sights: Seq<Sighting>,
    repo_root: Seq<u8>,
    canonical_root: Seq<u8>,
    n: int,
)
    requires
        0 <= n <= list.len(),
        list.len() == sights.len(),
    ensures
        ({
            let edits = update::edits_of(list.take(n), sights.take(n), repo_root, canonical_root);
            &&& edits.len() == edited_before(list, sights, repo_root, canonical_root, n)
            &&& forall|i: int|
                #![trigger edited_before(list, sights, repo_root, canonical_root, i)]
                0 <= i < n ==> (update::edit_of(
                    list[i],
                    sights[i],
                    repo_root,
                    canonical_root,
                ) matches Some(e) ==> edited_before(list, sights, repo_root, canonical_root, i)
                    < edits.len() && edits[edited_before(
                    list,
                    sights,
                    repo_root,
                    canonical_root,
                    i,
                ) as int] == e)
        }),
    decreases n,
{
    if n > 0 {
        lemma_edits(list, sights, repo_root, canonical_root, n - 1);
        assert(list.take(n).drop_last() =~= list.take(n - 1));
        assert(sights.take(n).drop_last() =~= sights.take(n - 1));
        assert(list.take(n).last() == list[n - 1]);
        assert(sights.take(n).last() == sights[n - 1]);
    }
}

/// An update edits every reported path that leads to an edit, once and in order, and
/// nothing else.
pub proof fn law_updates_edit_every_path(
    list: Seq<Seq<u8>>,
    sights: Seq<Sighting>,
    repo_root: Seq<u8>,
    canonical_root: Seq<u8>,
    i: int,
)
    requires
        list.len() == sights.len(),
        0 <= i < list.len(),
    ensures
        ({
            let edits = update::edits_of(list, sights, repo_root, canonical_root);
            let at = edited_before(list, sights, repo_root, canonical_root, i);
            &&& edits.len() == edited_before(
                list,
                sights,
                repo_root,
                canonical_root,
                list.len() as int,
            )
            &&& update::edit_of(list[i], sights[i], repo_root, canonical_root) matches Some(e)
                ==> at < edits.len() && edits[at as int] == e
        }),
{
    lemma_edits(list, sights, repo_root, canonical_root, list.len() as int);
    assert(list.take(list.len() as int) =~= list);
    assert(sights.take(list.len() as int) =~= sights);
    let at = edited_before(list, sights, repo_root, canonical_root, i);
}

/// A change that calls for an edit: the file was added, modified or deleted.
pub open spec fn is_edit(c: ChangeRecord) -> bool {
    c.kind == ChangeKind::Added || c.kind == ChangeKind::Modified || c.kind == ChangeKind::Deleted
}

/// How many of the first `n` changes call for an edit.
pub open spec fn edits_before(records: Seq<ChangeRecord>, n: int) -> nat
    decreases n,
{
    if n <= 0 {
        0
    } else {
        edits_before(records, n - 1) + if is_edit(records[n - 1]) {
            1nat
        } else {
            0
        }
    }
}

proof fn lemma_change_edits(
    records: Seq<ChangeRecord>,
    parents: Seq<ParentSight>,
    n: nat,
    roots: Roots,
)
    requires
        n <= records.len(),
        forall|k: int|
            0 <= k < n ==> batch_apply::change_path(#[trigger] records[k], parents[k], roots) is Ok,
    ensures
        ({
            let edits = batch_apply::change_edits(records, parents, n, roots);
            &&& edits.len() == edits_before(records, n as int)
            &&& forall|i: int|
                #![trigger edits_before(records, i)]
                0 <= i < n && is_edit(records[i]) ==> edits_before(records, i) < edits.len()
                    && edits[edits_before(records, i) as int] == (
                    batch_apply::change_path(records[i], parents[i], roots)->Ok_0,
                    if records[i].kind == ChangeKind::Deleted {
                        EditKind::Deleted
                    } else {
                        EditKind::Changed
                    },
                )
        }),
    decreases n,
{
    if n > 0 {
        lemma_change_edits(records, parents, (n - 1) as nat, roots);
        assert(batch_apply::change_path(records[n - 1], parents[n - 1], roots) is Ok);
    }
}

/// A batch of observed changes buffers an edit for each file that was added, modified or
/// deleted, in the order of the changes and under its path, and for no other: a file that
/// was only touched, did not change, or has to be looked at again is not edited. The
/// step carries the generation of the batch, and says to commit exactly if there is an
/// edit.
pub proof fn law_batches_edit_what_changed(
    r: Result<BatchStep, IndexError>,
    batch: ChangeBatch,
    parents: Seq<ParentSight>,
    roots: Roots,
    before: Seq<(Seq<u8>, EditKind)>,
    after: Seq<(Seq<u8>, EditKind)>,
    i: int,
)
    requires
        batch_apply::is_buffered(r, batch, parents, roots, before, after),
        r is Ok,
        0 <= i < batch.records@.len(),
    ensures
        ({
            let records = batch.records@;
            let n = edits_before(records, records.len() as int);
            let at = before.len() + edits_before(records, i);
            let p = records[i].path@;
            &&& after.len() == before.len() + n
            &&& after.take(before.len() as int) == before
            &&& is_edit(records[i]) ==> at < after.len() && after[at as int].1 == (
            if records[i].kind == ChangeKind::Deleted {
                EditKind::Deleted
            } else {
                EditKind::Changed
            })
            &&& is_edit(records[i]) && path_laws::plain(p) ==> after[at as int].0 == p
            &&& is_edit(records[i]) && p.len() > 0 && p[0] == 0x2F ==> path_resolve::resolved(
                p,
                parents[i],
                roots.repo_root,
                roots.canonical_root,
            ) == Ok::<Seq<u8>, Seq<u8>>(after[at as int].0)
            &&& is_edit(records[i]) && !(p.len() > 0 && p[0] == 0x2F) ==> after[at as int].0
                == path_resolve::normal(p)
            &&& is_edit(records[i]) && roots.repo_root.len() > 0 && parents[i]
                == ParentSight::Plain ==> forall|rel: Seq<u8>|
                stays(rel) && p == #[trigger] path_laws::below(roots.repo_root, rel) && p[0] == 0x2F
                    ==> after[at as int].0 == rel
            &&& match r {
                Ok(BatchStep::Done { generation }) => n == 0 && generation == batch.generation,
                Ok(BatchStep::Commit { generation, .. }) => n > 0 && generation
                    == batch.generation,
                Err(_) => false,
            }
        }),
{
    let records = batch.records@;
    lemma_change_edits(records, parents, records.len(), roots);
    let edits = batch_apply::change_edits(records, parents, records.len(), roots);
    assert(after == before + edits);
    assert(after.take(before.len() as int) =~= before);
    let p = records[i].path@;
    let at = before.len() + edits_before(records, i);
    assert(batch_apply::change_path(records[i], parents[i], roots) is Ok);
    if is_edit(records[i]) {
        assert(after[at as int] == edits[edits_before(records, i) as int]);
        if path_laws::plain(p) {
            path_laws::law_plain_paths_are_normal(p);
        }
        if roots.repo_root.len() > 0 && parents[i] == ParentSight::Plain {
            assert forall|rel: Seq<u8>|
                stays(rel) && p == #[trigger] path_laws::below(roots.repo_root, rel) && p[0]
                    == 0x2F implies after[at as int].0 == rel by {
                lemma_stripped(roots.repo_root, rel);
                lemma_stays(rel);
            }
        }
    }
}

/// Record `i` brings the content of this path.
pub open spec fn brings(
    records: Seq<ChangeRecord>,
    parents: Seq<ParentSight>,
    roots: Roots,
    i: int,
    p: Seq<u8>,
) -> bool {
    &&& records[i].kind == ChangeKind::Added || records[i].kind == ChangeKind::Modified
    &&& records[i].content is Some
    &&& batch_apply::change_path(records[i], parents[i], roots) == Ok::<Seq<u8>, Seq<u8>>(p)
}

proof fn lemma_contents(
    records: Seq<ChangeRecord>,
    parents: Seq<ParentSight>,
    n: nat,
    roots: Roots,
    p: Seq<u8>,
)
    requires
        n <= records.len(),
    ensures
        ({
            let m = batch_apply::change_contents(records, parents, n, roots);
            &&& m.contains_key(p) ==> exists|i: int|
                0 <= i < n && #[trigger] brings(records, parents, roots, i, p)
            &&& forall|i: int|
                0 <= i < n && #[trigger] brings(records, parents, roots, i, p) && (forall|k: int|
                    i < k < n ==> !#[trigger] brings(records, parents, roots, k, p))
                    ==> m.contains_key(p) && m[p] == (records[i].content->0)@
        }),
    decreases n,
{
    if n > 0 {
        lemma_contents(records, parents, (n - 1) as nat, roots, p);
        let m = batch_apply::change_contents(records, parents, n, roots);
        if m.contains_key(p) {
            if brings(records, parents, roots, n - 1, p) {
            } else {
                let i = choose|i: int|
                    0 <= i < n - 1 && #[trigger] brings(records, parents, roots, i, p);
                assert(brings(records, parents, roots, i, p));
            }
        }
        assert forall|i: int|
            0 <= i < n && #[trigger] brings(records, parents, roots, i, p) && (forall|k: int|
                i < k < n ==> !#[trigger] brings(records, parents, roots, k, p)) implies m.contains_key(
            p,
        ) && m[p] == (records[i].content->0)@ by {
            if i < n - 1 {
                assert(!brings(records, parents, roots, n - 1, p));
            }
        }
    }
}

/// Of the contents that came with a batch, the last one of a path counts, and a path
/// without one is read.
pub proof fn law_last_content_counts(
    records: Seq<ChangeRecord>,
    parents: Seq<ParentSight>,
    roots: Roots,
    p: Seq<u8>,
)
    ensures
        ({
            let m = batch_apply::change_contents(records, parents, records.len(), roots);
            &&& m.contains_key(p) ==> exists|i: int|
                0 <= i < records.len() && #[trigger] brings(records, parents, roots, i, p)
            &&& forall|i: int|
                0 <= i < records.len() && #[trigger] brings(records, parents, roots, i, p) && (
                forall|k: int|
                    i < k < records.len() ==> !#[trigger] brings(records, parents, roots, k, p))
                    ==> m.contains_key(p) && m[p] == (records[i].content->0)@
        }),
{
    lemma_contents(records, parents, records.len(), roots, p);
}

proof fn lemma_not_loaded(list: Seq<Seq<u8>>, loaded: Map<Seq<u8>, Seq<u8>>, n: int, j: int) -> (i:
    int)
    requires
        0 <= n <= list.len(),
        0 <= j < batch_apply::not_loaded(list.take(n), loaded).len(),
    ensures
        0 <= i < n,
        list[i] == batch_apply::not_loaded(list.take(n), loaded)[j],
        !loaded.contains_key(list[i]),
        batch_apply::not_loaded(list.take(i), loaded).len() == j,
    decreases n,
{
    if n == 0 {
        0
    } else {
        assert(list.take(n).drop_last() =~= list.take(n - 1));
        assert(list.take(n).last() == list[n - 1]);
        if j < batch_apply::not_loaded(list.take(n - 1), loaded).len() {
            lemma_not_loaded(list, loaded, n - 1, j)
        } else {
            n - 1
        }
    }
}

proof fn lemma_loaded_out(list: Seq<Seq<u8>>, loaded: Map<Seq<u8>, Seq<u8>>, n: int, i: int)
    requires
        0 <= i < n <= list.len(),
        !loaded.contains_key(list[i]),
    ensures
        batch_apply::not_loaded(list.take(n), loaded).contains(list[i]),
    decreases n,
{
    assert(list.take(n).drop_last() =~= list.take(n - 1));
    assert(list.take(n).last() == list[n - 1]);
    let all = batch_apply::not_loaded(list.take(n), loaded);
    let rest = batch_apply::not_loaded(list.take(n - 1), loaded);
    if i < n - 1 {
        lemma_loaded_out(list, loaded, n - 1, i);
        let k = choose|k: int| 0 <= k < rest.len() && rest[k] == list[i];
        assert(all[k] == list[i]);
    } else {
        assert(all.last() == list[i]);
    }
}

/// The changed paths that are read are those without a content in the batch; what was
/// read of a path, and the content that came for it, is what is known of that path.
pub proof fn law_reads_go_to_their_paths(
    r: Seq<ReadOutcome>,
    list: Seq<Seq<u8>>,
    loaded: Map<Seq<u8>, Seq<u8>>,
    read: Seq<ReadOutcome>,
)
    requires
        batch_apply::merged(r, list, loaded, read),
        read.len() == batch_apply::not_loaded(list, loaded).len(),
    ensures
        ({
            let asked = batch_apply::not_loaded(list, loaded);
            &&& r.len() == list.len()
            &&& forall|i: int|
                0 <= i < list.len() ==> (loaded.contains_key(#[trigger] list[i]) ==> (
                r[i] matches ReadOutcome::Read(b) && b@ == loaded[list[i]]))
            &&& forall|i: int|
                0 <= i < list.len() ==> (!loaded.contains_key(#[trigger] list[i])
                    ==> asked.contains(list[i]))
            &&& forall|j: int|
                0 <= j < asked.len() ==> exists|i: int|
                    0 <= i < list.len() && #[trigger] list[i] == #[trigger] asked[j]
                        && !loaded.contains_key(list[i]) && r[i] == read[j]
        }),
{
    let asked = batch_apply::not_loaded(list, loaded);
    let n = list.len() as int;
    assert(list.take(n) =~= list);
    assert forall|i: int|
        0 <= i < list.len() && !loaded.contains_key(#[trigger] list[i]) implies asked.contains(
        list[i],
    ) by {
        lemma_loaded_out(list, loaded, n, i);
    }
    assert forall|j: int| 0 <= j < asked.len() implies exists|i: int|
        0 <= i < list.len() && #[trigger] list[i] == #[trigger] asked[j] && !loaded.contains_key(
            list[i],
        ) && r[i] == read[j] by {
        let i = lemma_not_loaded(list, loaded, n, j);
        assert(r[i] == read[batch_apply::not_loaded(list.take(i), loaded).len() as int]);
        assert(list[i] == asked[j]);
    }
}

/// A change outside of the repository ends a batch; the changes before it stay buffered, and
/// the error names its path.
pub proof fn law_stray_changes_end_the_batch(
    e: IndexError,
    batch: ChangeBatch,
    parents: Seq<ParentSight>,
    roots: Roots,
    before: Seq<(Seq<u8>, EditKind)>,
    after: Seq<(Seq<u8>, EditKind)>,
) -> (i: int)
    requires
        batch_apply::is_buffered(
            Err::<BatchStep, IndexError>(e),
            batch,
            parents,
            roots,
            before,
            after,
        ),
    ensures
        0 <= i < batch.records@.len(),
        path_resolve::resolved(
            batch.records@[i].path@,
            parents[i],
            roots.repo_root,
            roots.canonical_root,
        ) is Err,
        batch.records@[i].path@.len() > 0 && batch.records@[i].path@[0] == 0x2F,
        after.len() == before.len() + edits_before(batch.records@, i),
        after.take(before.len() as int) == before,
        e is PathOutsideRepo,
{
    let records = batch.records@;
    let i = choose|i: int|
        {
            &&& #[trigger] batch_apply::first_stray(records, parents, i, roots)
            &&& after == before + batch_apply::change_edits(records, parents, i as nat, roots)
            &&& e matches IndexError::PathOutsideRepo(p) && Err::<Seq<u8>, Seq<u8>>(p@)
                == batch_apply::change_path(records[i], parents[i], roots)
        };
    lemma_change_edits(records, parents, i as nat, roots);
    assert(after.take(before.len() as int) =~= before);
    i
}

/// A reported path whose file does not resolve, or is gone, is edited under the path that it
/// has in the repository, through whatever directories lead to it; and one that resolves,
/// under the path of what it resolves to. It is skipped where that path is refused.
pub proof fn law_edits_follow_the_way_to_a_file(
    rel: Seq<u8>,
    s: Sighting,
    parent: ParentSight,
    repo_root: Seq<u8>,
    canonical_root: Seq<u8>,
)
    requires
        s.parent == Some(parent),
        canonical_root.len() > 0,
        canonical_root.last() != 0x2F,
        rel.len() > 0,
        rel[0] != 0x2F,
    ensures
        ({
            let here = path_resolve::resolved(
                path_laws::below(canonical_root, rel),
                parent,
                repo_root,
                canonical_root,
            );
            let r = update::edit_of(rel, s, repo_root, canonical_root);
            match s.entry {
                Entry::Gone => match here {
                    Ok(p) => r == Some((p, EditKind::Deleted)),
                    Err(_) => r is None,
                },
                Entry::Unresolvable => match here {
                    Ok(p) => r == Some((p, EditKind::Changed)),
                    Err(_) => r is None,
                },
                Entry::Resolved(q) => match path_resolve::resolved(
                    q@,
                    parent,
                    repo_root,
                    canonical_root,
                ) {
                    Ok(p) => path_resolve::stripped(q@, canonical_root) is Some ==> r == Some(
                        (p, EditKind::Changed),
                    ),
                    Err(_) => r is None,
                },
            }
        }),
{
    assert(path_resolve::path_in(canonical_root, rel) =~= path_laws::below(canonical_root, rel));
}

} // verus!
