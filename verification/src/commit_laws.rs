//! What a commit changes, in terms of the edits and what came of the files.

use crate::commit;
use crate::commit::ChangedFile;
use crate::error::IndexError;
use crate::overlay;
use crate::overlay::{OverlayDocView, OverlayView};
use crate::path_index;
use crate::path_resolve;
use crate::paths;
use crate::pending;
use crate::pending::TakeResult;
use crate::plan_laws;
use crate::segment::reader::MmapSegment;
use crate::snapshot;
use crate::snapshot::IndexSnapshot;
use vstd::prelude::*;

verus! {

/// The index of the overlay lists a document under a gram.
pub open spec fn lists(v: OverlayView, gram: u64, id: u32) -> bool {
    v.gram_index@.contains_key(gram) && v.gram_index@[gram]@.contains(id)
}

/// Document `k` of the overlay has this path, content and grams, and is listed under
/// exactly these grams.
pub open spec fn holds(
    v: OverlayView,
    k: int,
    path: Seq<u8>,
    content: Seq<u8>,
    grams: Seq<u64>,
) -> bool {
    let d = v.docs@[k];
    &&& 0 <= k < v.docs@.len()
    &&& path_resolve::normal(d.path@) == path
    &&& d.content@ == content
    &&& d.grams@ == grams
    &&& forall|g: u64| #[trigger] lists(v, g, d.doc_id) <==> grams.contains(g)
}

/// An overlay lists every document under every gram that it holds and under no other,
/// and it lists nothing but its documents.
pub proof fn law_overlay_lists_every_gram(v: OverlayView, gram: u64, id: u32)
    requires
        v.wf(),
    ensures
        lists(v, gram, id) <==> exists|k: int|
            0 <= k < v.docs@.len() && (#[trigger] v.docs@[k]).doc_id == id
                && v.docs@[k].grams@.contains(gram),
        forall|k: int|
            0 <= k < v.docs@.len() ==> (lists(v, gram, (#[trigger] v.docs@[k]).doc_id)
                <==> v.docs@[k].grams@.contains(gram)),
{
    let docs = v.documents();
    assert forall|d: u32| lists(v, gram, d) <==> exists|k: int|
        0 <= k < v.docs@.len() && (#[trigger] v.docs@[k]).doc_id == d
            && v.docs@[k].grams@.contains(gram) by {
        assert(overlay::pairs_of(docs).contains((gram, d)) <==> lists(v, gram, d));
        if overlay::pairs_of(docs).contains((gram, d)) {
            let k = choose|k: int|
                #![trigger docs[k]]
                0 <= k < docs.len() && docs[k].doc_id == d && docs[k].grams.contains(gram);
            assert(v.docs@[k]@ == docs[k]);
        }
        if exists|k: int|
            0 <= k < v.docs@.len() && (#[trigger] v.docs@[k]).doc_id == d
                && v.docs@[k].grams@.contains(gram) {
            let k = choose|k: int|
                0 <= k < v.docs@.len() && (#[trigger] v.docs@[k]).doc_id == d
                    && v.docs@[k].grams@.contains(gram);
            assert(v.docs@[k]@ == docs[k]);
        }
    }
    assert forall|k: int| 0 <= k < v.docs@.len() implies (lists(
        v,
        gram,
        (#[trigger] v.docs@[k]).doc_id,
    ) <==> v.docs@[k].grams@.contains(gram)) by {
        let d = v.docs@[k].doc_id;
        assert(docs[k].doc_id == d);
        if lists(v, gram, d) {
            let j = choose|j: int|
                0 <= j < v.docs@.len() && (#[trigger] v.docs@[j]).doc_id == d
                    && v.docs@[j].grams@.contains(gram);
            assert(docs[j].doc_id == d);
            assert(j == k);
        }
    }
}

/// A drained edit that a commit can take: its changed paths are those of the outcomes.
pub open spec fn can_commit(take: TakeResult, outcomes: Seq<ChangedFile>) -> bool {
    &&& take.newly_changed.wf()
    &&& take.newly_deleted.wf()
    &&& take.newly_changed@.disjoint(take.newly_deleted@)
    &&& outcomes.len() == take.newly_changed.paths@.len()
}

/// The path was changed or deleted.
pub open spec fn edited(take: TakeResult, p: Seq<u8>) -> bool {
    take.newly_deleted@.contains(p) || exists|i: int|
        0 <= i < take.newly_changed.paths@.len() && (#[trigger] take.newly_changed.paths@[i])@ == p
}

/// What the file at the path became: text with this content and these grams.
pub open spec fn became(
    take: TakeResult,
    outcomes: Seq<ChangedFile>,
    i: int,
    p: Seq<u8>,
    c: Seq<u8>,
    g: Seq<u64>,
) -> bool {
    &&& 0 <= i < outcomes.len()
    &&& take.newly_changed.paths@[i]@ == p
    &&& outcomes[i] matches ChangedFile::Indexed { content, grams } && content@ == c && grams@ == g
}

proof fn lemma_edited(take: TakeResult, outcomes: Seq<ChangedFile>, p: Seq<u8>)
    requires
        can_commit(take, outcomes),
    ensures
        edited(take, p) <==> take.newly_changed.seq().contains(p) || take.newly_deleted@.contains(
            p,
        ),
        take.newly_changed@.contains(p) <==> take.newly_changed.seq().contains(p),
{
    let list = take.newly_changed.seq();
    if list.contains(p) {
        let i = choose|i: int| 0 <= i < list.len() && list[i] == p;
        assert(take.newly_changed.paths@[i]@ == p);
    }
    if exists|i: int|
        0 <= i < take.newly_changed.paths@.len() && (#[trigger] take.newly_changed.paths@[i])@
            == p {
        let i = choose|i: int|
            0 <= i < take.newly_changed.paths@.len() && (#[trigger] take.newly_changed.paths@[i])@
                == p;
        assert(list[i] == p);
    }
}

/// After a commit, every changed file that is text is in the overlay with its content
/// and all its grams; a path that was not edited shows what it showed; and the overlay
/// holds nothing else. So a deleted path, and a changed one whose file is gone or is
/// left out, is not in it.
pub proof fn law_commit_shows_every_edit(
    snap: IndexSnapshot,
    take: TakeResult,
    outcomes: Seq<ChangedFile>,
    s: IndexSnapshot,
    p: Seq<u8>,
    c: Seq<u8>,
    g: Seq<u64>,
)
    requires
        can_commit(take, outcomes),
        commit::is_commit(snap, take, outcomes, Ok::<IndexSnapshot, IndexError>(s)),
        snap.wf(),
    ensures
        (exists|k: int| #[trigger] holds(s.overlay, k, p, c, g)) <==> (exists|i: int| #[trigger]
            became(take, outcomes, i, p, c, g)) || (!edited(take, p) && exists|k: int| #[trigger]
            holds(snap.overlay, k, p, c, g)),
{
    let list = take.newly_changed.seq();
    let limit = commit::id_limit(snap.segs(), snap.base.base_ids@, snap.segs().len())->Ok_0;
    let docs = s.overlay.documents();
    commit::law_commit_shows_the_edits(
        snap.overlay,
        limit,
        list,
        outcomes,
        take.newly_deleted@,
        docs,
        p,
        c,
        g,
    );
    lemma_edited(take, outcomes, p);
    lemma_holds(s.overlay, p, c, g);
    lemma_holds(snap.overlay, p, c, g);
    if commit::reads(list, outcomes, list.len(), p, c, g) {
        let i = choose|i: int|
            #![trigger outcomes[i]]
            0 <= i < list.len() && list[i] == p && (outcomes[i] matches ChangedFile::Indexed {
                content,
                grams,
            } && content@ == c && grams@ == g);
        assert(became(take, outcomes, i, p, c, g));
    }
    if exists|i: int| #[trigger] became(take, outcomes, i, p, c, g) {
        let i = choose|i: int| #[trigger] became(take, outcomes, i, p, c, g);
        assert(list[i] == p);
        assert(outcomes[i] is Indexed);
        assert(commit::reads(list, outcomes, list.len(), p, c, g));
    }
}

proof fn lemma_holds(v: OverlayView, p: Seq<u8>, c: Seq<u8>, g: Seq<u64>)
    requires
        v.wf(),
    ensures
        commit::shows(v.documents(), p, c, g) <==> exists|k: int| #[trigger] holds(v, k, p, c, g),
{
    let docs = v.documents();
    if commit::shows(docs, p, c, g) {
        let k = choose|k: int|
            0 <= k < docs.len() && path_resolve::normal((#[trigger] docs[k]).path) == p
                && docs[k].content == c && docs[k].grams == g;
        let d = v.docs@[k];
        assert(docs[k] == d@);
        assert forall|gram: u64| #[trigger] lists(v, gram, d.doc_id) <==> g.contains(gram) by {
            law_overlay_lists_every_gram(v, gram, d.doc_id);
        }
        assert(holds(v, k, p, c, g));
    }
    if exists|k: int| #[trigger] holds(v, k, p, c, g) {
        let k = choose|k: int| #[trigger] holds(v, k, p, c, g);
        assert(docs[k] == v.docs@[k]@);
        assert(path_resolve::normal(docs[k].path) == p);
    }
}

/// A commit deletes exactly the base documents of the edited paths, beside those that
/// were deleted before; the base itself stays as it is.
pub proof fn law_commit_deletes_what_was_edited(
    snap: IndexSnapshot,
    take: TakeResult,
    outcomes: Seq<ChangedFile>,
    s: IndexSnapshot,
    d: u32,
)
    requires
        can_commit(take, outcomes),
        commit::is_commit(snap, take, outcomes, Ok::<IndexSnapshot, IndexError>(s)),
    ensures
        s.base == snap.base,
        s.deleted().contains(d) <==> snap.deleted().contains(d) || exists|p: Seq<u8>| #[trigger]
            edited(take, p) && snap.base.path_doc_ids@.contains_key(p)
                && snap.base.path_doc_ids@[p]@.contains(d),
{
    let all = take.newly_changed@.union(take.newly_deleted@);
    let base = snap.base.path_doc_ids@;
    if pending::docs_of(base, all).contains(d) {
        let p = choose|p: Seq<u8>| #[trigger]
            all.contains(p) && base.contains_key(p) && base[p]@.contains(d);
        lemma_edited(take, outcomes, p);
        assert(edited(take, p));
    }
    if exists|p: Seq<u8>| #[trigger]
        edited(take, p) && base.contains_key(p) && base[p]@.contains(d) {
        let p = choose|p: Seq<u8>| #[trigger]
            edited(take, p) && base.contains_key(p) && base[p]@.contains(d);
        lemma_edited(take, outcomes, p);
        assert(all.contains(p));
    }
}

/// The paths of text files among the first `n`.
spec fn texts(list: Seq<Seq<u8>>, outcomes: Seq<ChangedFile>, n: int) -> Seq<Seq<u8>>
    decreases n,
{
    if n <= 0 {
        Seq::empty()
    } else if outcomes[n - 1] is Indexed {
        texts(list, outcomes, n - 1).push(list[n - 1])
    } else {
        texts(list, outcomes, n - 1)
    }
}

proof fn lemma_texts(list: Seq<Seq<u8>>, outcomes: Seq<ChangedFile>, n: int)
    requires
        0 <= n <= list.len(),
        list.len() == outcomes.len(),
        paths::ascending(list),
    ensures
        paths::ascending(texts(list, outcomes, n)),
        forall|p: Seq<u8>| #[trigger]
            texts(list, outcomes, n).contains(p) <==> exists|i: int|
                #![trigger outcomes[i]]
                0 <= i < n && list[i] == p && outcomes[i] is Indexed,
        texts(list, outcomes, n).len() == text_count(outcomes, n),
    decreases n,
{
    if n > 0 {
        lemma_texts(list, outcomes, n - 1);
        let rest = texts(list, outcomes, n - 1);
        let all = texts(list, outcomes, n);
        if outcomes[n - 1] is Indexed {
            assert forall|i: int, j: int| 0 <= i < j < all.len() implies paths::path_lt(
                #[trigger] all[i],
                #[trigger] all[j],
            ) by {
                if j < rest.len() {
                    assert(paths::path_lt(rest[i], rest[j]));
                } else {
                    assert(rest.contains(rest[i]));
                    let k = choose|k: int|
                        #![trigger outcomes[k]]
                        0 <= k < n - 1 && list[k] == rest[i] && outcomes[k] is Indexed;
                    assert(paths::path_lt(list[k], list[n - 1]));
                }
            }
        }
        assert forall|p: Seq<u8>| #[trigger] all.contains(p) <==> exists|i: int|
            #![trigger outcomes[i]]
            0 <= i < n && list[i] == p && outcomes[i] is Indexed by {
            if all.contains(p) {
                let j = choose|j: int| 0 <= j < all.len() && all[j] == p;
                if j < rest.len() {
                    assert(rest[j] == p);
                    assert(rest.contains(p));
                    let i = choose|i: int|
                        #![trigger outcomes[i]]
                        0 <= i < n - 1 && list[i] == p && outcomes[i] is Indexed;
                    assert(outcomes[i] is Indexed);
                } else {
                    assert(outcomes[n - 1] is Indexed);
                }
            }
            if exists|i: int|
                #![trigger outcomes[i]]
                0 <= i < n && list[i] == p && outcomes[i] is Indexed {
                let i = choose|i: int|
                    #![trigger outcomes[i]]
                    0 <= i < n && list[i] == p && outcomes[i] is Indexed;
                if i < n - 1 {
                    assert(rest.contains(p));
                    let j = choose|j: int| 0 <= j < rest.len() && rest[j] == p;
                    assert(all[j] == p);
                } else {
                    assert(all.last() == p);
                }
            }
        }
    }
}

/// How many of the first `n` outcomes are text.
pub open spec fn text_count(outcomes: Seq<ChangedFile>, n: int) -> nat
    decreases n,
{
    if n <= 0 {
        0
    } else {
        text_count(outcomes, n - 1) + if outcomes[n - 1] is Indexed {
            1nat
        } else {
            0
        }
    }
}

/// How many of the first `n` documents are at paths that were not edited.
pub open spec fn kept_count(docs: Seq<OverlayDocView>, take: TakeResult, n: int) -> nat
    decreases n,
{
    if n <= 0 {
        0
    } else {
        kept_count(docs, take, n - 1) + if edited(take, path_resolve::normal(docs[n - 1].path)) {
            0nat
        } else {
            1
        }
    }
}

proof fn lemma_carried_count(
    docs: Seq<OverlayDocView>,
    take: TakeResult,
    outcomes: Seq<ChangedFile>,
    n: int,
)
    requires
        can_commit(take, outcomes),
        0 <= n <= docs.len(),
    ensures
        overlay::carried(
            docs.take(n),
            take.newly_deleted@.union(commit::lost(take.newly_changed.seq(), outcomes)),
            commit::visible(take.newly_changed.seq(), outcomes),
        ).len() == kept_count(docs, take, n),
    decreases n,
{
    if n > 0 {
        lemma_carried_count(docs, take, outcomes, n - 1);
        assert(docs.take(n).drop_last() =~= docs.take(n - 1));
        assert(docs.take(n).last() == docs[n - 1]);
        let p = path_resolve::normal(docs[n - 1].path);
        lemma_edited(take, outcomes, p);
        lemma_sorted_out(take, outcomes, p);
    }
}

proof fn lemma_sorted_out(take: TakeResult, outcomes: Seq<ChangedFile>, p: Seq<u8>)
    requires
        can_commit(take, outcomes),
    ensures
        take.newly_changed.seq().contains(p) <==> commit::visible(
            take.newly_changed.seq(),
            outcomes,
        ).contains(p) || commit::lost(take.newly_changed.seq(), outcomes).contains(p),
{
    let list = take.newly_changed.seq();
    if list.contains(p) {
        let i = choose|i: int| 0 <= i < list.len() && list[i] == p;
        if outcomes[i] is Indexed {
            assert(commit::visible(list, outcomes).contains(p));
        } else {
            assert(commit::lost(list, outcomes).contains(p));
        }
    }
}

/// How many documents the overlay would hold after a commit.
pub open spec fn size_after(
    snap: IndexSnapshot,
    take: TakeResult,
    outcomes: Seq<ChangedFile>,
) -> nat {
    kept_count(snap.overlay.documents(), take, snap.overlay.docs@.len() as int) + text_count(
        outcomes,
        outcomes.len() as int,
    )
}

proof fn lemma_projected(snap: IndexSnapshot, take: TakeResult, outcomes: Seq<ChangedFile>)
    requires
        can_commit(take, outcomes),
    ensures
        ({
            let list = take.newly_changed.seq();
            let changed = commit::visible(list, outcomes);
            let removed = take.newly_deleted@.union(commit::lost(list, outcomes));
            &&& commit::projected(snap.overlay.documents(), changed, removed) == size_after(
                snap,
                take,
                outcomes,
            )
            &&& changed.len() == text_count(outcomes, outcomes.len() as int)
            &&& commit::sorted_paths(changed) == texts(list, outcomes, list.len() as int)
            &&& texts(list, outcomes, list.len() as int).to_set() == changed
        }),
{
    let list = take.newly_changed.seq();
    let docs = snap.overlay.documents();
    let changed = commit::visible(list, outcomes);
    let removed = take.newly_deleted@.union(commit::lost(list, outcomes));
    lemma_carried_count(docs, take, outcomes, docs.len() as int);
    assert(docs.take(docs.len() as int) =~= docs);
    lemma_texts(list, outcomes, list.len() as int);
    let ts = texts(list, outcomes, list.len() as int);
    assert(ts.to_set() =~= changed) by {
        assert forall|p: Seq<u8>| ts.to_set().contains(p) <==> changed.contains(p) by {
            assert(ts.contains(p) <==> changed.contains(p));
        }
    }
    assert(ts.no_duplicates()) by {
        assert forall|i: int, j: int| 0 <= i < ts.len() && 0 <= j < ts.len() && i != j implies ts[i]
            != ts[j] by {
            if ts[i] == ts[j] {
                paths::lemma_ascending_unique(ts, i, j);
            }
        }
    }
    ts.unique_seq_to_set();
    commit::lemma_one_outcome(list, outcomes);
    assert(changed.difference(removed) =~= changed) by {
        assert forall|p: Seq<u8>| changed.contains(p) implies !removed.contains(p) by {
            lemma_edited(take, outcomes, p);
            lemma_sorted_out(take, outcomes, p);
            if take.newly_deleted@.contains(p) {
                assert(take.newly_changed@.contains(p));
            }
        }
    }
    let q = commit::sorted_paths(changed);
    assert(paths::ascending(ts) && ts.to_set() == changed);
    assert(paths::ascending(q) && q.to_set() == changed);
    paths::lemma_ascending_determined(q, ts);
}

/// A commit keeps the overlay at no more than half of the base, unless there is no
/// base; and it is refused only if the overlay would be more, or if document ids run
/// out.
pub proof fn law_commit_bounds_the_overlay(
    snap: IndexSnapshot,
    take: TakeResult,
    outcomes: Seq<ChangedFile>,
    r: Result<IndexSnapshot, IndexError>,
)
    requires
        can_commit(take, outcomes),
        commit::is_commit(snap, take, outcomes, r),
        plan_laws::docs_held(snap.segs(), snap.segs().len() as int) <= u32::MAX,
    ensures
        ({
            let base = plan_laws::docs_held(snap.segs(), snap.segs().len() as int);
            let size = size_after(snap, take, outcomes);
            match r {
                Ok(s) => s.overlay.docs@.len() == size && (base == 0 || 2 * size <= base),
                Err(IndexError::OverlayFull { overlay_docs, base_docs }) => {
                    &&& base_docs == base
                    &&& 0 < base < 2 * size
                    &&& overlay_docs == size || (size > usize::MAX && overlay_docs == usize::MAX)
                },
                Err(IndexError::DocIdOverflow { .. }) => {
                    ||| exists|i: int|
                        0 <= i < snap.segs().len() && i < snap.base.base_ids@.len()
                            && snap.base.base_ids@[i] + (#[trigger] snap.segs()[i]).doc_count
                            > u32::MAX
                    ||| snap.overlay.next_doc_id + outcomes.len() > u32::MAX
                    ||| exists|i: int|
                        0 <= i < snap.segs().len() && i < snap.base.base_ids@.len()
                            && snap.base.base_ids@[i] + (#[trigger] snap.segs()[i]).doc_count + size
                            > u32::MAX
                    ||| size > u32::MAX
                },
                Err(_) => false,
            }
        }),
{
    let segs = snap.segs();
    let ids = snap.base.base_ids@;
    plan_laws::lemma_docs_held(segs, segs.len() as int);
    assert(segs.take(segs.len() as int) =~= segs);
    lemma_projected(snap, take, outcomes);
    lemma_limit(segs, ids, segs.len());
    lemma_indexed_len(take.newly_changed.seq(), outcomes, outcomes.len());
    lemma_text_count(outcomes, outcomes.len() as int);
    let docs = snap.overlay.documents();
    lemma_carried_count(docs, take, outcomes, docs.len() as int);
    assert(docs.take(docs.len() as int) =~= docs);
}

proof fn lemma_text_count(outcomes: Seq<ChangedFile>, n: int)
    requires
        0 <= n,
    ensures
        text_count(outcomes, n) <= n,
    decreases n,
{
    if n > 0 {
        lemma_text_count(outcomes, n - 1);
    }
}

proof fn lemma_indexed_len(list: Seq<Seq<u8>>, outcomes: Seq<ChangedFile>, n: nat)
    ensures
        commit::indexed(list, outcomes, n).len() == text_count(outcomes, n as int),
    decreases n,
{
    if n > 0 {
        lemma_indexed_len(list, outcomes, (n - 1) as nat);
    }
}

/// The limit is the end of some segment; the error names one whose ids do not fit.
proof fn lemma_limit(segs: Seq<MmapSegment>, ids: Seq<u32>, n: nat)
    requires
        n <= segs.len(),
    ensures
        match commit::id_limit(segs, ids, n) {
            Ok(limit) => limit == 0 || exists|i: int|
                0 <= i < n && i < ids.len() && ids[i] + (#[trigger] segs[i]).doc_count == limit,
            Err(e) => e is DocIdOverflow && exists|i: int|
                0 <= i < n && i < ids.len() && ids[i] + (#[trigger] segs[i]).doc_count > u32::MAX,
        },
    decreases n,
{
    if n > 0 {
        lemma_limit(segs, ids, (n - 1) as nat);
        assert(segs[n - 1] == segs[n - 1]);
    }
}

/// After a commit the live paths are those that were live and did not go, and those of
/// the changed files that are text. A path that stays keeps its file id, and a new one
/// takes an id that was not given out before.
pub proof fn law_commit_keeps_file_ids(
    snap: IndexSnapshot,
    take: TakeResult,
    outcomes: Seq<ChangedFile>,
    s: IndexSnapshot,
    p: Seq<u8>,
)
    requires
        can_commit(take, outcomes),
        commit::is_commit(snap, take, outcomes, Ok::<IndexSnapshot, IndexError>(s)),
        snap.path_index.next_id + outcomes.len() <= u32::MAX,
    ensures
        ({
            let before = snap.path_index.file_ids();
            let after = s.path_index.file_ids();
            let text = exists|i: int|
                #![trigger outcomes[i]]
                0 <= i < outcomes.len() && take.newly_changed.paths@[i]@ == p && outcomes[i]
                    is Indexed;
            &&& after.contains_key(p) <==> text || (before.contains_key(p) && !edited(take, p))
            &&& after.contains_key(p) && before.contains_key(p) ==> after[p] == before[p]
            &&& after.contains_key(p) && !before.contains_key(p) ==> snap.path_index.next_id
                <= after[p] < s.path_index.next_id
            &&& snap.path_index.next_id <= s.path_index.next_id
        }),
{
    let list = take.newly_changed.seq();
    let changed = commit::visible(list, outcomes);
    let removed = take.newly_deleted@.union(commit::lost(list, outcomes));
    let m = snap.path_index.file_ids().remove_keys(removed);
    let next = snap.path_index.next_id as nat;
    let ts = texts(list, outcomes, list.len() as int);
    lemma_projected(snap, take, outcomes);
    lemma_texts(list, outcomes, list.len() as int);
    lemma_text_count(outcomes, outcomes.len() as int);
    lemma_with_fresh(m, next, ts, p);
    lemma_edited(take, outcomes, p);
    lemma_sorted_out(take, outcomes, p);
    commit::lemma_one_outcome(list, outcomes);
    let text = exists|i: int|
        #![trigger outcomes[i]]
        0 <= i < outcomes.len() && take.newly_changed.paths@[i]@ == p && outcomes[i] is Indexed;
    if text {
        let i = choose|i: int|
            #![trigger outcomes[i]]
            0 <= i < outcomes.len() && take.newly_changed.paths@[i]@ == p && outcomes[i]
                is Indexed;
        assert(list[i] == p);
        assert(changed.contains(p));
        assert(ts.contains(p));
        if snap.path_index.file_ids().contains_key(p) {
            if take.newly_deleted@.contains(p) {
                assert(take.newly_changed@.contains(p));
            }
            assert(!removed.contains(p));
            assert(m.contains_key(p));
        }
    }
    if ts.contains(p) {
        let i = choose|i: int|
            #![trigger outcomes[i]]
            0 <= i < list.len() && list[i] == p && outcomes[i] is Indexed;
        assert(take.newly_changed.paths@[i]@ == p);
        assert(text);
    }
}

proof fn lemma_with_fresh(m: Map<Seq<u8>, u32>, next: nat, list: Seq<Seq<u8>>, p: Seq<u8>)
    requires
        next + list.len() <= u32::MAX,
    ensures
        ({
            let (after, n) = path_index::with_fresh(m, next, list);
            &&& next <= n <= next + list.len()
            &&& after.contains_key(p) <==> m.contains_key(p) || list.contains(p)
            &&& m.contains_key(p) ==> after[p] == m[p]
            &&& after.contains_key(p) && !m.contains_key(p) ==> next <= after[p] < n
        }),
    decreases list.len(),
{
    if list.len() > 0 {
        let front = list.drop_last();
        lemma_with_fresh(m, next, front, p);
        if list.contains(p) {
            let i = choose|i: int| 0 <= i < list.len() && list[i] == p;
            if i < front.len() {
                assert(front[i] == p);
            } else {
                assert(list.last() == p);
            }
        }
        if front.contains(p) {
            let i = choose|i: int| 0 <= i < front.len() && front[i] == p;
            assert(list[i] == p);
        }
        assert(list[list.len() - 1] == list.last());
    }
}

/// No two paths have one file id, and all ids were given out.
pub open spec fn ids_distinct(m: Map<Seq<u8>, u32>, next: nat) -> bool {
    &&& forall|p: Seq<u8>| #[trigger] m.contains_key(p) ==> m[p] < next
    &&& forall|p: Seq<u8>, q: Seq<u8>|
        #![trigger m.contains_key(p), m.contains_key(q)]
        m.contains_key(p) && m.contains_key(q) && p != q ==> m[p] != m[q]
}

proof fn lemma_fresh_distinct(m: Map<Seq<u8>, u32>, next: nat, list: Seq<Seq<u8>>)
    requires
        next + list.len() <= u32::MAX,
        ids_distinct(m, next),
    ensures
        ({
            let (after, n) = path_index::with_fresh(m, next, list);
            ids_distinct(after, n) && n <= next + list.len()
        }),
    decreases list.len(),
{
    if list.len() > 0 {
        lemma_fresh_distinct(m, next, list.drop_last());
    }
}

/// A commit leaves file ids distinct.
pub proof fn law_file_ids_stay_distinct(
    snap: IndexSnapshot,
    take: TakeResult,
    outcomes: Seq<ChangedFile>,
    s: IndexSnapshot,
)
    requires
        can_commit(take, outcomes),
        commit::is_commit(snap, take, outcomes, Ok::<IndexSnapshot, IndexError>(s)),
        snap.path_index.next_id + outcomes.len() <= u32::MAX,
        ids_distinct(snap.path_index.file_ids(), snap.path_index.next_id as nat),
    ensures
        ids_distinct(s.path_index.file_ids(), s.path_index.next_id as nat),
{
    let list = take.newly_changed.seq();
    let removed = take.newly_deleted@.union(commit::lost(list, outcomes));
    let m = snap.path_index.file_ids().remove_keys(removed);
    lemma_projected(snap, take, outcomes);
    lemma_texts(list, outcomes, list.len() as int);
    lemma_text_count(outcomes, outcomes.len() as int);
    assert forall|p: Seq<u8>| #[trigger] m.contains_key(p) implies m[p] < snap.path_index.next_id by {
        assert(snap.path_index.file_ids().contains_key(p));
    }
    assert forall|p: Seq<u8>, q: Seq<u8>|
        #![trigger m.contains_key(p), m.contains_key(q)]
        m.contains_key(p) && m.contains_key(q) && p != q implies m[p] != m[q] by {
        assert(snap.path_index.file_ids().contains_key(p));
        assert(snap.path_index.file_ids().contains_key(q));
    }
    lemma_fresh_distinct(
        m,
        snap.path_index.next_id as nat,
        texts(list, outcomes, list.len() as int),
    );
}

/// No two documents of the overlay are of one path.
pub open spec fn one_per_path(docs: Seq<OverlayDocView>) -> bool {
    forall|i: int, j: int|
        0 <= i < j < docs.len() ==> path_resolve::normal((#[trigger] docs[i]).path)
            != path_resolve::normal((#[trigger] docs[j]).path)
}

proof fn lemma_carried_one(docs: Seq<OverlayDocView>, removed: Set<Seq<u8>>, changed: Set<Seq<u8>>)
    requires
        one_per_path(docs),
    ensures
        one_per_path(overlay::carried(docs, removed, changed)),
        forall|i: int|
            0 <= i < overlay::carried(docs, removed, changed).len() ==> {
                let d = #[trigger] overlay::carried(docs, removed, changed)[i];
                docs.contains(d) && !changed.contains(path_resolve::normal(d.path))
            },
    decreases docs.len(),
{
    if docs.len() > 0 {
        let front = docs.drop_last();
        assert forall|i: int, j: int| 0 <= i < j < front.len() implies path_resolve::normal(
            (#[trigger] front[i]).path,
        ) != path_resolve::normal((#[trigger] front[j]).path) by {
            assert(front[i] == docs[i] && front[j] == docs[j]);
        }
        lemma_carried_one(front, removed, changed);
        let rest = overlay::carried(front, removed, changed);
        let all = overlay::carried(docs, removed, changed);
        assert forall|i: int| 0 <= i < all.len() implies {
            let d = #[trigger] all[i];
            docs.contains(d) && !changed.contains(path_resolve::normal(d.path))
        } by {
            if i < rest.len() {
                assert(all[i] == rest[i]);
                let k = choose|k: int| 0 <= k < front.len() && front[k] == rest[i];
                assert(docs[k] == all[i]);
            } else {
                assert(docs[docs.len() - 1] == all[i]);
            }
        }
        assert forall|i: int, j: int| 0 <= i < j < all.len() implies path_resolve::normal(
            (#[trigger] all[i]).path,
        ) != path_resolve::normal((#[trigger] all[j]).path) by {
            assert(all[i] == rest[i]);
            if j < rest.len() {
                assert(all[j] == rest[j]);
            } else {
                let k = choose|k: int| 0 <= k < front.len() && front[k] == rest[i];
                assert(docs[k] == all[i]);
                assert(docs[docs.len() - 1] == all[j]);
            }
        }
    }
}

/// The path is one of the first `n`, with a text file.
spec fn is_text(list: Seq<Seq<u8>>, outcomes: Seq<ChangedFile>, n: int, p: Seq<u8>) -> bool {
    exists|i: int|
        #![trigger outcomes[i]]
        0 <= i < n && outcomes[i] is Indexed && list[i] == p
}

proof fn lemma_indexed_one(list: Seq<Seq<u8>>, outcomes: Seq<ChangedFile>, n: nat)
    requires
        n <= list.len(),
        list.len() == outcomes.len(),
        paths::ascending(list),
        paths::all_normal(list),
    ensures
        one_per_path(commit::indexed(list, outcomes, n)),
        forall|k: int|
            0 <= k < commit::indexed(list, outcomes, n).len() ==> is_text(
                list,
                outcomes,
                n as int,
                path_resolve::normal((#[trigger] commit::indexed(list, outcomes, n)[k]).path),
            ),
    decreases n,
{
    if n > 0 {
        let m = (n - 1) as nat;
        lemma_indexed_one(list, outcomes, m);
        let rest = commit::indexed(list, outcomes, m);
        let all = commit::indexed(list, outcomes, n);
        assert(path_resolve::normal(list[n - 1]) == list[n - 1]);
        assert forall|k: int| 0 <= k < all.len() implies is_text(
            list,
            outcomes,
            n as int,
            path_resolve::normal((#[trigger] all[k]).path),
        ) by {
            if k < rest.len() {
                assert(all[k] == rest[k]);
                assert(is_text(list, outcomes, m as int, path_resolve::normal(rest[k].path)));
                let i = choose|i: int|
                    #![trigger outcomes[i]]
                    0 <= i < m && outcomes[i] is Indexed && list[i] == path_resolve::normal(
                        rest[k].path,
                    );
                assert(outcomes[i] is Indexed);
            } else {
                assert(outcomes[n - 1] is Indexed);
            }
        }
        assert forall|i: int, j: int| 0 <= i < j < all.len() implies path_resolve::normal(
            (#[trigger] all[i]).path,
        ) != path_resolve::normal((#[trigger] all[j]).path) by {
            assert(all[i] == rest[i]);
            if j < rest.len() {
                assert(all[j] == rest[j]);
            } else {
                assert(is_text(list, outcomes, m as int, path_resolve::normal(rest[i].path)));
                let k = choose|k: int|
                    #![trigger outcomes[k]]
                    0 <= k < m && outcomes[k] is Indexed && list[k] == path_resolve::normal(
                        rest[i].path,
                    );
                if list[k] == list[n - 1] {
                    paths::lemma_ascending_unique(list, k, n - 1);
                }
            }
        }
    }
}

/// The overlay never holds two documents of one path.
pub proof fn law_overlay_holds_a_path_once(
    snap: IndexSnapshot,
    take: TakeResult,
    outcomes: Seq<ChangedFile>,
    s: IndexSnapshot,
)
    requires
        can_commit(take, outcomes),
        commit::is_commit(snap, take, outcomes, Ok::<IndexSnapshot, IndexError>(s)),
        one_per_path(snap.overlay.documents()),
    ensures
        one_per_path(s.overlay.documents()),
{
    let list = take.newly_changed.seq();
    let changed = commit::visible(list, outcomes);
    let removed = take.newly_deleted@.union(commit::lost(list, outcomes));
    let docs = snap.overlay.documents();
    let kept = overlay::carried(docs, removed, changed);
    let new = commit::indexed(list, outcomes, outcomes.len());
    let after = s.overlay.documents();
    lemma_carried_one(docs, removed, changed);
    lemma_indexed_one(list, outcomes, outcomes.len());
    assert(after.len() == kept.len() + new.len());
    assert forall|i: int| 0 <= i < after.len() implies (#[trigger] after[i]).path == (if i
        < kept.len() {
        kept[i].path
    } else {
        new[i - kept.len()].path
    }) by {}
    assert forall|i: int, j: int| 0 <= i < j < after.len() implies path_resolve::normal(
        (#[trigger] after[i]).path,
    ) != path_resolve::normal((#[trigger] after[j]).path) by {
        if j < kept.len() {
            assert(path_resolve::normal(kept[i].path) != path_resolve::normal(kept[j].path));
        } else if i >= kept.len() {
            assert(path_resolve::normal(new[i - kept.len()].path) != path_resolve::normal(
                new[j - kept.len()].path,
            ));
        } else {
            let d = kept[i];
            let k = j - kept.len();
            let e = new[k];
            assert(is_text(
                list,
                outcomes,
                outcomes.len() as int,
                path_resolve::normal(new[k].path),
            ));
            let w = choose|w: int|
                #![trigger outcomes[w]]
                0 <= w < outcomes.len() && outcomes[w] is Indexed && list[w]
                    == path_resolve::normal(new[k].path);
            assert(changed.contains(path_resolve::normal(e.path)));
            assert(!changed.contains(path_resolve::normal(d.path)));
        }
    }
}

proof fn lemma_overlay_file_ids(docs: Seq<OverlayDocView>, ids: Map<Seq<u8>, u32>, k: int)
    requires
        overlay::ids_ascending(docs),
        0 <= k < docs.len(),
    ensures
        ({
            let m = snapshot::overlay_file_ids(docs, ids);
            let p = path_resolve::normal(docs[k].path);
            &&& m.contains_key(docs[k].doc_id) <==> ids.contains_key(p)
            &&& ids.contains_key(p) ==> m[docs[k].doc_id] == ids[p]
        }),
    decreases docs.len(),
{
    let front = docs.drop_last();
    if k < front.len() {
        lemma_overlay_file_ids(front, ids, k);
        assert(front[k] == docs[k]);
    } else {
        lemma_no_later_ids(front, ids, docs.last().doc_id);
    }
}

proof fn lemma_no_later_ids(docs: Seq<OverlayDocView>, ids: Map<Seq<u8>, u32>, d: u32)
    requires
        forall|i: int| 0 <= i < docs.len() ==> (#[trigger] docs[i]).doc_id < d,
    ensures
        !snapshot::overlay_file_ids(docs, ids).contains_key(d),
    decreases docs.len(),
{
    if docs.len() > 0 {
        let front = docs.drop_last();
        assert forall|i: int| 0 <= i < front.len() implies (#[trigger] front[i]).doc_id < d by {
            assert(front[i] == docs[i]);
        }
        lemma_no_later_ids(front, ids, d);
        assert(docs[docs.len() - 1].doc_id < d);
    }
}

/// After a commit every overlay document stands for the file of its path.
pub proof fn law_overlay_documents_have_their_file_id(
    snap: IndexSnapshot,
    take: TakeResult,
    outcomes: Seq<ChangedFile>,
    s: IndexSnapshot,
    k: int,
)
    requires
        can_commit(take, outcomes),
        commit::is_commit(snap, take, outcomes, Ok::<IndexSnapshot, IndexError>(s)),
        0 <= k < s.overlay.docs@.len(),
    ensures
        ({
            let p = path_resolve::normal(s.overlay.docs@[k].path@);
            let id = s.overlay.docs@[k].doc_id;
            &&& s.overlay_doc_to_file_id@.contains_key(id) <==> s.path_index.file_ids().contains_key(
                p,
            )
            &&& s.path_index.file_ids().contains_key(p) ==> s.overlay_doc_to_file_id@[id]
                == s.path_index.file_ids()[p]
        }),
{
    let docs = s.overlay.documents();
    assert(docs[k] == s.overlay.docs@[k]@);
    lemma_overlay_file_ids(docs, s.path_index.file_ids(), k);
}

} // verus!
