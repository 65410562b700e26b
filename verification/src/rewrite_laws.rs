//! What flushes and compactions write, in terms of the documents that were there.

use crate::bitmap;
use crate::build_laws;
use crate::commit;
use crate::compact;
use crate::compact_index;
use crate::compact_index::{NewSegment, WrittenIndex};
use crate::compact_laws;
use crate::compact_plan;
use crate::compact_plan::CompactionPlan;
use crate::deletes_idx;
use crate::error::{Corruption, IndexError};
use crate::flush;
use crate::flush::{AnchorView, FlushAnchor, FlushedIndex};
use crate::hash;
use crate::manifest;
use crate::manifest::{Manifest, SegmentRef};
use crate::open;
use crate::overlay;
use crate::overlay::OverlayDocView;
use crate::paths;
use crate::plan_laws;
use crate::posting;
use crate::posting::PostingList;
use crate::reopen_laws;
use crate::segment::layout::DocView;
use crate::segment::reader;
use crate::segment::reader::{DictVerify, MmapSegment, SegmentLayout};
use crate::segment::writer;
use crate::segment::writer::SegmentError;
use crate::snapshot;
use crate::snapshot::IndexSnapshot;
use vstd::prelude::*;

verus! {

/// An overlay document as it is stored under an id: with its path, the hash of its
/// content and the length of its content.
pub open spec fn stored_overlay(d: OverlayDocView, id: int) -> DocView {
    DocView {
        doc_id: id as u32,
        content_hash: hash::xxh64_of(d.content, 0),
        size_bytes: d.content.len() as u64,
        path: d.path,
    }
}

/// A flush writes every document of the overlay: document `k` is in the new segment
/// with its path, content hash and size, is listed under each of its grams and under no
/// other, and has the id that is `k` above that of the first one. The segments of
/// before stay as they are.
pub proof fn law_flush_writes_every_document(
    s: IndexSnapshot,
    previous: Manifest,
    anchor: FlushAnchor,
    inputs: AnchorView,
    created_at: u64,
    w: FlushedIndex,
    k: int,
)
    requires
        s.wf(),
        flush::is_flush(Ok::<FlushedIndex, IndexError>(w), s, previous, anchor, inputs, created_at),
        0 <= k < s.overlay.docs@.len(),
    ensures
        w.files@.len() == 1,
        w.manifest.segments@.len() == previous.segments@.len() + 1,
        w.manifest.segments@.last().doc_count == s.overlay.docs@.len(),
        w.manifest.segments@.last().base_doc_id == Some(s.overlay.docs@[0].doc_id),
        build_laws::serves(
            w.files@[0],
            k,
            stored_overlay(s.overlay.docs@[k]@, s.overlay.docs@[0].doc_id + k),
            s.overlay.docs@[k].grams@,
        ),
{
    let docs = s.overlay.documents();
    let first = docs[0].doc_id;
    let closed = flush::closed_up(docs);
    let list = flush::entries(closed);
    let n = previous.segments@.len() as int;
    let r = w.manifest.segments@[n];
    let f = w.files@[0];
    let ps = choose|ps: Seq<(u64, u32)>| #[trigger]
        compact_index::is_written(r@, f, list, ps, first) && flush::lists_pairs(ps, closed);
    assert(docs[k] == s.overlay.docs@[k]@);
    assert(docs[0] == s.overlay.docs@[0]@);
    assert forall|i: int| 0 <= i < list.len() implies (#[trigger] list[i]).doc_id == first + i by {
        flush::lemma_ids_at_least(docs, i);
    }
    let d = stored_overlay(docs[k], first + k);
    assert(list[k] == d);
    let grams = docs[k].grams;
    assert forall|gram: u64| ps.contains((gram, d.doc_id)) <==> grams.contains(gram) by {
        assert(ps.contains((gram, d.doc_id)) <==> overlay::pairs_of(closed).contains(
            (gram, d.doc_id),
        ));
        assert(closed[k].grams == grams && closed[k].doc_id == d.doc_id);
        if overlay::pairs_of(closed).contains((gram, d.doc_id)) {
            let i = choose|i: int|
                #![trigger closed[i]]
                0 <= i < closed.len() && closed[i].doc_id == d.doc_id && closed[i].grams.contains(
                    gram,
                );
            assert(i == k);
        }
    }
    lemma_serves(r, f, list, ps, first, k, grams);
}

/// A document of a written segment is served.
proof fn lemma_serves(
    r: SegmentRef,
    f: NewSegment,
    docs: Seq<DocView>,
    ps: Seq<(u64, u32)>,
    first: u32,
    at: int,
    grams: Seq<u64>,
)
    requires
        compact_index::is_written(r@, f, docs, ps, first),
        forall|k: int| 0 <= k < docs.len() ==> (#[trigger] docs[k]).doc_id == first + k,
        0 <= at < docs.len(),
        forall|gram: u64| ps.contains((gram, docs[at].doc_id)) <==> grams.contains(gram),
    ensures
        build_laws::serves(f, at, docs[at], grams),
{
    let d = docs[at];
    assert(f.image.dict@.len() == f.image.dict.len());
    assert forall|versions: Seq<u32>, verify: DictVerify, l: SegmentLayout|
        #[trigger] reader::layout_of(f.image.dict@, versions, verify) == Ok::<
            SegmentLayout,
            Corruption,
        >(l) implies 0 <= at < open::docs_in(f.image.dict@, l).len() && #[trigger] open::docs_in(
        f.image.dict@,
        l,
    )[at] == Some(d) by {
        build_laws::lemma_reads_back(f, docs, ps, first, versions, verify, l, at);
    }
    assert forall|
        seg: MmapSegment,
        versions: Seq<u32>,
        verify: DictVerify,
        l: SegmentLayout,
        gram: u64,
        found: Option<PostingList>,
    |
        #[trigger] reopen_laws::reads(seg, f, versions, verify, l, gram)
            && #[trigger] reader::list_of(found, seg.record_of(gram)) implies (build_laws::lists(
        found,
        d.doc_id,
    ) <==> grams.contains(gram)) by {
        build_laws::lemma_lists(
            r,
            f,
            docs,
            ps,
            first,
            seg,
            versions,
            verify,
            l,
            gram,
            found,
            d.doc_id,
        );
    }
}

/// A flush names the files of before and after: the segments of before, the delete set
/// where anything is deleted, and the commit, which moves only if the flush says so.
pub proof fn law_flush_keeps_the_index(
    s: IndexSnapshot,
    previous: Manifest,
    anchor: FlushAnchor,
    inputs: AnchorView,
    created_at: u64,
    w: FlushedIndex,
    i: int,
)
    requires
        flush::is_flush(Ok::<FlushedIndex, IndexError>(w), s, previous, anchor, inputs, created_at),
    ensures
        0 <= i < previous.segments@.len() ==> w.manifest.segments@[i]@ == previous.segments@[i]@,
        s.overlay.docs@.len() == 0 ==> w.files@.len() == 0 && w.manifest.segments@.len()
            == previous.segments@.len(),
        w.deletes is Some <==> exists|d: u32| s.deleted().contains(d),
        w.deletes matches Some(f) ==> deletes_idx::decoded(f.bytes@) == Ok::<
            Set<u32>,
            deletes_idx::SidecarError,
        >(s.deleted()),
        w.deletes matches Some(f) ==> (w.manifest.overlay_deletes_file matches Some(name) && name@
            == f.name@),
        anchor is KeepHead ==> (match (w.manifest.base_commit, previous.base_commit) {
            (Some(a), Some(b)) => a@ == b@,
            (None, None) => true,
            _ => false,
        }),
        anchor matches FlushAnchor::AdvanceHead(head) ==> (match (w.manifest.base_commit, head) {
            (Some(a), Some(b)) => a@ == b@,
            (None, None) => true,
            _ => false,
        }),
        previous.total_files_indexed + s.overlay.docs@.len() <= u32::MAX
            ==> w.manifest.total_files_indexed == previous.total_files_indexed
            + s.overlay.docs@.len(),
{
    let n = previous.segments@.len() as int;
    if 0 <= i < n {
        let a = manifest::ref_views(w.manifest.segments@);
        let b = manifest::ref_views(previous.segments@);
        assert(a.take(n)[i] == b[i]);
        assert(a[i] == w.manifest.segments@[i]@);
    }
    if !exists|d: u32| s.deleted().contains(d) {
        assert(s.deleted() =~= Set::<u32>::empty());
    }
    assert(!Set::<u32>::empty().contains(0));
    if s.deleted() == Set::<u32>::empty() {
        assert(forall|d: u32| !s.deleted().contains(d));
    }
}

/// How many of the first `n` documents of segment `g` are live.
pub open spec fn live_in(s: IndexSnapshot, g: int, n: int) -> nat
    decreases n,
{
    if n <= 0 {
        0
    } else {
        live_in(s, g, n - 1) + if s.deleted().contains((s.base.base_ids@[g] + (n - 1)) as u32) {
            0nat
        } else {
            1
        }
    }
}

/// How many documents of the segments `from..g` are live.
pub open spec fn live_between(s: IndexSnapshot, from: int, g: int) -> nat
    decreases g - from,
{
    if g <= from {
        0
    } else {
        live_between(s, from, g - 1) + live_in(s, g - 1, s.segs()[g - 1].doc_count as int)
    }
}

/// The posting list that a segment stores for a gram holds the document.
pub open spec fn stored(seg: MmapSegment, gram: u64, id: u32) -> bool {
    seg.record_of(gram) matches Some((kind, data)) && if kind == 0 {
        posting::decoded(data, 0) matches Some(ids) && ids.contains(id)
    } else {
        kind == 1 && (bitmap::parsed(data) matches Some(ids) && ids.contains(id))
    }
}

/// A lookup in a segment lists exactly what the segment stores.
pub proof fn law_lookups_list_what_is_stored(
    seg: MmapSegment,
    gram: u64,
    id: u32,
    found: Option<PostingList>,
)
    requires
        reader::list_of(found, seg.record_of(gram)),
    ensures
        build_laws::lists(found, id) ==> stored(seg, gram, id),
        stored(seg, gram, id) ==> found is Some,
        stored(seg, gram, id) && found->0 is Small ==> build_laws::lists(found, id),
{
    if build_laws::lists(found, id) {
        let p = found->0;
        let ids = choose|ids: Seq<u32>| #[trigger] posting::posting_ids(p, ids) && ids.contains(id);
        assert(ids.to_set().contains(id));
    }
    if stored(seg, gram, id) && found->0 is Small {
        let data = (seg.record_of(gram)->0).1;
        let ids = posting::decoded(data, 0)->0;
        assert(posting::posting_ids(found->0, ids));
    }
}

proof fn lemma_segment_live(
    s: IndexSnapshot,
    g: int,
    n: nat,
    room: nat,
    t: Seq<DocView>,
)
    requires
        0 <= g < s.segs().len(),
        s.base.base_ids@.len() == s.segs().len(),
        n <= s.segs()[g].doc_count,
        compact::segment_moved(
            open::segment_docs(s.segs()[g]),
            s.base.base_ids@[g],
            s.deleted(),
            g as usize,
            n,
            room,
        ) == Ok::<Seq<DocView>, IndexError>(t),
    ensures
        t.len() == live_in(s, g, n as int),
        forall|l: int|
            #![trigger live_in(s, g, l)]
            0 <= l < n && !s.deleted().contains((s.base.base_ids@[g] + l) as u32) ==> {
                &&& live_in(s, g, l) < t.len()
                &&& snapshot::doc_of(s.segs()[g], l) matches Some(d) && t[live_in(s, g, l) as int]
                    == (DocView { doc_id: (s.base.base_ids@[g] + l) as u32, ..d })
            },
    decreases n,
{
    if n > 0 {
        let docs = open::segment_docs(s.segs()[g]);
        let base = s.base.base_ids@[g];
        let before = compact::segment_moved(
            docs,
            base,
            s.deleted(),
            g as usize,
            (n - 1) as nat,
            room,
        )->Ok_0;
        lemma_segment_live(s, g, (n - 1) as nat, room, before);
        assert forall|l: int|
            #![trigger live_in(s, g, l)]
            0 <= l < n && !s.deleted().contains((base + l) as u32) implies {
            &&& live_in(s, g, l) < t.len()
            &&& snapshot::doc_of(s.segs()[g], l) matches Some(d) && t[live_in(s, g, l) as int] == (
            DocView { doc_id: (base + l) as u32, ..d })
        } by {
            if l < n - 1 {
                assert(t[live_in(s, g, l) as int] == before[live_in(s, g, l) as int]);
            } else {
                assert(docs[l] == snapshot::doc_of(s.segs()[g], l));
            }
        }
    }
}

proof fn lemma_base_live(s: IndexSnapshot, from: int, n: int, room: nat, t: Seq<DocView>)
    requires
        0 <= from,
        n <= s.segs().len(),
        s.segs().len() <= usize::MAX,
        s.base.base_ids@.len() == s.segs().len(),
        compact::base_moved(s.segs(), s.base.base_ids@, s.deleted(), from, n, room) == Ok::<
            Seq<DocView>,
            IndexError,
        >(t),
    ensures
        t.len() == live_between(s, from, n),
        forall|g: int, l: int|
            #![trigger live_in(s, g, l)]
            from <= g < n && 0 <= l < s.segs()[g].doc_count && !s.deleted().contains(
                (s.base.base_ids@[g] + l) as u32,
            ) ==> {
                let at = live_between(s, from, g) + live_in(s, g, l);
                &&& at < t.len()
                &&& snapshot::doc_of(s.segs()[g], l) matches Some(d) && t[at as int] == (DocView {
                    doc_id: (s.base.base_ids@[g] + l) as u32,
                    ..d
                })
            },
    decreases n - from,
{
    if n > from {
        let before = compact::base_moved(
            s.segs(),
            s.base.base_ids@,
            s.deleted(),
            from,
            n - 1,
            room,
        )->Ok_0;
        lemma_base_live(s, from, n - 1, room, before);
        let count = s.segs()[n - 1].doc_count as nat;
        let left = (room - before.len()) as nat;
        let more = compact::segment_moved(
            open::segment_docs(s.segs()[n - 1]),
            s.base.base_ids@[n - 1],
            s.deleted(),
            (n - 1) as usize,
            count,
            left,
        )->Ok_0;
        lemma_segment_live(s, n - 1, count, left, more);
        assert(t == before + more);
        assert forall|g: int, l: int|
            #![trigger live_in(s, g, l)]
            from <= g < n && 0 <= l < s.segs()[g].doc_count && !s.deleted().contains(
                (s.base.base_ids@[g] + l) as u32,
            ) implies {
            let at = live_between(s, from, g) + live_in(s, g, l);
            &&& at < t.len()
            &&& snapshot::doc_of(s.segs()[g], l) matches Some(d) && t[at as int] == (DocView {
                doc_id: (s.base.base_ids@[g] + l) as u32,
                ..d
            })
        } by {
            let at = (live_between(s, from, g) + live_in(s, g, l)) as int;
            if g < n - 1 {
                assert(t[at] == before[at]);
            } else {
                assert(t[at] == more[live_in(s, g, l) as int]);
            }
        }
    }
}

/// Every target is that of a document.
proof fn lemma_went(docs: Seq<DocView>, start: u32, batch: u64, d: u32, j: int, n: u32) -> (k: int)
    requires
        start + docs.len() <= u32::MAX,
        compact::went(compact::place_all(docs, start, batch).targets, d, j, n),
    ensures
        0 <= k < docs.len(),
        docs[k].doc_id == d,
        n == start + k,
    decreases docs.len(),
{
    if docs.len() == 0 {
        0
    } else {
        let front = docs.drop_last();
        compact::lemma_place_all_next(front, start, batch);
        if docs.last().doc_id == d {
            docs.len() - 1
        } else {
            lemma_went(front, start, batch, d, j, n)
        }
    }
}

/// The ids of segments do not overlap, and those of the overlay lie above them.
pub open spec fn ids_apart(s: IndexSnapshot) -> bool {
    &&& s.base.base_ids@.len() == s.segs().len()
    &&& compact_plan::apart(s.segs(), s.base.base_ids@)
    &&& forall|g: int, k: int|
        0 <= g < s.segs().len() && 0 <= k < s.overlay.docs@.len() ==> s.base.base_ids@[g] + (
        #[trigger] s.segs()[g]).doc_count <= (#[trigger] s.overlay.docs@[k]).doc_id
}

proof fn lemma_segment_ids(s: IndexSnapshot, g: int, n: nat, room: nat, t: Seq<DocView>)
    requires
        0 <= g < s.segs().len(),
        s.base.base_ids@.len() == s.segs().len(),
        compact::segment_moved(
            open::segment_docs(s.segs()[g]),
            s.base.base_ids@[g],
            s.deleted(),
            g as usize,
            n,
            room,
        ) == Ok::<Seq<DocView>, IndexError>(t),
    ensures
        forall|i: int|
            0 <= i < t.len() ==> s.base.base_ids@[g] <= (#[trigger] t[i]).doc_id
                < s.base.base_ids@[g] + n,
        forall|i: int, j: int|
            0 <= i < j < t.len() ==> (#[trigger] t[i]).doc_id < (#[trigger] t[j]).doc_id,
    decreases n,
{
    if n > 0 {
        let before = compact::segment_moved(
            open::segment_docs(s.segs()[g]),
            s.base.base_ids@[g],
            s.deleted(),
            g as usize,
            (n - 1) as nat,
            room,
        )->Ok_0;
        lemma_segment_ids(s, g, (n - 1) as nat, room, before);
        assert forall|i: int| 0 <= i < t.len() implies s.base.base_ids@[g] <= (
        #[trigger] t[i]).doc_id < s.base.base_ids@[g] + n by {
            if i < before.len() {
                assert(t[i] == before[i]);
            }
        }
        assert forall|i: int, j: int| 0 <= i < j < t.len() implies (#[trigger] t[i]).doc_id < (
        #[trigger] t[j]).doc_id by {
            assert(t[i] == before[i]);
            if j < before.len() {
                assert(t[j] == before[j]);
            }
        }
    }
}

proof fn lemma_base_ids_ascend(s: IndexSnapshot, from: int, n: int, room: nat, t: Seq<DocView>)
    requires
        0 <= from,
        n <= s.segs().len(),
        s.segs().len() <= usize::MAX,
        ids_apart(s),
        compact::base_moved(s.segs(), s.base.base_ids@, s.deleted(), from, n, room) == Ok::<
            Seq<DocView>,
            IndexError,
        >(t),
    ensures
        forall|i: int|
            0 <= i < t.len() ==> exists|g: int|
                from <= g < n && (#[trigger] t[i]).doc_id < s.base.base_ids@[g] + (
                #[trigger] s.segs()[g]).doc_count,
        forall|i: int, j: int|
            0 <= i < j < t.len() ==> (#[trigger] t[i]).doc_id < (#[trigger] t[j]).doc_id,
    decreases n - from,
{
    if n > from {
        let before = compact::base_moved(
            s.segs(),
            s.base.base_ids@,
            s.deleted(),
            from,
            n - 1,
            room,
        )->Ok_0;
        lemma_base_ids_ascend(s, from, n - 1, room, before);
        let count = s.segs()[n - 1].doc_count as nat;
        let left = (room - before.len()) as nat;
        let more = compact::segment_moved(
            open::segment_docs(s.segs()[n - 1]),
            s.base.base_ids@[n - 1],
            s.deleted(),
            (n - 1) as usize,
            count,
            left,
        )->Ok_0;
        lemma_segment_ids(s, n - 1, count, left, more);
        assert(t == before + more);
        assert forall|i: int| 0 <= i < t.len() implies exists|g: int|
            from <= g < n && (#[trigger] t[i]).doc_id < s.base.base_ids@[g] + (
            #[trigger] s.segs()[g]).doc_count by {
            if i < before.len() {
                assert(t[i] == before[i]);
            } else {
                assert(t[i] == more[i - before.len()]);
                assert(t[i].doc_id < s.base.base_ids@[n - 1] + s.segs()[n - 1].doc_count);
            }
        }
        assert forall|i: int, j: int| 0 <= i < j < t.len() implies (#[trigger] t[i]).doc_id < (
        #[trigger] t[j]).doc_id by {
            if j < before.len() {
                assert(t[i] == before[i] && t[j] == before[j]);
            } else if i >= before.len() {
                assert(t[i] == more[i - before.len()] && t[j] == more[j - before.len()]);
            } else {
                assert(t[i] == before[i] && t[j] == more[j - before.len()]);
                let g = choose|g: int|
                    from <= g < n - 1 && before[i].doc_id < s.base.base_ids@[g] + (
                    #[trigger] s.segs()[g]).doc_count;
                assert(snapshot::base_of(s.base.base_ids@, g) + s.segs()[g].doc_count
                    <= snapshot::base_of(s.base.base_ids@, n - 1));
            }
        }
    }
}

/// The documents that move, one after the other, have different ids.
proof fn lemma_moved_distinct(s: IndexSnapshot, from: int, room: nat, docs: Seq<DocView>)
    requires
        s.wf(),
        0 <= from,
        s.segs().len() <= usize::MAX,
        ids_apart(s),
        compact::moved(s, from, room) == Ok::<Seq<DocView>, IndexError>(docs),
    ensures
        compact_laws::distinct_ids(docs),
{
    let n = s.segs().len() as int;
    let b = compact::base_moved(s.segs(), s.base.base_ids@, s.deleted(), from, n, room)->Ok_0;
    let over = s.overlay.documents();
    lemma_base_ids_ascend(s, from, n, room, b);
    assert forall|i: int, j: int| 0 <= i < j < docs.len() implies docs[i].doc_id != docs[j].doc_id by {
        if j < b.len() {
            assert(docs[i] == b[i] && docs[j] == b[j]);
        } else if i >= b.len() {
            assert(docs[i].doc_id == over[i - b.len()].doc_id);
            assert(docs[j].doc_id == over[j - b.len()].doc_id);
        } else {
            assert(docs[i] == b[i]);
            let k = j - b.len();
            assert(docs[j].doc_id == over[k].doc_id);
            let g = choose|g: int|
                from <= g < n && b[i].doc_id < s.base.base_ids@[g] + (
                #[trigger] s.segs()[g]).doc_count;
            assert(s.base.base_ids@[g] + s.segs()[g].doc_count <= s.overlay.docs@[k].doc_id);
        }
    }
}

proof fn lemma_pairs(s: IndexSnapshot, from: int, n: int, gram: u64, id: u32)
    requires
        0 <= from,
        n <= s.segs().len(),
    ensures
        compact::suffix_pairs(s.segs(), from, n).contains((gram, id)) <==> exists|k: int|
            from <= k < n && stored(#[trigger] s.segs()[k], gram, id),
    decreases n - from,
{
    if n > from {
        lemma_pairs(s, from, n - 1, gram, id);
        let seg = s.segs()[n - 1];
        seg.lemma_find(gram);
        let ps = compact::segment_pairs(seg, seg.gram_count as int);
        if ps.contains((gram, id)) {
            assert(compact::in_grams(seg, seg.gram_count as int, gram, id));
            let ids = compact::record_ids(seg.record_of(gram))->0;
            let (kind, data) = seg.record_of(gram)->0;
            if kind == 0 {
                let list = posting::decoded(data, 0)->0;
                assert(list.to_set().contains(id));
            }
            assert(stored(s.segs()[n - 1], gram, id));
        }
        if stored(seg, gram, id) {
            let i = seg.find(gram)->0;
            assert(seg.is_entry(gram, i));
            let (kind, data) = seg.record_of(gram)->0;
            if kind == 0 {
                let list = posting::decoded(data, 0)->0;
                assert(list.to_set().contains(id));
            }
            assert(seg.gram_at(i) == gram);
            assert(compact::in_grams(seg, seg.gram_count as int, gram, id));
        }
    }
}

/// The document is in new segment `j` under the id `n`, and is listed there under a gram
/// exactly if a rewritten segment stored it under the gram as `id`, or if it is one of
/// `grams`.
pub open spec fn carried_over(
    f: NewSegment,
    base: u32,
    d: DocView,
    s: IndexSnapshot,
    from: int,
    id: u32,
    grams: Seq<u64>,
) -> bool {
    let at = d.doc_id - base;
    &&& forall|versions: Seq<u32>, verify: DictVerify, l: SegmentLayout|
        #[trigger] reader::layout_of(f.image.dict@, versions, verify) == Ok::<
            SegmentLayout,
            Corruption,
        >(l) ==> 0 <= at < open::docs_in(f.image.dict@, l).len() && #[trigger] open::docs_in(
            f.image.dict@,
            l,
        )[at] == Some(d)
    &&& forall|
        seg: MmapSegment,
        versions: Seq<u32>,
        verify: DictVerify,
        l: SegmentLayout,
        gram: u64,
        found: Option<PostingList>,
    |
        #[trigger] reopen_laws::reads(seg, f, versions, verify, l, gram)
            && #[trigger] reader::list_of(found, seg.record_of(gram)) ==> (build_laws::lists(
            found,
            d.doc_id,
        ) <==> grams.contains(gram) || exists|k: int|
            from <= k < s.segs().len() && stored(#[trigger] s.segs()[k], gram, id))
}

/// The document that moves as number `k`.
proof fn lemma_carried_over(
    s: IndexSnapshot,
    previous: Manifest,
    plan: CompactionPlan,
    head: Option<Vec<u8>>,
    created_at: u64,
    w: WrittenIndex,
    docs: Seq<DocView>,
    start: u32,
    k: int,
    grams: Seq<u64>,
) -> (j: int)
    requires
        s.wf(),
        ids_apart(s),
        s.segs().len() <= usize::MAX,
        compact_index::is_compaction(
            Ok::<WrittenIndex, IndexError>(w),
            s,
            previous,
            plan,
            head,
            created_at,
        ),
        start == compact_index::bases(previous.segments@.take(plan.suffix_start as int)).1,
        compact::moved(s, plan.suffix_start as int, compact::room_from(start)) == Ok::<
            Seq<DocView>,
            IndexError,
        >(docs),
        0 <= k < docs.len(),
        forall|gram: u64|
            overlay::pairs_of(s.overlay.documents()).contains((gram, docs[k].doc_id))
                <==> #[trigger] grams.contains(gram),
    ensures
        0 <= j < w.files@.len(),
        w.manifest.segments@[plan.suffix_start + j].base_doc_id matches Some(base) && carried_over(
            w.files@[j],
            base,
            DocView { doc_id: (start + k) as u32, ..docs[k] },
            s,
            plan.suffix_start as int,
            docs[k].doc_id,
            grams,
        ),
{
    let from = plan.suffix_start as int;
    let batch = compact::cost(plan.batch_size_bytes);
    let src = compact::moved_pairs(s, from);
    let p = compact::place_all(docs, start, batch);
    let id = docs[k].doc_id;
    let n = (start + k) as u32;
    let d = DocView { doc_id: n, ..docs[k] };
    lemma_moved_distinct(s, from, compact::room_from(start), docs);
    let j = compact_laws::law_documents_keep_their_content(docs, start, batch, k);
    compact_laws::law_new_ids_have_no_gaps(docs, start, batch);
    let group = p.groups[j];
    let at = choose|at: int| 0 <= at < group.len() && group[at] == d;
    let base = p.bases[j];
    assert(p.groups[j][at].doc_id == base + at);
    let f = w.files@[j];
    let r = w.manifest.segments@[from + j];
    assert(compact_index::group_written(w.manifest.segments@, from, w.files@, p, src, j));
    let ps = choose|ps: Seq<(u64, u32)>| #[trigger]
        compact_index::is_written(r@, f, group, ps, base) && compact_index::lists_exactly(
            ps,
            p.targets,
            src,
            j,
        );
    assert forall|i: int| 0 <= i < group.len() implies (#[trigger] group[i]).doc_id == base + i by {
        assert(p.groups[j][i].doc_id == p.bases[j] + i);
    }
    assert(f.image.dict@.len() == f.image.dict.len());
    assert(r@.base_doc_id == Some(base));
    assert forall|versions: Seq<u32>, verify: DictVerify, l: SegmentLayout|
        #[trigger] reader::layout_of(f.image.dict@, versions, verify) == Ok::<
            SegmentLayout,
            Corruption,
        >(l) implies 0 <= at < open::docs_in(f.image.dict@, l).len() && #[trigger] open::docs_in(
        f.image.dict@,
        l,
    )[at] == Some(d) by {
        build_laws::lemma_reads_back(f, group, ps, base, versions, verify, l, at);
    }
    assert forall|
        seg: MmapSegment,
        versions: Seq<u32>,
        verify: DictVerify,
        l: SegmentLayout,
        gram: u64,
        found: Option<PostingList>,
    |
        #[trigger] reopen_laws::reads(seg, f, versions, verify, l, gram)
            && #[trigger] reader::list_of(found, seg.record_of(gram)) implies (build_laws::lists(
        found,
        d.doc_id,
    ) <==> grams.contains(gram) || exists|q: int|
        from <= q < s.segs().len() && stored(#[trigger] s.segs()[q], gram, id)) by {
        build_laws::lemma_lists(r, f, group, ps, base, seg, versions, verify, l, gram, found, n);
        lemma_pairs(s, from, s.segs().len() as int, gram, id);
        assert(ps.contains((gram, n)) <==> compact::lists(p.targets, src, j, gram, n));
        if src.contains((gram, id)) {
            assert(compact::went(p.targets, id, j, n));
            assert(compact::lists(p.targets, src, j, gram, n));
        }
        if compact::lists(p.targets, src, j, gram, n) {
            let o = choose|o: u32| #[trigger]
                compact::went(p.targets, o, j, n) && src.contains((gram, o));
            let i = lemma_went(docs, start, batch, o, j, n);
            assert(i == k);
            assert(src.contains((gram, id)));
        }
        assert(overlay::pairs_of(s.overlay.documents()).contains((gram, id)) <==> grams.contains(
            gram,
        ));
    }
    j
}

/// A compaction loses no base document: document `l` of rewritten segment `g`, if it is
/// not deleted, is in a new segment with its path, hash and size, is listed under the
/// grams that it was listed under and under no other, and has the id that is as many
/// above the first new one as there are live documents before it.
pub proof fn law_compaction_keeps_live_documents(
    s: IndexSnapshot,
    previous: Manifest,
    plan: CompactionPlan,
    head: Option<Vec<u8>>,
    created_at: u64,
    w: WrittenIndex,
    g: int,
    l: int,
) -> (j: int)
    requires
        s.wf(),
        ids_apart(s),
        compact_index::is_compaction(
            Ok::<WrittenIndex, IndexError>(w),
            s,
            previous,
            plan,
            head,
            created_at,
        ),
        plan.suffix_start <= g < s.segs().len(),
        0 <= l < s.segs()[g].doc_count,
        s.base.base_ids@[g] + l <= u32::MAX,
        !s.deleted().contains((s.base.base_ids@[g] + l) as u32),
    ensures
        0 <= j < w.files@.len(),
        ({
            let from = plan.suffix_start as int;
            let start = compact_index::bases(previous.segments@.take(from)).1;
            let n = start + live_between(s, from, g) + live_in(s, g, l);
            snapshot::doc_of(s.segs()[g], l) matches Some(d) && (
            w.manifest.segments@[from + j].base_doc_id matches Some(base) && carried_over(
                w.files@[j],
                base,
                DocView { doc_id: n as u32, ..d },
                s,
                from,
                (s.base.base_ids@[g] + l) as u32,
                Seq::empty(),
            ))
        }),
{
    let from = plan.suffix_start as int;
    let start = compact_index::bases(previous.segments@.take(from)).1;
    let room = compact::room_from(start);
    let docs = compact::moved(s, from, room)->Ok_0;
    let n = s.segs().len() as int;
    let b = compact::base_moved(s.segs(), s.base.base_ids@, s.deleted(), from, n, room)->Ok_0;
    assert(s.segs().len() == s.base.segments.len());
    lemma_base_live(s, from, n, room, b);
    let at = (live_between(s, from, g) + live_in(s, g, l)) as int;
    assert(docs[at] == b[at]);
    let id = (s.base.base_ids@[g] + l) as u32;
    assert forall|gram: u64|
        overlay::pairs_of(s.overlay.documents()).contains((gram, id)) <==> #[trigger] Seq::<
            u64,
        >::empty().contains(gram) by {
        if overlay::pairs_of(s.overlay.documents()).contains((gram, id)) {
            let over = s.overlay.documents();
            let i = choose|i: int|
                #![trigger over[i]]
                0 <= i < over.len() && over[i].doc_id == id && over[i].grams.contains(gram);
            assert(over[i] == s.overlay.docs@[i]@);
            assert(s.base.base_ids@[g] + s.segs()[g].doc_count <= s.overlay.docs@[i].doc_id);
        }
    }
    lemma_carried_over(
        s,
        previous,
        plan,
        head,
        created_at,
        w,
        docs,
        start,
        at,
        Seq::empty(),
    )
}

/// A compaction loses no overlay document: document `k` is in a new segment, after those
/// of the base, with its path, content hash and size, and is listed under its grams.
pub proof fn law_compaction_keeps_the_overlay(
    s: IndexSnapshot,
    previous: Manifest,
    plan: CompactionPlan,
    head: Option<Vec<u8>>,
    created_at: u64,
    w: WrittenIndex,
    k: int,
) -> (j: int)
    requires
        s.wf(),
        ids_apart(s),
        compact_index::is_compaction(
            Ok::<WrittenIndex, IndexError>(w),
            s,
            previous,
            plan,
            head,
            created_at,
        ),
        0 <= k < s.overlay.docs@.len(),
    ensures
        0 <= j < w.files@.len(),
        ({
            let from = plan.suffix_start as int;
            let start = compact_index::bases(previous.segments@.take(from)).1;
            let n = start + live_between(s, from, s.segs().len() as int) + k;
            let d = s.overlay.docs@[k];
            w.manifest.segments@[from + j].base_doc_id matches Some(base) && carried_over(
                w.files@[j],
                base,
                stored_overlay(d@, n),
                s,
                from,
                d.doc_id,
                d.grams@,
            )
        }),
{
    let from = plan.suffix_start as int;
    let start = compact_index::bases(previous.segments@.take(from)).1;
    let room = compact::room_from(start);
    let docs = compact::moved(s, from, room)->Ok_0;
    let n = s.segs().len() as int;
    let b = compact::base_moved(s.segs(), s.base.base_ids@, s.deleted(), from, n, room)->Ok_0;
    assert(s.segs().len() == s.base.segments.len());
    lemma_base_live(s, from, n, room, b);
    let over = s.overlay.documents();
    let at = b.len() + k;
    assert(over[k] == s.overlay.docs@[k]@);
    assert(docs[at] == compact::as_entry(over[k]));
    let grams = over[k].grams;
    assert forall|gram: u64|
        overlay::pairs_of(over).contains((gram, docs[at].doc_id)) <==> #[trigger] grams.contains(
            gram,
        ) by {
        if overlay::pairs_of(over).contains((gram, over[k].doc_id)) {
            let i = choose|i: int|
                #![trigger over[i]]
                0 <= i < over.len() && over[i].doc_id == over[k].doc_id && over[i].grams.contains(
                    gram,
                );
            assert(i == k);
        }
    }
    lemma_carried_over(s, previous, plan, head, created_at, w, docs, start, at, grams)
}

/// A compaction keeps the first segments as they are, counts what it keeps and what it
/// moves, and leaves no deletions.
pub proof fn law_compaction_keeps_the_first_segments(
    s: IndexSnapshot,
    previous: Manifest,
    plan: CompactionPlan,
    head: Option<Vec<u8>>,
    created_at: u64,
    w: WrittenIndex,
    i: int,
)
    requires
        s.wf(),
        compact_index::is_compaction(
            Ok::<WrittenIndex, IndexError>(w),
            s,
            previous,
            plan,
            head,
            created_at,
        ),
        0 <= i < plan.suffix_start,
    ensures
        ({
            let a = w.manifest.segments@[i]@;
            let b = previous.segments@[i]@;
            &&& a.segment_id == b.segment_id
            &&& a.dict_filename == b.dict_filename
            &&& a.post_filename == b.post_filename
            &&& a.filename == b.filename
            &&& a.doc_count == b.doc_count
            &&& a.gram_count == b.gram_count
            &&& a.base_doc_id == Some(s.base.base_ids@[i])
        }),
        w.manifest.overlay_deletes_file is None,
        w.manifest.base_commit == head,
{
    let refs = previous.segments@;
    let first_ids = compact_index::bases(refs).0;
    assert(compact_index::kept_ref(w.manifest.segments@, refs, first_ids, i));
    compact_index::lemma_bases_prefix(refs, 0);
    compact_index::lemma_not_diverging(s.base.base_ids@, first_ids, first_ids.len());
    assert(s.base.base_ids@.take(first_ids.len() as int)[i] == s.base.base_ids@[i]);
    assert(first_ids.take(first_ids.len() as int)[i] == first_ids[i]);
}

/// The ids of a segment fit in 32 bits, and every live document of it can be read.
pub open spec fn readable(s: IndexSnapshot, g: int) -> bool {
    &&& s.base.base_ids@[g] + s.segs()[g].doc_count <= u32::MAX
    &&& forall|l: int|
        0 <= l < s.segs()[g].doc_count && !s.deleted().contains((s.base.base_ids@[g] + l) as u32)
            ==> #[trigger] snapshot::doc_of(s.segs()[g], l) is Some
}

proof fn lemma_segment_moves(s: IndexSnapshot, g: int, n: nat, room: nat)
    requires
        0 <= g < s.segs().len(),
        s.base.base_ids@.len() == s.segs().len(),
        n <= s.segs()[g].doc_count,
        readable(s, g),
        live_in(s, g, n as int) <= room,
    ensures
        compact::segment_moved(
            open::segment_docs(s.segs()[g]),
            s.base.base_ids@[g],
            s.deleted(),
            g as usize,
            n,
            room,
        ) is Ok,
    decreases n,
{
    if n > 0 {
        lemma_segment_moves(s, g, (n - 1) as nat, room);
        let docs = open::segment_docs(s.segs()[g]);
        let before = compact::segment_moved(
            docs,
            s.base.base_ids@[g],
            s.deleted(),
            g as usize,
            (n - 1) as nat,
            room,
        )->Ok_0;
        lemma_segment_live(s, g, (n - 1) as nat, room, before);
        assert(docs[n - 1] == snapshot::doc_of(s.segs()[g], n - 1));
    }
}

proof fn lemma_base_moves(s: IndexSnapshot, from: int, n: int, room: nat)
    requires
        0 <= from,
        n <= s.segs().len(),
        s.segs().len() <= usize::MAX,
        s.base.base_ids@.len() == s.segs().len(),
        forall|g: int| from <= g < n ==> #[trigger] readable(s, g),
        live_between(s, from, n) <= room,
    ensures
        compact::base_moved(s.segs(), s.base.base_ids@, s.deleted(), from, n, room) is Ok,
    decreases n - from,
{
    if n > from {
        lemma_base_moves(s, from, n - 1, room);
        let before = compact::base_moved(
            s.segs(),
            s.base.base_ids@,
            s.deleted(),
            from,
            n - 1,
            room,
        )->Ok_0;
        lemma_base_live(s, from, n - 1, room, before);
        assert(readable(s, n - 1));
        lemma_segment_moves(
            s,
            n - 1,
            s.segs()[n - 1].doc_count as nat,
            (room - before.len()) as nat,
        );
    }
}

proof fn lemma_no_divergence(a: Seq<u32>, b: Seq<u32>, n: nat)
    requires
        n <= a.len(),
        a == b,
    ensures
        compact_index::diverging(a, b, n) is None,
    decreases n,
{
    if n > 0 {
        lemma_no_divergence(a, b, (n - 1) as nat);
    }
}

proof fn lemma_no_fault(segs: Seq<MmapSegment>, from: int, n: int)
    requires
        forall|g: int| from <= g < n ==> compact::postings_fault(#[trigger] segs[g]) is None,
    ensures
        compact::suffix_fault(segs, from, n) is None,
    decreases n - from,
{
    if n > from {
        lemma_no_fault(segs, from, n - 1);
    }
}

/// A compaction of an index that is in order is not refused, unless a segment cannot be
/// written or ids run out: the snapshot has the segments of the manifest at their ids,
/// every live document and every posting list of the rewritten segments can be read,
/// and there is an id for each document.
pub proof fn law_compaction_is_not_refused_without_reason(
    s: IndexSnapshot,
    previous: Manifest,
    plan: CompactionPlan,
    head: Option<Vec<u8>>,
    created_at: u64,
    r: Result<WrittenIndex, IndexError>,
)
    requires
        s.wf(),
        compact_index::is_compaction(r, s, previous, plan, head, created_at),
        plan.suffix_start <= previous.segments@.len(),
        s.segs().len() == previous.segments@.len(),
        s.base.base_ids@ == compact_index::bases(previous.segments@).0,
        forall|g: int| plan.suffix_start <= g < s.segs().len() ==> #[trigger] readable(s, g),
        forall|g: int|
            plan.suffix_start <= g < s.segs().len() ==> compact::postings_fault(
                #[trigger] s.segs()[g],
            ) is None,
        compact_index::bases(previous.segments@.take(plan.suffix_start as int)).1 + live_between(
            s,
            plan.suffix_start as int,
            s.segs().len() as int,
        ) + s.overlay.docs@.len() <= u32::MAX,
        manifest::doc_total(previous.segments@.take(plan.suffix_start as int)) + live_between(
            s,
            plan.suffix_start as int,
            s.segs().len() as int,
        ) + s.overlay.docs@.len() <= u32::MAX,
    ensures
        r is Ok || r matches Err(IndexError::Segment(_)),
{
    let from = plan.suffix_start as int;
    let refs = previous.segments@;
    let start = compact_index::bases(refs.take(from)).1;
    let room = compact::room_from(start);
    let n = s.segs().len() as int;
    compact_index::lemma_bases_prefix(refs, 0);
    assert(s.segs().len() == s.base.segments.len());
    lemma_no_divergence(
        s.base.base_ids@,
        compact_index::bases(refs).0,
        s.base.base_ids@.len(),
    );
    lemma_base_moves(s, from, n, room);
    let b = compact::base_moved(s.segs(), s.base.base_ids@, s.deleted(), from, n, room)->Ok_0;
    lemma_base_live(s, from, n, room, b);
    lemma_no_fault(s.segs(), from, n);
}

/// The first id of a segment is the one that its manifest entry records, else the end of
/// the segment before it; the end of a segment is as many above its first id as it has
/// documents.
pub proof fn law_segments_start_where_recorded(refs: Seq<SegmentRef>, i: int)
    requires
        0 <= i < refs.len(),
    ensures
        ({
            let ids = compact_index::bases(refs).0;
            let end = compact_index::bases(refs.take(i + 1)).1;
            &&& ids.len() == refs.len()
            &&& refs[i].base_doc_id matches Some(b) ==> ids[i] == b
            &&& refs[i].base_doc_id is None && i == 0 ==> ids[i] == 0
            &&& refs[i].base_doc_id is None && i > 0 && ids[i - 1] + refs[i - 1].doc_count
                <= u32::MAX ==> ids[i] == ids[i - 1] + refs[i - 1].doc_count
            &&& ids[i] + refs[i].doc_count <= u32::MAX ==> end == ids[i] + refs[i].doc_count
        }),
{
    let here = refs.take(i + 1);
    let before = refs.take(i);
    compact_index::lemma_bases_prefix(refs, i + 1);
    compact_index::lemma_bases_prefix(refs, i);
    assert(here.drop_last() =~= before);
    assert(here.last() == refs[i]);
    assert(compact_index::bases(here).0[i] == compact_index::bases(refs).0[i]);
    compact_index::lemma_bases_prefix(before, i);
    if i > 0 {
        assert(before.drop_last() =~= refs.take(i - 1));
        assert(before.last() == refs[i - 1]);
        compact_index::lemma_bases_prefix(refs, i - 1);
        compact_index::lemma_bases_prefix(refs.take(i - 1), i - 1);
        assert(compact_index::bases(before).0[i - 1] == compact_index::bases(refs).0[i - 1]);
    }
}

/// How many grams the first `n` documents have, with repetitions.
pub open spec fn grams_in(docs: Seq<OverlayDocView>, n: int) -> nat
    decreases n,
{
    if n <= 0 {
        0
    } else {
        grams_in(docs, n - 1) + docs[n - 1].grams.len()
    }
}

spec fn grams_joined(docs: Seq<OverlayDocView>, n: int) -> Seq<u64>
    decreases n,
{
    if n <= 0 {
        Seq::empty()
    } else {
        grams_joined(docs, n - 1) + docs[n - 1].grams
    }
}

proof fn lemma_grams_joined(docs: Seq<OverlayDocView>, n: int, gram: u64)
    requires
        0 <= n <= docs.len(),
    ensures
        grams_joined(docs, n).len() == grams_in(docs, n),
        (exists|i: int| 0 <= i < n && (#[trigger] docs[i]).grams.contains(gram)) ==> grams_joined(
            docs,
            n,
        ).contains(gram),
    decreases n,
{
    if n > 0 {
        lemma_grams_joined(docs, n - 1, gram);
        let before = grams_joined(docs, n - 1);
        let all = grams_joined(docs, n);
        if exists|i: int| 0 <= i < n && (#[trigger] docs[i]).grams.contains(gram) {
            let i = choose|i: int| 0 <= i < n && (#[trigger] docs[i]).grams.contains(gram);
            if i < n - 1 {
                let k = choose|k: int| 0 <= k < before.len() && before[k] == gram;
                assert(all[k] == gram);
            } else {
                let own = docs[i].grams;
                let k = choose|k: int| 0 <= k < own.len() && own[k] == gram;
                assert(all[before.len() + k] == gram);
            }
        }
    }
}

/// A flush is refused for one of these reasons alone: the manifest has other segments or
/// other documents than the base of the snapshot; a path is above the limit of a segment;
/// the grams cannot be counted; or so many documents hold one gram that the list of them
/// takes a bitmap.
pub proof fn law_flush_is_refused_for_a_reason(
    s: IndexSnapshot,
    previous: Manifest,
    anchor: FlushAnchor,
    inputs: AnchorView,
    created_at: u64,
    e: IndexError,
)
    requires
        s.wf(),
        flush::is_flush(
            Err::<FlushedIndex, IndexError>(e),
            s,
            previous,
            anchor,
            inputs,
            created_at,
        ),
    ensures
        ({
            let docs = s.overlay.documents();
            let n = docs.len() as int;
            ||| s.segs().len() != previous.segments@.len()
            ||| plan_laws::docs_held(s.segs(), s.segs().len() as int) != manifest::doc_total(
                previous.segments@,
            )
            ||| e matches IndexError::Segment(x) && match x {
                SegmentError::PathTooLong { bytes, .. } => exists|i: int|
                    0 <= i < n && (#[trigger] docs[i]).path.len() == bytes && bytes > 65_535,
                SegmentError::TooLarge => grams_in(docs, n) > u32::MAX,
                SegmentError::PostingTooLarge { gram } => n >= posting::ROARING_THRESHOLD
                    && exists|i: int|
                    0 <= i < n && (#[trigger] docs[i]).grams.contains(gram),
                SegmentError::DuplicateDocId { .. } => false,
            }
        }),
{
    let docs = s.overlay.documents();
    plan_laws::lemma_docs_held(s.segs(), s.segs().len() as int);
    assert(s.segs().take(s.segs().len() as int) =~= s.segs());
    if flush::same_base(s, previous) {
        let closed = flush::closed_up(docs);
        let list = flush::entries(closed);
        let first = docs[0].doc_id;
        let n = docs.len() as int;
        let x = e->Segment_0;
        let ps = choose|ps: Seq<(u64, u32)>| #[trigger]
            writer::refused(list, ps, x) && flush::lists_pairs(ps, closed);
        assert forall|i: int| 0 <= i < list.len() implies (#[trigger] list[i]).doc_id == first
            + i by {
            flush::lemma_ids_at_least(docs, i);
        }
        assert forall|g: u64, d: u32| #[trigger] ps.contains((g, d)) implies exists|i: int|
            0 <= i < n && (#[trigger] docs[i]).grams.contains(g) && d == first + i by {
            assert(overlay::pairs_of(closed).contains((g, d)));
            let i = choose|i: int|
                #![trigger closed[i]]
                0 <= i < closed.len() && closed[i].doc_id == d && closed[i].grams.contains(g);
            assert(list[i].doc_id == first + i);
            assert(docs[i].grams == closed[i].grams);
        }
        let ids = Seq::new(docs.len(), |i: int| (first + i) as u32);
        assert forall|g: u64| #[trigger] writer::docs_with(ps, g).len() <= n by {
            assert forall|d: u32| writer::docs_with(ps, g).contains(d) implies ids.to_set().contains(
                d,
            ) by {
                assert(ps.contains((g, d)));
                let i = choose|i: int|
                    0 <= i < n && (#[trigger] docs[i]).grams.contains(g) && d == first + i;
                assert(ids[i] == d);
            }
            ids.lemma_cardinality_of_set();
            vstd::set_lib::lemma_len_subset(writer::docs_with(ps, g), ids.to_set());
        }
        assert(n <= u32::MAX) by {
            flush::lemma_ids_at_least(docs, n - 1);
        }
        match x {
            SegmentError::PathTooLong { doc_id, bytes } => {
                let i = choose|i: int|
                    #![trigger list[i]]
                    0 <= i < list.len() && list[i].doc_id == doc_id && list[i].path.len() == bytes
                        && list[i].path.len() > u16::MAX;
                assert(docs[i].path == list[i].path);
            },
            SegmentError::TooLarge => {
                let all = grams_joined(docs, n);
                lemma_grams_joined(docs, n, 0);
                assert forall|g: u64| writer::grams_of(ps).contains(g) implies all.to_set().contains(
                    g,
                ) by {
                    let d = choose|d: u32| #[trigger] ps.contains((g, d));
                    lemma_grams_joined(docs, n, g);
                }
                all.lemma_cardinality_of_set();
                vstd::set_lib::lemma_len_subset(writer::grams_of(ps), all.to_set());
            },
            SegmentError::PostingTooLarge { gram } => {
                let held = writer::docs_with(ps, gram);
                assert(exists|d: u32| held.contains(d)) by {
                    if !exists|d: u32| held.contains(d) {
                        assert(held =~= Set::<u32>::empty());
                    }
                }
                let d = choose|d: u32| held.contains(d);
                assert(ps.contains((gram, d)));
            },
            SegmentError::DuplicateDocId { doc_id } => {
                assert(false);
            },
        }
    }
}

/// A new segment of a compaction is refused for its postings, or because a document that
/// moves has a path above the limit of a segment; never for its ids.
pub proof fn law_new_segments_are_refused_for_a_reason(
    docs: Seq<DocView>,
    start: u32,
    batch: u64,
    src: Set<(u64, u32)>,
    x: SegmentError,
)
    requires
        start + docs.len() <= u32::MAX,
        compact_index::some_group_refused(compact::place_all(docs, start, batch), src, x),
    ensures
        !(x is DuplicateDocId),
        x matches SegmentError::PathTooLong { bytes, .. } ==> bytes > 65_535,
{
    let p = compact::place_all(docs, start, batch);
    let j = choose|j: int| #[trigger] compact_index::group_refused(p, src, j, x);
    compact_laws::law_new_ids_have_no_gaps(docs, start, batch);
    let group = p.groups[j];
    assert forall|i: int| 0 <= i < group.len() implies (#[trigger] group[i]).doc_id == p.bases[j]
        + i by {
        assert(p.groups[j][i].doc_id == p.bases[j] + i);
    }
}

/// The sizes of the first `n` documents.
pub open spec fn sizes_before(docs: Seq<DocView>, n: int) -> nat
    decreases n,
{
    if n <= 0 {
        0
    } else {
        sizes_before(docs, n - 1) + docs[n - 1].size_bytes as nat
    }
}

proof fn lemma_sizes(docs: Seq<DocView>, n: int)
    requires
        0 <= n <= docs.len(),
    ensures
        writer::size_total(docs.take(n)) == sizes_before(docs, n),
    decreases n,
{
    if n > 0 {
        lemma_sizes(docs, n - 1);
        assert(docs.take(n).drop_last() =~= docs.take(n - 1));
        assert(docs.take(n).last() == docs[n - 1]);
    }
}

/// The manifest entry of a new segment says how many documents it holds, how large they
/// are together, how long its postings file is, where its ids start, and which files it
/// has.
pub proof fn law_entries_describe_their_segment(
    r: SegmentRef,
    f: NewSegment,
    docs: Seq<DocView>,
    ps: Seq<(u64, u32)>,
    base: u32,
)
    requires
        compact_index::is_written(r@, f, docs, ps, base),
    ensures
        r.doc_count == docs.len(),
        sizes_before(docs, docs.len() as int) <= u64::MAX ==> r.doc_bytes == Some(
            sizes_before(docs, docs.len() as int) as u64,
        ),
        r.post_len == Some(f.image.post@.len() as u64),
        r.base_doc_id == Some(base),
        r.dict_filename@ == f.dict_filename@,
        r.post_filename@ == f.post_filename@,
        r.filename@.len() == 0,
{
    lemma_sizes(docs, docs.len() as int);
    assert(docs.take(docs.len() as int) =~= docs);
    assert(r@.doc_count == r.doc_count && r@.doc_bytes == r.doc_bytes);
}

/// The manifest of a compaction counts the documents of the segments that stay, the live
/// ones of the others, and those of the overlay; and the paths it lists are the live ones.
pub proof fn law_compaction_counts_what_it_holds(
    s: IndexSnapshot,
    previous: Manifest,
    plan: CompactionPlan,
    head: Option<Vec<u8>>,
    created_at: u64,
    w: WrittenIndex,
    p: Seq<u8>,
)
    requires
        s.wf(),
        compact_index::is_compaction(
            Ok::<WrittenIndex, IndexError>(w),
            s,
            previous,
            plan,
            head,
            created_at,
        ),
    ensures
        w.manifest.total_files_indexed == manifest::doc_total(
            previous.segments@.take(plan.suffix_start as int),
        ) + live_between(s, plan.suffix_start as int, s.segs().len() as int)
            + s.overlay.docs@.len(),
        (exists|i: int| 0 <= i < w.paths@.len() && (#[trigger] w.paths@[i])@ == p)
            <==> s.path_index.file_ids().contains_key(p),
{
    let from = plan.suffix_start as int;
    let refs = previous.segments@;
    let start = compact_index::bases(refs.take(from)).1;
    let room = compact::room_from(start);
    let n = s.segs().len() as int;
    let b = compact::base_moved(s.segs(), s.base.base_ids@, s.deleted(), from, n, room)->Ok_0;
    assert(s.segs().len() == s.base.segments.len());
    lemma_base_live(s, from, n, room, b);
    assert(s.overlay.documents().len() == s.overlay.docs@.len());
    let list = paths::path_views(w.paths@);
    assert(s.path_index.file_ids().dom() =~= s.path_index.ids.keys@);
    commit::lemma_sorted_paths(s.path_index.ids.keys);
    assert(list.to_set() == s.path_index.file_ids().dom());
    assert(list.to_set().contains(p) <==> s.path_index.file_ids().contains_key(p));
    if list.contains(p) {
        let i = choose|i: int| 0 <= i < list.len() && list[i] == p;
        assert(w.paths@[i]@ == p);
    }
    if exists|i: int| 0 <= i < w.paths@.len() && (#[trigger] w.paths@[i])@ == p {
        let i = choose|i: int| 0 <= i < w.paths@.len() && (#[trigger] w.paths@[i])@ == p;
        assert(list[i] == p);
    }
}

/// A flush lists the live paths, all of them and no others, and its manifest is one
/// generation on, with the names of the files that were written.
pub proof fn law_flush_lists_the_live_paths(
    s: IndexSnapshot,
    previous: Manifest,
    anchor: FlushAnchor,
    inputs: AnchorView,
    created_at: u64,
    w: FlushedIndex,
    p: Seq<u8>,
)
    requires
        s.wf(),
        flush::is_flush(Ok::<FlushedIndex, IndexError>(w), s, previous, anchor, inputs, created_at),
    ensures
        (exists|i: int| 0 <= i < w.paths@.len() && (#[trigger] w.paths@[i])@ == p)
            <==> s.path_index.file_ids().contains_key(p),
        previous.overlay_gen < u64::MAX ==> w.manifest.overlay_gen == previous.overlay_gen + 1,
        w.manifest.created_at == created_at,
        w.anchor matches Some(f) ==> (w.manifest.worktree_anchor_file matches Some(name) && name@
            == f.name@),
        w.anchor is None ==> w.manifest.worktree_anchor_file is None,
        w.deletes is None ==> w.manifest.overlay_deletes_file is None,
{
    let list = paths::path_views(w.paths@);
    assert(s.path_index.file_ids().dom() =~= s.path_index.ids.keys@);
    commit::lemma_sorted_paths(s.path_index.ids.keys);
    assert(list.to_set() == s.path_index.file_ids().dom());
    assert(list.to_set().contains(p) <==> s.path_index.file_ids().contains_key(p));
    if list.contains(p) {
        let i = choose|i: int| 0 <= i < list.len() && list[i] == p;
        assert(w.paths@[i]@ == p);
    }
    if exists|i: int| 0 <= i < w.paths@.len() && (#[trigger] w.paths@[i])@ == p {
        let i = choose|i: int| 0 <= i < w.paths@.len() && (#[trigger] w.paths@[i])@ == p;
        assert(list[i] == p);
    }
}

} // verus!
