//! What holds of every compaction.

use crate::compact;
use crate::compact_index;
use crate::error::{Corruption, IndexError};
use crate::open;
use crate::segment::layout;
use crate::segment::layout::DocView;
use crate::segment::laws;
use crate::segment::reader;
use crate::segment::reader::{DictVerify, MmapSegment, SegmentLayout};
use crate::segment::writer;
use crate::snapshot;
use vstd::prelude::*;

verus! {

/// Compacted documents have ids without gaps: those of a segment count up from
/// its first id, and the segments follow one another from `start` on.
pub proof fn law_new_ids_have_no_gaps(docs: Seq<DocView>, start: u32, batch: u64)
    requires
        start + docs.len() <= u32::MAX,
    ensures
        ({
            let p = compact::place_all(docs, start, batch);
            &&& p.bases.len() == p.groups.len()
            &&& p.next == start + docs.len()
            &&& forall|j: int|
                0 <= j < p.groups.len() ==> #[trigger] p.bases[j] == start
                    + compact_index::group_total(p.groups.take(j))
            &&& forall|j: int, k: int|
                0 <= j < p.groups.len() && 0 <= k < p.groups[j].len()
                    ==> #[trigger] p.groups[j][k].doc_id == p.bases[j] + k
        }),
    decreases docs.len(),
{
    compact_index::lemma_placed_shape(docs, start, batch);
    if docs.len() > 0 {
        let front = docs.drop_last();
        let before = compact::place_all(front, start, batch);
        let p = compact::place_all(docs, start, batch);
        law_new_ids_have_no_gaps(front, start, batch);
        compact_index::lemma_placed_shape(front, start, batch);
        let last = p.groups.len() - 1;
        let fresh = compact::starts_segment(before, docs.last().size_bytes, batch);
        assert forall|j: int| 0 <= j < p.groups.len() implies #[trigger] p.bases[j] == start
            + compact_index::group_total(p.groups.take(j)) by {
            if fresh && j == last {
                assert(p.groups.take(j) =~= before.groups);
            } else {
                assert(p.groups.take(j) =~= before.groups.take(j));
                assert(before.bases[j] == p.bases[j]);
            }
        }
        assert forall|j: int, k: int|
            0 <= j < p.groups.len() && 0 <= k
                < p.groups[j].len() implies #[trigger] p.groups[j][k].doc_id == p.bases[j] + k by {
            if j < last {
                assert(p.groups[j] == before.groups[j]);
                assert(before.groups[j][k].doc_id == before.bases[j] + k);
            } else if !fresh {
                assert(p.groups[j].drop_last() =~= before.groups[j]);
                if k < before.groups[j].len() {
                    assert(before.groups[j][k].doc_id == before.bases[j] + k);
                } else {
                    assert(before.groups.take(j) =~= before.groups.drop_last());
                    assert(before.bases[j] == start + compact_index::group_total(
                        before.groups.take(j),
                    ));
                }
            }
        }
    }
}

/// Document `d` is in segment `j`.
pub open spec fn holds(groups: Seq<Seq<DocView>>, j: int, d: DocView) -> bool {
    0 <= j < groups.len() && groups[j].contains(d)
}

/// Old ids do not repeat.
pub open spec fn distinct_ids(docs: Seq<DocView>) -> bool {
    forall|a: int, b: int| 0 <= a < b < docs.len() ==> docs[a].doc_id != docs[b].doc_id
}

/// A compacted document keeps path, hash and size, and the postings of its old
/// id go to its new one.
pub proof fn law_documents_keep_their_content(
    docs: Seq<DocView>,
    start: u32,
    batch: u64,
    k: int,
) -> (j: int)
    requires
        start + docs.len() <= u32::MAX,
        distinct_ids(docs),
        0 <= k < docs.len(),
    ensures
        ({
            let p = compact::place_all(docs, start, batch);
            let d = DocView { doc_id: (start + k) as u32, ..docs[k] };
            holds(p.groups, j, d) && compact::went(
                p.targets,
                docs[k].doc_id,
                j,
                (start + k) as u32,
            )
        }),
    decreases docs.len(),
{
    let front = docs.drop_last();
    let before = compact::place_all(front, start, batch);
    let p = compact::place_all(docs, start, batch);
    let last = p.groups.len() - 1;
    let d = DocView { doc_id: (start + k) as u32, ..docs[k] };
    compact::lemma_place_all_next(front, start, batch);
    if k == docs.len() - 1 {
        let g = p.groups[last];
        assert(g[g.len() - 1] == d);
        last
    } else {
        let j = law_documents_keep_their_content(front, start, batch, k);
        assert(docs[k].doc_id != docs.last().doc_id);
        assert(front[k] == docs[k]);
        let i = choose|i: int| 0 <= i < before.groups[j].len() && before.groups[j][i] == d;
        assert(p.groups[j][i] == d);
        j
    }
}

/// The bytes that the documents of a segment count for.
pub open spec fn group_cost(g: Seq<DocView>) -> nat
    decreases g.len(),
{
    if g.len() == 0 {
        0
    } else {
        group_cost(g.drop_last()) + compact::cost(g.last().size_bytes) as nat
    }
}

/// A compacted segment with more than one document stays within the batch size.
pub proof fn law_segments_stay_within_the_batch_size(docs: Seq<DocView>, start: u32, batch: u64)
    requires
        batch < u64::MAX,
    ensures
        ({
            let p = compact::place_all(docs, start, batch);
            &&& p.groups.len() > 0 ==> p.bytes == writer::clamp64(group_cost(p.groups.last()))
                && p.bytes > 0
            &&& forall|j: int|
                0 <= j < p.groups.len() ==> (#[trigger] p.groups[j]).len() == 1 || group_cost(
                    p.groups[j],
                ) <= batch
        }),
    decreases docs.len(),
{
    if docs.len() > 0 {
        let front = docs.drop_last();
        let before = compact::place_all(front, start, batch);
        let p = compact::place_all(docs, start, batch);
        law_segments_stay_within_the_batch_size(front, start, batch);
        compact_index::lemma_placed_shape(front, start, batch);
        let last = p.groups.len() - 1;
        let fresh = compact::starts_segment(before, docs.last().size_bytes, batch);
        let g = p.groups[last];
        if fresh {
            assert(g.drop_last() =~= Seq::<DocView>::empty());
            assert(group_cost(g.drop_last()) == 0);
        } else {
            assert(g.drop_last() =~= before.groups[last]);
            assert(before.groups[last] == before.groups.last());
        }
        assert(p.groups.last() == g);
        assert forall|j: int| 0 <= j < p.groups.len() implies (#[trigger] p.groups[j]).len() == 1
            || group_cost(p.groups[j]) <= batch by {
            if j < last {
                assert(p.groups[j] == before.groups[j]);
            }
        }
    }
}

proof fn lemma_segment_moved(
    docs: Seq<Option<DocView>>,
    base: u32,
    deleted: Set<u32>,
    segment: usize,
    n: nat,
    room: nat,
    s: Seq<DocView>,
)
    requires
        compact::segment_moved(docs, base, deleted, segment, n, room) == Ok::<
            Seq<DocView>,
            IndexError,
        >(s),
    ensures
        forall|i: int|
            #![trigger s[i]]
            0 <= i < s.len() ==> base <= s[i].doc_id < base + n && !deleted.contains(s[i].doc_id),
        forall|l: int|
            #![trigger docs[l]]
            0 <= l < n && !deleted.contains((base + l) as u32) ==> docs[l] is Some && s.contains(
                DocView { doc_id: (base + l) as u32, ..docs[l]->0 },
            ),
    decreases n,
{
    if n > 0 {
        let before = compact::segment_moved(
            docs,
            base,
            deleted,
            segment,
            (n - 1) as nat,
            room,
        )->Ok_0;
        lemma_segment_moved(docs, base, deleted, segment, (n - 1) as nat, room, before);
        assert forall|i: int| #![trigger s[i]] 0 <= i < s.len() implies base <= s[i].doc_id < base
            + n && !deleted.contains(s[i].doc_id) by {
            if i < before.len() {
                assert(s[i] == before[i]);
            }
        }
        assert forall|l: int|
            #![trigger docs[l]]
            0 <= l < n && !deleted.contains((base + l) as u32) implies docs[l] is Some
            && s.contains(DocView { doc_id: (base + l) as u32, ..docs[l]->0 }) by {
            if l < n - 1 {
                let d = DocView { doc_id: (base + l) as u32, ..docs[l]->0 };
                let k = choose|k: int| 0 <= k < before.len() && before[k] == d;
                assert(s[k] == d);
            } else {
                assert(s[s.len() - 1] == (DocView { doc_id: (base + l) as u32, ..docs[l]->0 }));
            }
        }
    }
}

/// A compaction writes no deleted base document, and writes every base document
/// of its segments that is not deleted.
pub proof fn law_exactly_the_live_documents_move(
    segs: Seq<MmapSegment>,
    base_ids: Seq<u32>,
    deleted: Set<u32>,
    from: int,
    n: int,
    room: nat,
    s: Seq<DocView>,
)
    requires
        0 <= from <= n <= segs.len(),
        compact::base_moved(segs, base_ids, deleted, from, n, room) == Ok::<
            Seq<DocView>,
            IndexError,
        >(s),
    ensures
        forall|i: int| 0 <= i < s.len() ==> !deleted.contains((#[trigger] s[i]).doc_id),
        forall|g: int, l: int|
            #![trigger open::segment_docs(segs[g])[l]]
            from <= g < n && 0 <= l < segs[g].doc_count && !deleted.contains(
                (snapshot::base_of(base_ids, g) + l) as u32,
            ) ==> open::segment_docs(segs[g])[l] is Some && s.contains(
                DocView {
                    doc_id: (snapshot::base_of(base_ids, g) + l) as u32,
                    ..open::segment_docs(segs[g])[l]->0
                },
            ),
    decreases n - from,
{
    if n > from {
        let before = compact::base_moved(segs, base_ids, deleted, from, n - 1, room)->Ok_0;
        law_exactly_the_live_documents_move(segs, base_ids, deleted, from, n - 1, room, before);
        let docs = open::segment_docs(segs[n - 1]);
        let base = snapshot::base_of(base_ids, n - 1);
        let count = segs[n - 1].doc_count as nat;
        let left = (room - before.len()) as nat;
        let t = compact::segment_moved(docs, base, deleted, (n - 1) as usize, count, left)->Ok_0;
        lemma_segment_moved(docs, base, deleted, (n - 1) as usize, count, left, t);
        assert forall|i: int| 0 <= i < s.len() implies !deleted.contains(
            (#[trigger] s[i]).doc_id,
        ) by {
            if i < before.len() {
                assert(s[i] == before[i]);
            } else {
                assert(s[i] == t[i - before.len()]);
            }
        }
        assert forall|g: int, l: int|
            #![trigger open::segment_docs(segs[g])[l]]
            from <= g < n && 0 <= l < segs[g].doc_count && !deleted.contains(
                (snapshot::base_of(base_ids, g) + l) as u32,
            ) implies open::segment_docs(segs[g])[l] is Some && s.contains(
            DocView {
                doc_id: (snapshot::base_of(base_ids, g) + l) as u32,
                ..open::segment_docs(segs[g])[l]->0
            },
        ) by {
            let d = DocView {
                doc_id: (snapshot::base_of(base_ids, g) + l) as u32,
                ..open::segment_docs(segs[g])[l]->0
            };
            if g < n - 1 {
                let k = choose|k: int| 0 <= k < before.len() && before[k] == d;
                assert(s[k] == d);
            } else {
                assert(docs[l] is Some);
                let k = choose|k: int| 0 <= k < t.len() && t[k] == d;
                assert(s[before.len() + k] == d);
            }
        }
    }
}

/// A segment of documents whose ids count up from `base` opens under that base,
/// after segments that end at `end` or before, and up to the limit of an index.
pub proof fn law_new_segments_are_taken(
    dict: Seq<u8>,
    post: Seq<u8>,
    docs: Seq<DocView>,
    ps: Seq<(u64, u32)>,
    base: u32,
    end: u32,
    verify: DictVerify,
) -> (l: SegmentLayout)
    requires
        layout::is_segment(dict, post, docs, ps),
        dict.len() <= usize::MAX,
        forall|k: int| 0 <= k < docs.len() ==> (#[trigger] docs[k]).doc_id == base + k,
        end <= base,
        base + docs.len() <= open::MAX_TOTAL_DOCS,
    ensures
        reader::layout_of(dict, seq![layout::FORMAT_VERSION_V3], verify) == Ok::<
            SegmentLayout,
            Corruption,
        >(l),
        open::admission_fault(Some(base), end, open::docs_in(dict, l)) is None,
        open::docs_in(dict, l).len() == docs.len(),
        forall|k: int|
            0 <= k < docs.len() ==> #[trigger] open::docs_in(dict, l)[k] == Some(docs[k]),
{
    let versions = seq![layout::FORMAT_VERSION_V3];
    assert(versions[0] == layout::FORMAT_VERSION);
    laws::law_written_segment_is_accepted(dict, post, docs, ps, versions, verify);
    let l = reader::layout_of(dict, versions, verify)->Ok_0;
    let sorted = laws::law_documents_read_back(dict, post, docs, ps, versions, verify, l);
    let read = open::docs_in(dict, l);
    assert forall|k: int| 0 <= k < docs.len() implies #[trigger] read[k] == Some(docs[k]) by {
        laws::law_contiguous_ids_are_positions(docs, sorted, base, k);
        crate::order::lemma_rearranged_contains(docs, sorted);
        assert(sorted.contains(sorted[k]));
        let i = choose|i: int| 0 <= i < docs.len() && docs[i] == sorted[k];
        assert(i == k);
        assert(reader::doc_in(dict, l.doc_table_offset as int, l.dict_offset as int, k as u32)
            == Some(sorted[k]));
    }
    lemma_none_misplaced(read, docs, base, docs.len());
    l
}

proof fn lemma_none_misplaced(
    read: Seq<Option<DocView>>,
    docs: Seq<DocView>,
    base: u32,
    n: nat,
)
    requires
        n <= docs.len(),
        read.len() == docs.len(),
        forall|k: int| 0 <= k < docs.len() ==> #[trigger] read[k] == Some(docs[k]),
        forall|k: int| 0 <= k < docs.len() ==> (#[trigger] docs[k]).doc_id == base + k,
    ensures
        open::misplaced(read, base, n) is None,
    decreases n,
{
    if n > 0 {
        lemma_none_misplaced(read, docs, base, (n - 1) as nat);
        assert(read[n - 1] == Some(docs[n - 1]));
    }
}

/// New segments are filled up: one ends only where the first document of the next would
/// have taken it over the batch size.
pub proof fn law_segments_are_filled_up(docs: Seq<DocView>, start: u32, batch: u64, j: int)
    requires
        batch < u64::MAX,
        0 <= j < compact::place_all(docs, start, batch).groups.len() - 1,
    ensures
        ({
            let groups = compact::place_all(docs, start, batch).groups;
            groups[j + 1].len() > 0 && group_cost(groups[j]) + (if groups[j + 1][0].size_bytes == 0 {
                1
            } else {
                groups[j + 1][0].size_bytes as int
            }) > batch
        }),
    decreases docs.len(),
{
    if docs.len() > 0 {
        let front = docs.drop_last();
        let before = compact::place_all(front, start, batch);
        let p = compact::place_all(docs, start, batch);
        let last = p.groups.len() - 1;
        law_segments_stay_within_the_batch_size(front, start, batch);
        compact_index::lemma_placed_shape(front, start, batch);
        compact_index::lemma_placed_shape(docs, start, batch);
        let fresh = compact::starts_segment(before, docs.last().size_bytes, batch);
        if fresh && j + 1 == last {
            assert(p.groups[j] == before.groups[j]);
            assert(before.groups[j] == before.groups.last());
            assert(p.groups[last].len() == 1);
        } else {
            law_segments_are_filled_up(front, start, batch, j);
            assert(p.groups[j] == before.groups[j]);
            assert(p.groups[j + 1][0] == before.groups[j + 1][0]);
        }
    }
}

/// A document counts for its size, and for one byte where it has none.
pub proof fn law_documents_count_for_their_size(g: Seq<DocView>, d: DocView)
    ensures
        group_cost(g.push(d)) == group_cost(g) + (if d.size_bytes == 0 {
            1
        } else {
            d.size_bytes as int
        }),
        group_cost(Seq::<DocView>::empty()) == 0,
{
    assert(g.push(d).drop_last() =~= g);
}

} // verus!
