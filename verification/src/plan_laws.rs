//! When an index is compacted, and how much of it.

use crate::compact_plan;
use crate::compact_plan::CompactionReason;
use crate::config::Config;
use crate::overlay::OverlayDocView;
use crate::segment::reader::MmapSegment;
use crate::snapshot;
use crate::snapshot::IndexSnapshot;
use vstd::prelude::*;

verus! {

/// The documents of the first `n` segments.
pub open spec fn docs_held(segs: Seq<MmapSegment>, n: int) -> nat
    decreases n,
{
    if n <= 0 {
        0
    } else {
        docs_held(segs, n - 1) + segs[n - 1].doc_count as nat
    }
}

pub(crate) proof fn lemma_docs_held(segs: Seq<MmapSegment>, n: int)
    requires
        0 <= n <= segs.len(),
    ensures
        docs_held(segs, n) == snapshot::doc_sum(segs.take(n)),
    decreases n,
{
    if n > 0 {
        lemma_docs_held(segs, n - 1);
        assert(segs.take(n).drop_last() =~= segs.take(n - 1));
        assert(segs.take(n).last() == segs[n - 1]);
    }
}

/// There are overlay documents, and ten times their number is more than the number of
/// base documents.
pub open spec fn overlay_is_large(s: IndexSnapshot) -> bool {
    s.overlay.docs@.len() > 0 && 10 * s.overlay.docs@.len() > docs_held(
        s.segs(),
        s.segs().len() as int,
    )
}

/// There are more segments than the configuration allows; one is always allowed.
pub open spec fn segments_are_many(s: IndexSnapshot, c: Config) -> bool {
    s.segs().len() > 1 && s.segs().len() > c.max_segments
}

/// More than 1024 file ids were given out, and more than four for each live path.
pub open spec fn ids_are_spent(s: IndexSnapshot) -> bool {
    s.path_index.next_id > 1024 && s.path_index.next_id > 4 * s.path_index.file_ids().dom().len()
}

/// An index is compacted because its overlay is more than a tenth of its base, else
/// because it has more segments than allowed, else because its file ids run far ahead
/// of its paths, and for no other reason. On request it is also compacted if there is
/// an overlay or a deletion.
pub proof fn law_compaction_has_a_reason(s: IndexSnapshot, c: Config)
    ensures
        compact_plan::needed(s, c) is None <==> !overlay_is_large(s) && !segments_are_many(s, c)
            && !ids_are_spent(s),
        compact_plan::needed(s, c) matches Some(p) ==> match p.reason {
            CompactionReason::OverlayRatio => overlay_is_large(s),
            CompactionReason::SegmentLimit => !overlay_is_large(s) && segments_are_many(s, c),
            CompactionReason::FileIdBloat => !overlay_is_large(s) && !segments_are_many(s, c)
                && ids_are_spent(s),
            CompactionReason::ExplicitRequest => false,
        },
        compact_plan::needed(s, c) is Some ==> compact_plan::forced(s, c) == compact_plan::needed(
            s,
            c,
        ),
        compact_plan::needed(s, c) is None ==> (compact_plan::forced(s, c) is Some <==> (
        s.overlay.docs@.len() > 0 || exists|d: u32| s.deleted().contains(d))),
        compact_plan::needed(s, c) is None ==> (compact_plan::forced(s, c) matches Some(p)
            ==> p.reason == CompactionReason::ExplicitRequest),
{
    lemma_docs_held(s.segs(), s.segs().len() as int);
    assert(s.segs().take(s.segs().len() as int) =~= s.segs());
    if !exists|d: u32| s.deleted().contains(d) {
        assert(s.deleted() =~= Set::<u32>::empty());
    }
    assert(!Set::<u32>::empty().contains(0));
}

proof fn lemma_leading(ids: Seq<u32>, d: u32)
    ensures
        compact_plan::leading(ids, d) <= ids.len(),
        forall|i: int| 0 <= i < compact_plan::leading(ids, d) ==> #[trigger] ids[i] <= d,
        compact_plan::leading(ids, d) < ids.len() ==> ids[compact_plan::leading(ids, d) as int] > d,
    decreases ids.len(),
{
    if ids.len() > 0 && ids[0] <= d {
        let rest = ids.drop_first();
        lemma_leading(rest, d);
        assert forall|i: int| 0 <= i < compact_plan::leading(ids, d) implies #[trigger] ids[i]
            <= d by {
            if i > 0 {
                assert(rest[i - 1] == ids[i]);
            }
        }
        if compact_plan::leading(ids, d) < ids.len() {
            assert(rest[compact_plan::leading(rest, d) as int] == ids[compact_plan::leading(ids, d)
                as int]);
        }
    }
}

/// The first deletion is in this segment: no deleted id is below it, and one is below
/// the next.
pub open spec fn first_deletion_in(s: IndexSnapshot, i: int) -> bool {
    let ids = s.base.base_ids@;
    exists|d: u32| #[trigger]
        s.deleted().contains(d) && (forall|e: u32| #[trigger] s.deleted().contains(e) ==> d <= e)
            && (i == 0 || ids[i] <= d) && (i + 1 < ids.len() ==> d < ids[i + 1] || (i == 0 && d
            < ids[0]))
}

/// A compaction leaves alone as many of the first segments as it can. Without
/// deletions and within the segment limit it only folds the overlay in; a deletion has
/// it start no later than at the segment of the first one; and where there are too
/// many segments, what it leaves and what it aims at are together as many as are
/// allowed. One that renumbers files rewrites everything.
pub proof fn law_compaction_starts_late(s: IndexSnapshot, c: Config)
    requires
        s.base.base_ids@.len() == s.segs().len(),
        s.segs().len() <= usize::MAX,
    ensures
        compact_plan::forced(s, c) matches Some(p) ==> {
            let n = s.segs().len();
            let most = if c.max_segments == 0 {
                1
            } else {
                c.max_segments as int
            };
            &&& p.reason == CompactionReason::FileIdBloat ==> p.suffix_start == 0
                && p.target_segments == 1
            &&& p.reason != CompactionReason::FileIdBloat ==> {
                &&& segments_are_many(s, c) ==> p.suffix_start + p.target_segments == most
                &&& !segments_are_many(s, c) ==> p.target_segments == 1
                &&& p.suffix_start == n ==> !segments_are_many(s, c)
                &&& p.suffix_start == n && n > 0 ==> forall|d: u32| !s.deleted().contains(d)
                &&& p.suffix_start < n ==> first_deletion_in(s, p.suffix_start as int) || (
                segments_are_many(s, c) && p.suffix_start == most - 1)
            }
        },
{
    let ids = s.base.base_ids@;
    lemma_docs_held(s.segs(), s.segs().len() as int);
    assert(s.segs().take(s.segs().len() as int) =~= s.segs());
    if s.deleted() != Set::<u32>::empty() {
        assert(exists|d: u32| s.deleted().contains(d)) by {
            if !exists|d: u32| s.deleted().contains(d) {
                assert(s.deleted() =~= Set::<u32>::empty());
            }
        }
        let d = choose|d: u32| s.deleted().contains(d);
        compact_plan::lemma_least_exists(s.deleted(), d);
        let m = compact_plan::least(s.deleted());
        lemma_leading(ids, m);
        let k = compact_plan::leading(ids, m);
        let at = if k == 0 {
            0int
        } else {
            k - 1
        };
        assert(s.deleted().contains(m));
        assert(first_deletion_in(s, at));
    }
}

/// The sizes of the first `n` documents of a segment that are not deleted.
pub open spec fn undeleted_bytes(seg: MmapSegment, base: u32, deleted: Set<u32>, n: int) -> nat
    decreases n,
{
    if n <= 0 {
        0
    } else {
        undeleted_bytes(seg, base, deleted, n - 1) + match snapshot::doc_of(seg, n - 1) {
            Some(d) => if deleted.contains((base + (n - 1)) as u32) {
                0
            } else {
                d.size_bytes as nat
            },
            None => 0,
        }
    }
}

/// The undeleted bytes of the segments `from..n`.
pub open spec fn undeleted_from(s: IndexSnapshot, from: int, n: int) -> nat
    decreases n - from,
{
    if n <= from {
        0
    } else {
        undeleted_from(s, from, n - 1) + undeleted_bytes(
            s.segs()[n - 1],
            s.base.base_ids@[n - 1],
            s.deleted(),
            s.segs()[n - 1].doc_count as int,
        )
    }
}

/// The bytes of overlay documents.
pub open spec fn content_bytes(docs: Seq<OverlayDocView>, n: int) -> nat
    decreases n,
{
    if n <= 0 {
        0
    } else {
        content_bytes(docs, n - 1) + docs[n - 1].content.len()
    }
}

/// What a segment's manifest entry says of its bytes is the sum of its documents'
/// sizes, and its ids fit in 32 bits.
pub open spec fn bytes_recorded(s: IndexSnapshot) -> bool {
    &&& s.base.base_ids@.len() == s.segs().len()
    &&& forall|i: int|
        0 <= i < s.segs().len() ==> s.base.base_ids@[i] + (#[trigger] s.segs()[i]).doc_count
            <= u32::MAX && (s.segs()[i].doc_bytes matches Some(total) ==> total == undeleted_bytes(
            s.segs()[i],
            s.base.base_ids@[i],
            Set::empty(),
            s.segs()[i].doc_count as int,
        ))
}

proof fn lemma_sized(seg: MmapSegment, base: u32, deleted: Set<u32>, n: nat)
    requires
        base + n <= u32::MAX,
    ensures
        compact_plan::sized(seg, base, deleted, false, n) == undeleted_bytes(
            seg,
            base,
            deleted,
            n as int,
        ),
        compact_plan::sized(seg, base, deleted, true, n) + undeleted_bytes(
            seg,
            base,
            deleted,
            n as int,
        ) == undeleted_bytes(seg, base, Set::empty(), n as int),
    decreases n,
{
    if n > 0 {
        lemma_sized(seg, base, deleted, (n - 1) as nat);
        assert(!Set::<u32>::empty().contains((base + (n - 1)) as u32));
    }
}

proof fn lemma_base_bytes(s: IndexSnapshot, from: int, n: int)
    requires
        0 <= from,
        n <= s.segs().len(),
        bytes_recorded(s),
    ensures
        compact_plan::base_live_bytes(s.segs(), s.base.base_ids@, s.deleted(), from, n)
            == undeleted_from(s, from, n),
    decreases n - from,
{
    if n > from {
        lemma_base_bytes(s, from, n - 1);
        let i = n - 1;
        lemma_sized(
            s.segs()[i],
            s.base.base_ids@[i],
            s.deleted(),
            s.segs()[i].doc_count as nat,
        );
    }
}

proof fn lemma_overlay_bytes(docs: Seq<OverlayDocView>, n: int)
    requires
        0 <= n <= docs.len(),
    ensures
        compact_plan::overlay_bytes(docs.take(n)) == content_bytes(docs, n),
    decreases n,
{
    if n > 0 {
        lemma_overlay_bytes(docs, n - 1);
        assert(docs.take(n).drop_last() =~= docs.take(n - 1));
        assert(docs.take(n).last() == docs[n - 1]);
    }
}

/// A plan counts what is rewritten: the documents of its segments that are not deleted,
/// and those of the overlay; whether a segment's bytes were recorded makes no
/// difference. Its segments are large enough for its target to hold them all, and no
/// larger than that, but never below the size of a build's.
pub proof fn law_batches_are_sized_by_what_is_live(s: IndexSnapshot, c: Config)
    requires
        bytes_recorded(s),
        s.segs().len() <= usize::MAX,
        undeleted_from(s, 0, s.segs().len() as int) + content_bytes(
            s.overlay.documents(),
            s.overlay.documents().len() as int,
        ) + s.segs().len() + c.max_segments <= u64::MAX,
    ensures
        compact_plan::forced(s, c) matches Some(p) ==> {
            let live = undeleted_from(s, p.suffix_start as int, s.segs().len() as int)
                + content_bytes(s.overlay.documents(), s.overlay.documents().len() as int);
            &&& p.batch_size_bytes >= 268_435_456
            &&& p.batch_size_bytes * p.target_segments >= live
            &&& p.batch_size_bytes > 268_435_456 ==> (p.batch_size_bytes - 1) * p.target_segments
                < live
        },
{
    if let Some(p) = compact_plan::forced(s, c) {
        let n = s.segs().len() as int;
        let docs = s.overlay.documents();
        compact_plan::law_plans_are_in_range(s, c);
        lemma_base_bytes(s, p.suffix_start as int, n);
        lemma_overlay_bytes(docs, docs.len() as int);
        assert(docs.take(docs.len() as int) =~= docs);
        let live = undeleted_from(s, p.suffix_start as int, n) + content_bytes(
            docs,
            docs.len() as int,
        );
        lemma_less_is_live(s, p.suffix_start as int, n);
        assert(live == compact_plan::live_bytes(s, p.suffix_start as int));
        law_compaction_starts_late(s, c);
        let t = p.target_segments as int;
        assert(1 <= t);
        assert(t <= n + c.max_segments + 1);
        assert(p.batch_size_bytes == compact_plan::batch_size(live as u64, p.target_segments));
        let up = live + (t - 1);
        if live > 0 {
            assert(up <= u64::MAX);
            let share = up / t;
            assert(share * t <= up < share * t + t) by (nonlinear_arith)
                requires
                    share == up / t,
                    t > 0,
            ;
            let b = p.batch_size_bytes as int;
            assert(b >= share);
            assert(b * t >= share * t) by (nonlinear_arith)
                requires
                    b >= share,
                    t > 0,
            ;
            if b > 268_435_456 {
                assert(b == share);
                assert((b - 1) * t == b * t - t) by (nonlinear_arith);
            }
        } else {
            assert(p.batch_size_bytes * t >= 0) by (nonlinear_arith)
                requires
                    p.batch_size_bytes >= 0,
                    t > 0,
            ;
        }
    }
}

proof fn lemma_less_is_live(s: IndexSnapshot, from: int, n: int)
    requires
        0 <= from,
    ensures
        undeleted_from(s, from, n) <= undeleted_from(s, 0, n),
    decreases n,
{
    if n > from {
        lemma_less_is_live(s, from, n - 1);
    }
}

} // verus!
