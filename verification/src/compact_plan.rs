//! Whether, where and how much to compact.

use crate::bitmap;
use crate::config::Config;
use crate::overlay::OverlayDocView;
use crate::segment::reader::MmapSegment;
use crate::segment::writer;
use crate::snapshot;
use crate::snapshot::IndexSnapshot;
use vstd::prelude::*;

verus! {

/// Content bytes after which a new segment is started: 256 MiB.
pub const BATCH_SIZE_BYTES: u64 = 268_435_456;

/// Fewer file ids than this are never too many.
pub const FILE_ID_FLOOR: usize = 1024;

/// Why an index is compacted.
#[derive(Debug, Clone, Copy, PartialEq, Eq, Structural)]
pub enum CompactionReason {
    /// The overlay is more than a tenth of the base.
    OverlayRatio,
    /// There are more segments than the limit.
    SegmentLimit,
    /// The file ids run far ahead of the live paths.
    FileIdBloat,
    /// It was asked for.
    ExplicitRequest,
}

/// What a compaction does: it rewrites the segments from `suffix_start` on, and
/// the overlay, into segments of about `batch_size_bytes`.
#[derive(Debug, Clone, Copy, PartialEq, Eq, Structural)]
pub struct CompactionPlan {
    pub reason: CompactionReason,
    pub suffix_start: usize,
    pub batch_size_bytes: u64,
    pub target_segments: usize,
}

/// The size of document `local`, zero if the segment does not hold it.
pub open spec fn size_at(seg: MmapSegment, local: int) -> nat {
    match snapshot::doc_of(seg, local) {
        Some(d) => d.size_bytes as nat,
        None => 0,
    }
}

/// Document `local` is deleted, or live, as `want` says.
pub open spec fn counts(base: u32, deleted: Set<u32>, want: bool, local: int) -> bool {
    base + local <= u32::MAX && deleted.contains((base + local) as u32) == want
}

/// The sizes of the deleted, or of the live, documents among the first `n`.
pub open spec fn sized(seg: MmapSegment, base: u32, deleted: Set<u32>, want: bool, n: nat) -> nat
    decreases n,
{
    if n == 0 {
        0
    } else {
        sized(seg, base, deleted, want, (n - 1) as nat) + if counts(base, deleted, want, n - 1) {
            size_at(seg, n - 1)
        } else {
            0
        }
    }
}

/// The bytes of a segment's live documents. Where the manifest recorded the
/// bytes of all, those of the deleted ones are taken off.
pub open spec fn segment_live_bytes(seg: MmapSegment, base: u32, deleted: Set<u32>) -> nat {
    match seg.doc_bytes {
        Some(total) => {
            let gone = sized(seg, base, deleted, true, seg.doc_count as nat);
            if gone > total {
                0
            } else {
                (total - gone) as nat
            }
        },
        None => sized(seg, base, deleted, false, seg.doc_count as nat),
    }
}

/// The live bytes of the segments `from..n`.
pub open spec fn base_live_bytes(
    segs: Seq<MmapSegment>,
    base_ids: Seq<u32>,
    deleted: Set<u32>,
    from: int,
    n: int,
) -> nat
    decreases n - from,
{
    if n <= from {
        0
    } else {
        base_live_bytes(segs, base_ids, deleted, from, n - 1) + segment_live_bytes(
            segs[n - 1],
            snapshot::base_of(base_ids, n - 1),
            deleted,
        )
    }
}

/// The content bytes of overlay documents.
pub open spec fn overlay_bytes(docs: Seq<OverlayDocView>) -> nat
    decreases docs.len(),
{
    if docs.len() == 0 {
        0
    } else {
        overlay_bytes(docs.drop_last()) + docs.last().content.len()
    }
}

/// The live bytes of the segments from `suffix_start` on and of the overlay.
pub open spec fn live_bytes(s: IndexSnapshot, suffix_start: int) -> u64 {
    writer::clamp64(
        base_live_bytes(
            s.segs(),
            s.base.base_ids@,
            s.deleted(),
            suffix_start,
            s.segs().len() as int,
        ) + overlay_bytes(s.overlay.documents()),
    )
}

proof fn lemma_sized_gap(
    seg: MmapSegment,
    base: u32,
    deleted: Set<u32>,
    n: nat,
    m: nat,
)
    requires
        n <= m,
        forall|l: int| n <= l < m ==> !#[trigger] counts(base, deleted, true, l),
    ensures
        sized(seg, base, deleted, true, m) == sized(seg, base, deleted, true, n),
    decreases m,
{
    if n < m {
        lemma_sized_gap(seg, base, deleted, n, (m - 1) as nat);
        assert(!counts(base, deleted, true, m - 1));
    }
}

/// The bytes of a segment's deleted documents; `ids` lists the delete set.
fn deleted_segment_bytes(seg: &MmapSegment, base: u32, ids: &Vec<u32>) -> (n: u64)
    requires
        seg.wf(),
        bitmap::strictly_ascending(ids@),
    ensures
        n == writer::clamp64(
            sized(*seg, base, ids@.to_set(), true, seg.doc_count as nat),
        ),
{
    let ghost deleted = ids@.to_set();
    let mut acc: u64 = 0;
    let mut done: u64 = 0;
    let mut k: usize = 0;
    let end: u64 = base as u64 + seg.doc_count as u64;
    while k < ids.len() && (ids[k] as u64) < end
        invariant
            seg.wf(),
            bitmap::strictly_ascending(ids@),
            deleted == ids@.to_set(),
            end == base + seg.doc_count,
            k <= ids@.len(),
            done <= seg.doc_count,
            acc == writer::clamp64(sized(*seg, base, deleted, true, done as nat)),
            forall|j: int| 0 <= j < k ==> #[trigger] ids@[j] < base + done,
            forall|j: int|
                k <= j < ids@.len() ==> (#[trigger] ids@[j] >= base + done || ids@[j] < base),
        decreases ids@.len() - k,
    {
        let id: u32 = ids[k];
        if id >= base {
            let local: u32 = id - base;
            proof {
                assert forall|l: int| done <= l < local implies !#[trigger] counts(
                    base,
                    deleted,
                    true,
                    l,
                ) by {
                    if counts(base, deleted, true, l) {
                        let j = choose|j: int| 0 <= j < ids@.len() && ids@[j] == (base + l) as u32;
                        if j > k {
                            assert(ids@[k as int] < ids@[j]);
                        }
                    }
                }
                lemma_sized_gap(*seg, base, deleted, done as nat, local as nat);
                assert(ids@.contains(ids@[k as int]));
                assert(counts(base, deleted, true, local as int));
            }
            match seg.get_doc(local) {
                Some(d) => {
                    acc = acc.saturating_add(d.size_bytes);
                },
                None => {},
            }
            done = local as u64 + 1;
        }
        k = k + 1;
    }
    proof {
        assert forall|l: int| done <= l < seg.doc_count implies !#[trigger] counts(
            base,
            deleted,
            true,
            l,
        ) by {
            if counts(base, deleted, true, l) {
                let j = choose|j: int| 0 <= j < ids@.len() && ids@[j] == (base + l) as u32;
                if j > k {
                    assert(ids@[k as int] < ids@[j]);
                }
            }
        }
        lemma_sized_gap(*seg, base, deleted, done as nat, seg.doc_count as nat);
    }
    acc
}

/// The bytes of a segment's live documents, document by document.
fn live_segment_bytes(seg: &MmapSegment, base: u32, s: &IndexSnapshot) -> (n: u64)
    requires
        seg.wf(),
    ensures
        n == writer::clamp64(sized(*seg, base, s.deleted(), false, seg.doc_count as nat)),
{
    let mut acc: u64 = 0;
    let mut local: u32 = 0;
    while local < seg.doc_count
        invariant
            seg.wf(),
            local <= seg.doc_count,
            acc == writer::clamp64(sized(*seg, base, s.deleted(), false, local as nat)),
        decreases seg.doc_count - local,
    {
        match base.checked_add(local) {
            Some(id) => {
                if !bitmap::contains(&s.delete_set, id) {
                    match seg.get_doc(local) {
                        Some(d) => {
                            acc = acc.saturating_add(d.size_bytes);
                        },
                        None => {},
                    }
                }
            },
            None => {},
        }
        local = local + 1;
    }
    acc
}

/// The live bytes of the segments from `suffix_start` on and of the overlay.
pub fn live_snapshot_bytes_from(s: &IndexSnapshot, suffix_start: usize) -> (n: u64)
    requires
        s.wf(),
    ensures
        n == live_bytes(*s, suffix_start as int),
{
    let ids = bitmap::to_vec(&s.delete_set);
    let ghost segs = s.segs();
    let ghost base_ids = s.base.base_ids@;
    let ghost deleted = s.deleted();
    let mut acc: u64 = 0;
    let mut i: usize = suffix_start;
    while i < s.base.segments.len()
        invariant
            segs == s.segs(),
            base_ids == s.base.base_ids@,
            deleted == s.deleted(),
            snapshot::segments_wf(segs),
            bitmap::strictly_ascending(ids@),
            ids@.to_set() == deleted,
            suffix_start <= i,
            i > suffix_start ==> i <= segs.len(),
            acc == writer::clamp64(
                base_live_bytes(segs, base_ids, deleted, suffix_start as int, i as int),
            ),
        decreases segs.len() - i,
    {
        let seg: &MmapSegment = &s.base.segments[i];
        assert(segs[i as int].wf());
        let base: u32 = s.base.base_id_of(i);
        let bytes: u64 = match seg.doc_bytes {
            Some(total) => total.saturating_sub(deleted_segment_bytes(seg, base, &ids)),
            None => live_segment_bytes(seg, base, s),
        };
        acc = acc.saturating_add(bytes);
        i = i + 1;
    }
    assert(base_live_bytes(segs, base_ids, deleted, suffix_start as int, segs.len() as int)
        == base_live_bytes(segs, base_ids, deleted, suffix_start as int, i as int));
    let ghost base_bytes = base_live_bytes(
        segs,
        base_ids,
        deleted,
        suffix_start as int,
        segs.len() as int,
    );
    let ghost docs = s.overlay.documents();
    let mut k: usize = 0;
    while k < s.overlay.docs.len()
        invariant
            docs == s.overlay.documents(),
            k <= docs.len(),
            acc == writer::clamp64(base_bytes + overlay_bytes(docs.take(k as int))),
        decreases docs.len() - k,
    {
        proof {
            assert(docs.take(k + 1).drop_last() =~= docs.take(k as int));
            assert(docs.take(k + 1).last() == docs[k as int]);
        }
        let len: usize = s.overlay.docs[k].content.len();
        acc = acc.saturating_add(len as u64);
        k = k + 1;
    }
    assert(docs.take(k as int) =~= docs);
    acc
}

/// How many ids at the front of the list are at most `d`.
pub open spec fn leading(ids: Seq<u32>, d: u32) -> nat
    decreases ids.len(),
{
    if ids.len() == 0 || ids[0] > d {
        0
    } else {
        1 + leading(ids.drop_first(), d)
    }
}

/// The least id of a set.
pub open spec fn least(s: Set<u32>) -> u32 {
    choose|m: u32| is_least(s, m)
}

pub open spec fn is_least(s: Set<u32>, m: u32) -> bool {
    s.contains(m) && forall|y: u32| #[trigger] s.contains(y) ==> m <= y
}

/// The segment of the first deleted document.
pub open spec fn first_deleted(deleted: Set<u32>, base_ids: Seq<u32>) -> Option<usize> {
    if deleted == Set::<u32>::empty() {
        None
    } else {
        let n = leading(base_ids, least(deleted));
        Some(
            if n == 0 {
                0
            } else {
                (n - 1) as usize
            },
        )
    }
}

/// The segment of the first deleted document, if any is deleted.
pub fn first_deleted_segment(s: &IndexSnapshot) -> (r: Option<usize>)
    ensures
        r == first_deleted(s.deleted(), s.base.base_ids@),
{
    let d: u32 = match bitmap::min(&s.delete_set) {
        None => {
            return None;
        },
        Some(d) => d,
    };
    assert(is_least(s.deleted(), d));
    assert(least(s.deleted()) == d);
    let ids: &Vec<u32> = s.segment_base_ids();
    let ghost all = ids@;
    let mut i: usize = 0;
    assert(all.skip(0) =~= all);
    while i < ids.len() && ids[i] <= d
        invariant
            all == ids@,
            i <= all.len(),
            leading(all, d) == i + leading(all.skip(i as int), d),
        decreases all.len() - i,
    {
        assert(all.skip(i as int).drop_first() =~= all.skip(i + 1));
        i = i + 1;
    }
    assert(leading(all.skip(i as int), d) == 0);
    if i == 0 {
        Some(0)
    } else {
        Some(i - 1)
    }
}

/// Bytes per segment so that `total` bytes make `target` segments, but no fewer
/// than [`BATCH_SIZE_BYTES`].
pub open spec fn batch_size(total: u64, target: usize) -> u64 {
    if total == 0 {
        BATCH_SIZE_BYTES
    } else {
        let t = if target == 0 { 1 } else { target as int };
        let share = (writer::clamp64((total + (t - 1)) as nat) as int / t) as u64;
        if share > BATCH_SIZE_BYTES {
            share
        } else {
            BATCH_SIZE_BYTES
        }
    }
}

/// The batch size of a compaction from `suffix_start` into `target_segments`.
pub fn batch_size_for_plan(s: &IndexSnapshot, suffix_start: usize, target_segments: usize) -> (n:
    u64)
    requires
        s.wf(),
    ensures
        n == batch_size(live_bytes(*s, suffix_start as int), target_segments),
{
    let total: u64 = live_snapshot_bytes_from(s, suffix_start);
    if total == 0 {
        return BATCH_SIZE_BYTES;
    }
    let t: u64 = if target_segments == 0 {
        1
    } else {
        target_segments as u64
    };
    let share: u64 = total.saturating_add(t - 1) / t;
    if share > BATCH_SIZE_BYTES {
        share
    } else {
        BATCH_SIZE_BYTES
    }
}

/// The plan of a compaction for a reason.
pub open spec fn plan_for(
    s: IndexSnapshot,
    reason: CompactionReason,
    suffix_start: usize,
    target_segments: usize,
) -> CompactionPlan {
    let target = if target_segments == 0 {
        1
    } else {
        target_segments
    };
    CompactionPlan {
        reason,
        suffix_start,
        batch_size_bytes: batch_size(live_bytes(s, suffix_start as int), target),
        target_segments: target,
    }
}

/// The plan of a compaction for a reason.
pub fn make_plan(
    s: &IndexSnapshot,
    reason: CompactionReason,
    suffix_start: usize,
    target_segments: usize,
) -> (p: CompactionPlan)
    requires
        s.wf(),
    ensures
        p == plan_for(*s, reason, suffix_start, target_segments),
{
    let target: usize = if target_segments == 0 {
        1
    } else {
        target_segments
    };
    CompactionPlan {
        reason,
        suffix_start,
        batch_size_bytes: batch_size_for_plan(s, suffix_start, target),
        target_segments: target,
    }
}

/// The overlay is more than a tenth of the base, or is there without a base.
pub open spec fn overlay_ratio_exceeded(s: IndexSnapshot) -> bool {
    if snapshot::doc_sum(s.segs()) == 0 {
        s.overlay.docs@.len() > 0
    } else {
        10 * s.overlay.docs@.len() > snapshot::doc_sum(s.segs())
    }
}

/// There are more segments than the limit.
pub open spec fn segment_limit_exceeded(s: IndexSnapshot, c: Config) -> bool {
    s.segs().len() > c.segment_limit()
}

/// The next file id is more than four times the number of live paths.
pub open spec fn file_id_bloat(s: IndexSnapshot) -> bool {
    s.path_index.next_id > FILE_ID_FLOOR && s.path_index.next_id
        > 4 * s.path_index.file_ids().len()
}

pub open spec fn lesser(a: usize, b: usize) -> usize {
    if a < b {
        a
    } else {
        b
    }
}

/// Where the rewritten segments start, when a threshold is exceeded: at the
/// first deletion, and early enough to come under the segment limit.
pub open spec fn suffix_for(s: IndexSnapshot, c: Config) -> usize {
    let count = s.segs().len() as usize;
    let delete_start = match first_deleted(s.deleted(), s.base.base_ids@) {
        Some(i) => i,
        None => count,
    };
    let limit_start = if segment_limit_exceeded(s, c) {
        lesser((c.segment_limit() - 1) as usize, count)
    } else {
        count
    };
    lesser(delete_start, limit_start)
}

/// How many segments the rewritten ones become.
pub open spec fn target_for(s: IndexSnapshot, c: Config) -> usize {
    if segment_limit_exceeded(s, c) && c.segment_limit() > suffix_for(s, c) {
        (c.segment_limit() - suffix_for(s, c)) as usize
    } else {
        1
    }
}

/// The compaction that an index needs, if it needs one.
pub open spec fn needed(s: IndexSnapshot, c: Config) -> Option<CompactionPlan> {
    if overlay_ratio_exceeded(s) {
        Some(plan_for(s, CompactionReason::OverlayRatio, suffix_for(s, c), target_for(s, c)))
    } else if segment_limit_exceeded(s, c) {
        Some(plan_for(s, CompactionReason::SegmentLimit, suffix_for(s, c), target_for(s, c)))
    } else if file_id_bloat(s) {
        Some(plan_for(s, CompactionReason::FileIdBloat, 0, 1))
    } else {
        None
    }
}

/// The compaction that is done on request: the needed one, or one that folds
/// in what overlay and deletions there are.
pub open spec fn forced(s: IndexSnapshot, c: Config) -> Option<CompactionPlan> {
    match needed(s, c) {
        Some(p) => Some(p),
        None => if s.overlay.docs@.len() == 0 && s.deleted() == Set::<u32>::empty() {
            None
        } else {
            Some(
                plan_for(
                    s,
                    CompactionReason::ExplicitRequest,
                    match first_deleted(s.deleted(), s.base.base_ids@) {
                        Some(i) => i,
                        None => s.segs().len() as usize,
                    },
                    1,
                ),
            )
        },
    }
}

/// Decides whether an index needs compaction, and which.
pub fn plan(s: &IndexSnapshot, config: &Config) -> (r: Option<CompactionPlan>)
    requires
        s.wf(),
    ensures
        r == needed(*s, *config),
{
    let base_docs: u128 = snapshot::count_docs(s.base_segments());
    let overlay_docs: u128 = s.overlay.docs.len() as u128;
    let ratio_exceeded: bool = if base_docs == 0 {
        overlay_docs > 0
    } else {
        10 * overlay_docs > base_docs
    };
    let count: usize = s.base.segments.len();
    let limit: usize = config.max_segments_at_least_one();
    let limit_exceeded: bool = count > limit;
    let next: u64 = s.path_index.next_file_id() as u64;
    let live: u128 = s.path_index.live_path_count() as u128;
    let bloat: bool = next > 1024 && (next as u128) > 4 * live;
    if !ratio_exceeded && !limit_exceeded {
        if !bloat {
            return None;
        }
        return Some(make_plan(s, CompactionReason::FileIdBloat, 0, 1));
    }
    let delete_start: usize = match first_deleted_segment(s) {
        Some(i) => i,
        None => count,
    };
    let limit_start: usize = if limit_exceeded {
        if limit - 1 < count {
            limit - 1
        } else {
            count
        }
    } else {
        count
    };
    let suffix_start: usize = if delete_start < limit_start {
        delete_start
    } else {
        limit_start
    };
    let target: usize = if limit_exceeded && limit > suffix_start {
        limit - suffix_start
    } else {
        1
    };
    let reason = if ratio_exceeded {
        CompactionReason::OverlayRatio
    } else {
        CompactionReason::SegmentLimit
    };
    Some(make_plan(s, reason, suffix_start, target))
}

/// Decides what a compaction on request does, if there is anything to do.
pub fn forced_plan(s: &IndexSnapshot, config: &Config) -> (r: Option<CompactionPlan>)
    requires
        s.wf(),
    ensures
        r == forced(*s, *config),
{
    match plan(s, config) {
        Some(p) => {
            return Some(p);
        },
        None => {},
    }
    if s.overlay.docs.len() == 0 && bitmap::is_empty(&s.delete_set) {
        return None;
    }
    let suffix_start: usize = match first_deleted_segment(s) {
        Some(i) => i,
        None => s.base.segments.len(),
    };
    Some(make_plan(s, CompactionReason::ExplicitRequest, suffix_start, 1))
}

proof fn lemma_leading_len(ids: Seq<u32>, d: u32)
    ensures
        leading(ids, d) <= ids.len(),
    decreases ids.len(),
{
    if ids.len() > 0 {
        lemma_leading_len(ids.drop_first(), d);
    }
}

/// A needed compaction is also what a request does; and a request does nothing
/// only where nothing is needed, nothing is dirty and nothing is deleted.
pub proof fn law_request_covers_need(s: IndexSnapshot, c: Config)
    ensures
        needed(s, c) is Some ==> forced(s, c) == needed(s, c),
        forced(s, c) is None <==> needed(s, c) is None && s.overlay.docs@.len() == 0 && s.deleted()
            == Set::<u32>::empty(),
{
}

/// Every plan starts inside the list of segments, aims at one segment at least,
/// and fills segments with no fewer bytes than a build does.
pub proof fn law_plans_are_in_range(s: IndexSnapshot, c: Config)
    requires
        s.base.base_ids@.len() == s.segs().len(),
        s.segs().len() <= usize::MAX,
    ensures
        forced(s, c) matches Some(p) ==> p.suffix_start <= s.segs().len() && p.target_segments >= 1
            && p.batch_size_bytes >= BATCH_SIZE_BYTES,
{
    lemma_leading_len(s.base.base_ids@, least(s.deleted()));
}

proof fn lemma_leading_are_at_most(ids: Seq<u32>, d: u32, i: int)
    requires
        0 <= i < leading(ids, d),
    ensures
        i < ids.len(),
        ids[i] <= d,
    decreases ids.len(),
{
    if i > 0 {
        lemma_leading_are_at_most(ids.drop_first(), d, i - 1);
    }
}

pub(crate) proof fn lemma_least_exists(s: Set<u32>, d: u32)
    requires
        s.contains(d),
    ensures
        is_least(s, least(s)),
    decreases d,
{
    if !is_least(s, d) {
        let y = choose|y: u32| #[trigger] s.contains(y) && y < d;
        lemma_least_exists(s, y);
    }
}

/// No segment has ids of a later one.
pub open spec fn apart(segs: Seq<MmapSegment>, base_ids: Seq<u32>) -> bool {
    forall|i: int, j: int|
        0 <= i < j < segs.len() ==> #[trigger] snapshot::base_of(base_ids, i) + segs[i].doc_count
            <= #[trigger] snapshot::base_of(base_ids, j)
}

/// A plan keeps no segment that holds a deleted document, so no deletion is lost
/// with the delete set.
pub proof fn law_kept_segments_have_no_deletions(s: IndexSnapshot, c: Config, i: int, d: u32)
    requires
        s.base.base_ids@.len() == s.segs().len(),
        s.segs().len() <= usize::MAX,
        apart(s.segs(), s.base.base_ids@),
        s.deleted().contains(d),
    ensures
        forced(s, c) matches Some(p) ==> 0 <= i < p.suffix_start ==> !snapshot::in_segment(
            s.segs(),
            s.base.base_ids@,
            i,
            d,
        ),
{
    let ids = s.base.base_ids@;
    let m = least(s.deleted());
    lemma_least_exists(s.deleted(), d);
    lemma_leading_len(ids, m);
    if 0 <= i && i + 1 < leading(ids, m) {
        lemma_leading_are_at_most(ids, m, i + 1);
        assert(snapshot::base_of(ids, i) + s.segs()[i].doc_count <= snapshot::base_of(ids, i + 1));
    }
}

} // verus!
