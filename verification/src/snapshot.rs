//! What a query sees: base segments, overlay and delete set at one moment.

use crate::bitmap;
use crate::overlay;
use crate::overlay::{OverlayDocView, OverlayView};
use crate::path_index::PathIndex;
use crate::path_resolve;
use crate::paths::PathMap;
use crate::segment::layout::DocView;
use crate::segment::reader;
use crate::segment::reader::MmapSegment;
use roaring::RoaringBitmap;
use std::collections::{HashMap, VecDeque};
use std::sync::Arc;
use vstd::prelude::*;

verus! {

broadcast use vstd::std_specs::hash::group_hash_axioms;

/// The base segments with the ids and paths of their documents.
pub struct BaseSegments {
    /// The segments.
    pub segments: Vec<MmapSegment>,
    /// First document id of each segment.
    pub base_ids: Vec<u32>,
    /// Path of each base document id; absent in gaps between segments.
    pub base_doc_paths: Vec<Option<Vec<u8>>>,
    /// The base document ids of each path.
    pub path_doc_ids: PathMap<Vec<u32>>,
}

/// A view of the index at one moment.
pub struct IndexSnapshot {
    /// The base, shared between snapshots.
    pub base: Arc<BaseSegments>,
    /// The dirty files.
    pub overlay: OverlayView,
    /// Base documents that dirty files replaced or removed.
    pub delete_set: RoaringBitmap,
    /// File ids of the live paths.
    pub path_index: PathIndex,
    /// File id of each overlay document.
    pub overlay_doc_to_file_id: HashMap<u32, u32>,
}

/// The documents of all segments together.
pub open spec fn doc_sum(segs: Seq<MmapSegment>) -> nat
    decreases segs.len(),
{
    if segs.len() == 0 {
        0
    } else {
        doc_sum(segs.drop_last()) + segs.last().doc_count as nat
    }
}

/// Document `local` of a segment.
pub open spec fn doc_of(seg: MmapSegment, local: int) -> Option<DocView> {
    if 0 <= local < seg.doc_count {
        reader::doc_in(seg.bytes(), seg.table(), seg.dict(), local as u32)
    } else {
        None
    }
}

/// Every segment passed its layout checks.
pub open spec fn segments_wf(segs: Seq<MmapSegment>) -> bool {
    forall|i: int| 0 <= i < segs.len() ==> (#[trigger] segs[i]).wf()
}

/// The first document id of segment `i`; zero where none is recorded.
pub open spec fn base_of(base_ids: Seq<u32>, i: int) -> u32 {
    if 0 <= i < base_ids.len() {
        base_ids[i]
    } else {
        0
    }
}

/// Segment `i` holds a document with the id `d`.
pub open spec fn in_segment(segs: Seq<MmapSegment>, base_ids: Seq<u32>, i: int, d: u32) -> bool {
    &&& 0 <= i < segs.len()
    &&& base_of(base_ids, i) <= d < base_of(base_ids, i) + segs[i].doc_count
}

/// A segment among the first `n` holds a document with the id `d`.
pub open spec fn in_base(segs: Seq<MmapSegment>, base_ids: Seq<u32>, n: int, d: u32) -> bool {
    exists|i: int| i < n && #[trigger] in_segment(segs, base_ids, i, d)
}

/// The ids of all segments fit in 32 bits.
pub open spec fn ids_fit(segs: Seq<MmapSegment>, base_ids: Seq<u32>) -> bool {
    forall|i: int|
        #![trigger segs[i]]
        0 <= i < segs.len() ==> base_of(base_ids, i) + segs[i].doc_count <= u32::MAX
}

/// The ids of overlay documents.
pub open spec fn overlay_ids(docs: Seq<OverlayDocView>) -> Set<u32> {
    Set::new(|d: u32| exists|i: int| 0 <= i < docs.len() && (#[trigger] docs[i]).doc_id == d)
}

/// The file id of the path at a document id, `u32::MAX` where there is none.
pub open spec fn file_id_of(path: Option<Vec<u8>>, ids: Map<Seq<u8>, u32>) -> u32 {
    match path {
        Some(p) => if ids.contains_key(path_resolve::normal(p@)) {
            ids[path_resolve::normal(p@)]
        } else {
            u32::MAX
        },
        None => u32::MAX,
    }
}

/// The file ids of the overlay documents whose path has one.
pub open spec fn overlay_file_ids(docs: Seq<OverlayDocView>, ids: Map<Seq<u8>, u32>) -> Map<
    u32,
    u32,
>
    decreases docs.len(),
{
    if docs.len() == 0 {
        Map::empty()
    } else {
        let rest = overlay_file_ids(docs.drop_last(), ids);
        let path = path_resolve::normal(docs.last().path);
        if ids.contains_key(path) {
            rest.insert(docs.last().doc_id, ids[path])
        } else {
            rest
        }
    }
}

/// How many documents the segments hold.
pub(crate) fn count_docs(segs: &Vec<MmapSegment>) -> (n: u128)
    ensures
        n == doc_sum(segs@),
{
    let mut n: u128 = 0;
    let mut i: usize = 0;
    while i < segs.len()
        invariant
            i <= segs@.len(),
            n == doc_sum(segs@.take(i as int)),
            n <= i * 0x1_0000_0000,
        decreases segs@.len() - i,
    {
        let _len: usize = segs.len();
        assert(segs@.take(i + 1).drop_last() =~= segs@.take(i as int));
        n = n + segs[i].doc_count as u128;
        i = i + 1;
    }
    assert(segs@.take(i as int) =~= segs@);
    n
}

impl BaseSegments {
    pub open spec fn wf(self) -> bool {
        segments_wf(self.segments@) && self.path_doc_ids.wf()
    }

    /// A base without segments.
    pub fn empty() -> (r: Self)
        ensures
            r.wf(),
            r.segments@.len() == 0,
            r.base_ids@.len() == 0,
            r.base_doc_paths@.len() == 0,
            r.path_doc_ids@ == Map::<Seq<u8>, Vec<u32>>::empty(),
    {
        BaseSegments {
            segments: Vec::new(),
            base_ids: Vec::new(),
            base_doc_paths: Vec::new(),
            path_doc_ids: PathMap::new(),
        }
    }

    /// First document id of segment `i`; zero where none is recorded.
    pub fn base_id_of(&self, i: usize) -> (b: u32)
        ensures
            b == base_of(self.base_ids@, i as int),
    {
        if i < self.base_ids.len() {
            self.base_ids[i]
        } else {
            0
        }
    }

    /// File id of every base document; `u32::MAX` where there is none.
    pub fn base_doc_to_file_id(&self, path_index: &PathIndex) -> (r: Vec<u32>)
        requires
            path_index.wf(),
        ensures
            r@.len() == self.base_doc_paths@.len(),
            forall|i: int|
                0 <= i < r@.len() ==> #[trigger] r@[i] == file_id_of(
                    self.base_doc_paths@[i],
                    path_index.file_ids(),
                ),
    {
        let mut r: Vec<u32> = Vec::new();
        let mut i: usize = 0;
        while i < self.base_doc_paths.len()
            invariant
                path_index.wf(),
                i <= self.base_doc_paths@.len(),
                r@.len() == i,
                forall|k: int|
                    0 <= k < i ==> #[trigger] r@[k] == file_id_of(
                        self.base_doc_paths@[k],
                        path_index.file_ids(),
                    ),
            decreases self.base_doc_paths@.len() - i,
        {
            let id: u32 = match &self.base_doc_paths[i] {
                Some(p) => match path_index.file_id(p.as_slice()) {
                    Some(id) => id,
                    None => u32::MAX,
                },
                None => u32::MAX,
            };
            r.push(id);
            i = i + 1;
        }
        r
    }
}

/// The file ids of the overlay documents.
pub fn map_overlay_docs(view: &OverlayView, path_index: &PathIndex) -> (r: HashMap<u32, u32>)
    requires
        path_index.wf(),
    ensures
        r@ == overlay_file_ids(view.documents(), path_index.file_ids()),
{
    let ghost docs = view.documents();
    let mut r: HashMap<u32, u32> = HashMap::new();
    let mut i: usize = 0;
    while i < view.docs.len()
        invariant
            path_index.wf(),
            docs == view.documents(),
            i <= docs.len(),
            r@ == overlay_file_ids(docs.take(i as int), path_index.file_ids()),
        decreases docs.len() - i,
    {
        proof {
            assert(docs.take(i + 1).drop_last() =~= docs.take(i as int));
            assert(docs.take(i + 1).last() == docs[i as int]);
        }
        match path_index.file_id(view.docs[i].path.as_slice()) {
            Some(id) => {
                r.insert(view.docs[i].doc_id, id);
            },
            None => {},
        }
        i = i + 1;
    }
    assert(docs.take(i as int) =~= docs);
    r
}

/// A snapshot of these parts.
pub fn new_snapshot(
    base: Arc<BaseSegments>,
    overlay: OverlayView,
    delete_set: RoaringBitmap,
    path_index: PathIndex,
    overlay_doc_to_file_id: HashMap<u32, u32>,
) -> (s: IndexSnapshot)
    ensures
        s == (IndexSnapshot { base, overlay, delete_set, path_index, overlay_doc_to_file_id }),
{
    IndexSnapshot { base, overlay, delete_set, path_index, overlay_doc_to_file_id }
}

impl IndexSnapshot {
    pub open spec fn wf(self) -> bool {
        self.base.wf() && self.overlay.wf() && self.path_index.wf()
    }

    /// The base segments.
    pub open spec fn segs(self) -> Seq<MmapSegment> {
        self.base.segments@
    }

    /// The deleted base documents.
    pub open spec fn deleted(self) -> Set<u32> {
        bitmap::values(self.delete_set)
    }

    /// The valid document ids: those of the base that are not deleted, and
    /// those of the overlay.
    pub open spec fn live_ids(self) -> Set<u32> {
        Set::new(
            |d: u32|
                in_base(self.segs(), self.base.base_ids@, self.segs().len() as int, d)
                    && !self.deleted().contains(d),
        ).union(overlay_ids(self.overlay.documents()))
    }

    /// File id of every base document; `u32::MAX` where there is none.
    pub fn base_doc_to_file_id(&self) -> (r: Vec<u32>)
        requires
            self.path_index.wf(),
        ensures
            r@.len() == self.base.base_doc_paths@.len(),
            forall|i: int|
                0 <= i < r@.len() ==> #[trigger] r@[i] == file_id_of(
                    self.base.base_doc_paths@[i],
                    self.path_index.file_ids(),
                ),
    {
        self.base.base_doc_to_file_id(&self.path_index)
    }

    /// The base segments.
    pub fn base_segments(&self) -> (r: &Vec<MmapSegment>)
        ensures
            *r == self.base.segments,
    {
        &self.base.segments
    }

    /// First document id of each base segment.
    pub fn segment_base_ids(&self) -> (r: &Vec<u32>)
        ensures
            *r == self.base.base_ids,
    {
        &self.base.base_ids
    }

    /// All valid document ids: base without deleted, plus overlay.
    pub fn all_doc_ids(&self) -> (r: RoaringBitmap)
        requires
            ids_fit(self.segs(), self.base.base_ids@),
        ensures
            bitmap::values(r) == self.live_ids(),
    {
        let mut bm = bitmap::new();
        let mut i: usize = 0;
        let ghost segs = self.segs();
        let ghost ids = self.base.base_ids@;
        let ghost deleted = self.deleted();
        while i < self.base.segments.len()
            invariant
                segs == self.segs(),
                ids == self.base.base_ids@,
                deleted == self.deleted(),
                ids_fit(segs, ids),
                i <= segs.len(),
                forall|d: u32|
                    #![trigger bitmap::values(bm).contains(d)]
                    bitmap::values(bm).contains(d) <==> in_base(segs, ids, i as int, d)
                        && !deleted.contains(d),
            decreases segs.len() - i,
        {
            let base: u32 = self.base.base_id_of(i);
            let count: u32 = self.base.segments[i].doc_count;
            let ghost at_start = bitmap::values(bm);
            let mut local: u32 = 0;
            assert(base + segs[i as int].doc_count <= u32::MAX);
            while local < count
                invariant
                    count == segs[i as int].doc_count,
                    base + count <= u32::MAX,
                    deleted == self.deleted(),
                    local <= count,
                    forall|d: u32|
                        #![trigger bitmap::values(bm).contains(d)]
                        bitmap::values(bm).contains(d) <==> at_start.contains(d) || (base <= d
                            < base + local && !deleted.contains(d)),
                decreases count - local,
            {
                let global: u32 = base + local;
                if !bitmap::contains(&self.delete_set, global) {
                    bitmap::insert(&mut bm, global);
                }
                local = local + 1;
            }
            assert forall|d: u32|
                #![trigger bitmap::values(bm).contains(d)]
                bitmap::values(bm).contains(d) <==> in_base(segs, ids, i + 1, d)
                    && !deleted.contains(d) by {
                assert(at_start.contains(d) <==> in_base(segs, ids, i as int, d)
                    && !deleted.contains(d));
                if in_base(segs, ids, i as int, d) {
                    let k = choose|k: int| k < i && #[trigger] in_segment(segs, ids, k, d);
                    assert(k < i + 1 && in_segment(segs, ids, k, d));
                }
                if base <= d < base + count {
                    assert(in_segment(segs, ids, i as int, d));
                }
                if in_base(segs, ids, i + 1, d) {
                    let k = choose|k: int| k < i + 1 && #[trigger] in_segment(segs, ids, k, d);
                    if k < i {
                        assert(in_base(segs, ids, i as int, d));
                    }
                }
            }
            i = i + 1;
        }
        let ghost base_live = bitmap::values(bm);
        let ghost docs = self.overlay.documents();
        let mut k: usize = 0;
        while k < self.overlay.docs.len()
            invariant
                docs == self.overlay.documents(),
                k <= docs.len(),
                forall|d: u32|
                    #![trigger bitmap::values(bm).contains(d)]
                    bitmap::values(bm).contains(d) <==> base_live.contains(d) || exists|j: int|
                        0 <= j < k && (#[trigger] docs[j]).doc_id == d,
            decreases docs.len() - k,
        {
            let ghost before = bitmap::values(bm);
            bitmap::insert(&mut bm, self.overlay.docs[k].doc_id);
            assert forall|d: u32|
                #![trigger bitmap::values(bm).contains(d)]
                bitmap::values(bm).contains(d) <==> base_live.contains(d) || exists|j: int|
                    0 <= j < k + 1 && (#[trigger] docs[j]).doc_id == d by {
                assert(before.contains(d) <==> base_live.contains(d) || exists|j: int|
                    0 <= j < k && (#[trigger] docs[j]).doc_id == d);
                assert(docs[k as int].doc_id == self.overlay.docs@[k as int].doc_id);
            }
            k = k + 1;
        }
        assert(bitmap::values(bm) =~= self.live_ids());
        bm
    }
}

/// The most bytes that cached bitmaps of a snapshot may take: 256 MiB.
pub const POSTING_BITMAP_CACHE_MAX_BYTES: usize = 268_435_456;

/// A cached bitmap and its serialized size.
#[verifier::ext_equal]
pub struct CacheEntry {
    pub key: u64,
    pub bitmap: RoaringBitmap,
}

/// The serialized sizes of cached bitmaps.
pub open spec fn cached_bytes(s: Seq<CacheEntry>) -> nat
    decreases s.len(),
{
    if s.len() == 0 {
        0
    } else {
        bitmap::image(s[0].bitmap).len() + cached_bytes(s.drop_first())
    }
}

/// What stays of `s`, oldest first, when `size` bytes come: the oldest entries
/// go until the rest and the newcomer fit, or nothing is left.
pub open spec fn evicted(s: Seq<CacheEntry>, size: nat, budget: nat) -> Seq<CacheEntry>
    decreases s.len(),
{
    if s.len() == 0 || cached_bytes(s) + size <= budget {
        s
    } else {
        evicted(s.drop_first(), size, budget)
    }
}

/// A cache of merged posting bitmaps that drops its oldest entries when it
/// outgrows a number of bytes.
pub struct PostingCache {
    map: HashMap<u64, (Arc<RoaringBitmap>, usize)>,
    order: VecDeque<u64>,
    bytes: usize,
}

impl View for PostingCache {
    type V = Seq<CacheEntry>;

    closed spec fn view(&self) -> Seq<CacheEntry> {
        entries(self.map@, self.order@)
    }
}

spec fn entry(key: u64, bitmap: Arc<RoaringBitmap>) -> CacheEntry {
    CacheEntry { key, bitmap: *bitmap }
}

/// The entries of a cache in the order of their keys.
spec fn entries(map: Map<u64, (Arc<RoaringBitmap>, usize)>, order: Seq<u64>) -> Seq<CacheEntry> {
    Seq::new(order.len(), |i: int| CacheEntry { key: order[i], bitmap: *map[order[i]].0 })
}

/// The entry of a key, if it is cached.
pub open spec fn cached(s: Seq<CacheEntry>, key: u64) -> Option<RoaringBitmap>
    decreases s.len(),
{
    if s.len() == 0 {
        None
    } else if s[0].key == key {
        Some(s[0].bitmap)
    } else {
        cached(s.drop_first(), key)
    }
}

proof fn lemma_cached(s: Seq<CacheEntry>, key: u64)
    ensures
        cached(s, key) matches Some(b) ==> exists|i: int|
            0 <= i < s.len() && #[trigger] s[i] == (CacheEntry { key, bitmap: b }),
        cached(s, key) is None ==> forall|i: int|
            0 <= i < s.len() ==> (#[trigger] s[i]).key != key,
    decreases s.len(),
{
    if s.len() > 0 {
        let t = s.drop_first();
        lemma_cached(t, key);
        if s[0].key == key {
            assert(s[0] == (CacheEntry { key, bitmap: s[0].bitmap }));
        } else {
            if let Some(b) = cached(t, key) {
                let i = choose|i: int|
                    0 <= i < t.len() && #[trigger] t[i] == (CacheEntry { key, bitmap: b });
                assert(s[i + 1] == t[i]);
            } else {
                assert forall|i: int| 0 <= i < s.len() implies (#[trigger] s[i]).key != key by {
                    if i > 0 {
                        assert(t[i - 1] == s[i]);
                    }
                }
            }
        }
    }
}

/// What caching a bitmap makes of a cache, and what it gives back.
pub open spec fn is_insertion(
    before: Seq<CacheEntry>,
    after: Seq<CacheEntry>,
    key: u64,
    bitmap: RoaringBitmap,
    budget: nat,
    r: RoaringBitmap,
) -> bool {
    match cached(before, key) {
        Some(b) => r == b && after == before,
        None => r == bitmap && after == evicted(
            before,
            bitmap::image(bitmap).len(),
            budget,
        ).push(CacheEntry { key, bitmap }),
    }
}

proof fn lemma_cached_bytes_push(s: Seq<CacheEntry>, e: CacheEntry)
    ensures
        cached_bytes(s.push(e)) == cached_bytes(s) + bitmap::image(e.bitmap).len(),
    decreases s.len(),
{
    if s.len() == 0 {
        assert(s.push(e).drop_first() =~= s);
        assert(cached_bytes(s.push(e).drop_first()) == 0);
    } else {
        assert(s.push(e).drop_first() =~= s.drop_first().push(e));
        lemma_cached_bytes_push(s.drop_first(), e);
    }
}

impl PostingCache {
    /// The queue holds the cached keys, each once, and the sizes add up.
    pub closed spec fn wf(self) -> bool {
        &&& forall|i: int, j: int| 0 <= i < j < self.order@.len() ==> self.order@[i] != self.order@[j]
        &&& forall|i: int| 0 <= i < self.order@.len() ==> self.map@.contains_key(#[trigger] self.order@[i])
        &&& forall|k: u64| #[trigger] self.map@.contains_key(k) ==> self.order@.contains(k)
        &&& forall|k: u64|
            #[trigger] self.map@.contains_key(k) ==> self.map@[k].1 == bitmap::image(
                *self.map@[k].0,
            ).len()
        &&& self.bytes == cached_bytes(self@)
    }

    pub fn new() -> (c: Self)
        ensures
            c.wf(),
            c@ == Seq::<CacheEntry>::empty(),
    {
        let c = PostingCache { map: HashMap::new(), order: VecDeque::new(), bytes: 0 };
        assert(c@ =~= Seq::<CacheEntry>::empty());
        c
    }

    proof fn lemma_lookup(self, key: u64)
        requires
            self.wf(),
        ensures
            match cached(self@, key) {
                Some(b) => self.map@.contains_key(key) && *self.map@[key].0 == b,
                None => !self.map@.contains_key(key),
            },
    {
        lemma_cached(self@, key);
        if let Some(b) = cached(self@, key) {
            let i = choose|i: int|
                0 <= i < self@.len() && #[trigger] self@[i] == (CacheEntry { key, bitmap: b });
            assert(self.order@[i] == key);
        } else if self.map@.contains_key(key) {
            let i = choose|i: int| 0 <= i < self.order@.len() && self.order@[i] == key;
            assert(self@[i].key == key);
        }
    }

    /// How many bitmaps are cached.
    pub fn len(&self) -> (n: usize)
        ensures
            n == self@.len(),
    {
        self.order.len()
    }

    /// How many bytes the cached bitmaps take.
    pub fn bytes(&self) -> (n: usize)
        requires
            self.wf(),
        ensures
            n == cached_bytes(self@),
    {
        self.bytes
    }

    /// The bitmap of a key, if it is cached.
    pub fn get(&self, key: u64) -> (r: Option<Arc<RoaringBitmap>>)
        requires
            self.wf(),
        ensures
            match cached(self@, key) {
                Some(b) => r matches Some(a) && *a == b,
                None => r is None,
            },
    {
        proof {
            self.lemma_lookup(key);
        }
        match self.map.get(&key) {
            Some(e) => Some(overlay::share(&e.0)),
            None => None,
        }
    }

    /// Caches a bitmap. Where the key is cached already, the cached bitmap is
    /// returned and nothing changes; else the oldest entries go until all fits
    /// the budget, and the new one is kept in any case.
    pub fn insert_with_budget(
        &mut self,
        key: u64,
        bitmap: Arc<RoaringBitmap>,
        budget: usize,
    ) -> (r: Arc<RoaringBitmap>)
        requires
            old(self).wf(),
        ensures
            final(self).wf(),
            is_insertion(old(self)@, final(self)@, key, *bitmap, budget as nat, *r),
    {
        proof {
            self.lemma_lookup(key);
        }
        match self.map.get(&key) {
            Some(e) => {
                return overlay::share(&e.0);
            },
            None => {},
        }
        let size: usize = bitmap::serialized_size(&bitmap);
        let ghost target = evicted(self@, size as nat, budget as nat);
        let ghost before = self@;
        while self.order.len() > 0 && (size > budget || self.bytes > budget - size)
            invariant
                self.wf(),
                !self.map@.contains_key(key),
                target == evicted(self@, size as nat, budget as nat),
            decreases self.order@.len(),
        {
            let ghost order0 = self.order@;
            let ghost view0 = self@;
            let ghost map0 = self.map@;
            let ghost bytes0 = self.bytes;
            match self.order.pop_front() {
                None => {},
                Some(oldest) => {
                    assert(map0.contains_key(order0[0]));
                    match self.map.remove(&oldest) {
                        Some(e) => {
                            assert(view0[0].bitmap == *e.0);
                            self.bytes = self.bytes - e.1;
                        },
                        None => {},
                    }
                    proof {
                        let order1 = self.order@;
                        assert(order1 =~= order0.drop_first());
                        assert forall|i: int| 0 <= i < order1.len() implies self.map@.contains_key(
                            #[trigger] order1[i],
                        ) by {
                            assert(order1[i] == order0[i + 1]);
                            assert(map0.contains_key(order0[i + 1]));
                        }
                        assert forall|k: u64| #[trigger] self.map@.contains_key(k) implies order1.contains(
                            k,
                        ) by {
                            assert(map0.contains_key(k));
                            let i = choose|i: int| 0 <= i < order0.len() && order0[i] == k;
                            assert(order1[i - 1] == k);
                        }
                        assert(self@ =~= view0.drop_first()) by {
                            assert forall|i: int| 0 <= i < self@.len() implies self@[i]
                                == view0.drop_first()[i] by {
                                assert(order1[i] == order0[i + 1]);
                                assert(order0[0] != order0[i + 1]);
                            }
                        }
                    }
                },
            }
        }
        proof {
            assert(self@.len() == self.order@.len());
            assert(target == self@);
        }
        let ghost order1 = self.order@;
        let ghost view1 = self@;
        let ghost map1 = self.map@;
        self.bytes = self.bytes + size;
        self.order.push_back(key);
        self.map.insert(key, (overlay::share(&bitmap), size));
        proof {
            let e = entry(key, bitmap);
            assert(self@ =~= view1.push(e)) by {
                assert forall|i: int| 0 <= i < self@.len() implies self@[i] == view1.push(e)[i] by {
                    if i < order1.len() {
                        assert(self.order@[i] == order1[i]);
                        assert(map1.contains_key(order1[i]));
                    }
                }
            }
            lemma_cached_bytes_push(view1, e);
            assert forall|i: int, j: int| 0 <= i < j < self.order@.len() implies self.order@[i]
                != self.order@[j] by {
                assert(self.order@[i] == order1[i]);
                if j == order1.len() {
                    assert(map1.contains_key(order1[i]));
                }
            }
            assert forall|i: int| 0 <= i < self.order@.len() implies self.map@.contains_key(
                #[trigger] self.order@[i],
            ) by {
                if i < order1.len() {
                    assert(map1.contains_key(order1[i]));
                }
            }
            assert forall|k: u64| #[trigger] self.map@.contains_key(k) implies self.order@.contains(
                k,
            ) by {
                if k == key {
                    assert(self.order@[order1.len() as int] == key);
                } else {
                    assert(map1.contains_key(k));
                    let i = choose|i: int| 0 <= i < order1.len() && order1[i] == k;
                    assert(self.order@[i] == k);
                }
            }
        }
        bitmap
    }

    /// Caches a bitmap under the usual budget.
    pub fn insert(&mut self, key: u64, bitmap: Arc<RoaringBitmap>) -> (r: Arc<RoaringBitmap>)
        requires
            old(self).wf(),
        ensures
            final(self).wf(),
            is_insertion(
                old(self)@,
                final(self)@,
                key,
                *bitmap,
                POSTING_BITMAP_CACHE_MAX_BYTES as nat,
                *r,
            ),
    {
        self.insert_with_budget(key, bitmap, POSTING_BITMAP_CACHE_MAX_BYTES)
    }
}

/// After an insertion the cached bytes fit the budget, unless the new entry is
/// the only one.
pub proof fn law_cache_stays_within_budget(s: Seq<CacheEntry>, e: CacheEntry, budget: nat)
    ensures
        ({
            let size = bitmap::image(e.bitmap).len();
            let after = evicted(s, size, budget).push(e);
            cached_bytes(after) <= budget || after.len() == 1
        }),
    decreases s.len(),
{
    let size = bitmap::image(e.bitmap).len();
    lemma_cached_bytes_push(evicted(s, size, budget), e);
    if s.len() > 0 && cached_bytes(s) + size > budget {
        law_cache_stays_within_budget(s.drop_first(), e, budget);
    }
}

/// Evicted are the oldest entries: what stays are the newest, in their order.
pub proof fn law_eviction_takes_the_oldest(s: Seq<CacheEntry>, size: nat, budget: nat)
    ensures
        ({
            let kept = evicted(s, size, budget);
            kept.len() <= s.len() && kept == s.skip(s.len() - kept.len())
        }),
    decreases s.len(),
{
    if s.len() == 0 || cached_bytes(s) + size <= budget {
        assert(s =~= s.skip(0));
    } else {
        let t = s.drop_first();
        law_eviction_takes_the_oldest(t, size, budget);
        let kept = evicted(t, size, budget);
        assert(t.skip(t.len() - kept.len()) =~= s.skip(s.len() - kept.len()));
    }
}

/// A bitmap that is cached is found under its key until it goes; others are found as
/// before.
pub proof fn law_cached_bitmaps_are_found(s: Seq<CacheEntry>, e: CacheEntry, key: u64)
    ensures
        cached(s, e.key) is None ==> cached(s.push(e), e.key) == Some(e.bitmap),
        key != e.key ==> cached(s.push(e), key) == cached(s, key),
        cached(Seq::<CacheEntry>::empty(), key) is None,
    decreases s.len(),
{
    if s.len() == 0 {
        assert(s.push(e).drop_first() =~= s);
        assert(s.push(e)[0] == e);
    } else {
        law_cached_bitmaps_are_found(s.drop_first(), e, key);
        assert(s.push(e).drop_first() =~= s.drop_first().push(e));
        assert(s.push(e)[0] == s[0]);
    }
}

/// No more is evicted than the newcomer needs: what fits stays, and the last entry that
/// went would not have fitted.
pub proof fn law_eviction_takes_no_more_than_needed(s: Seq<CacheEntry>, size: nat, budget: nat)
    ensures
        ({
            let kept = evicted(s, size, budget);
            &&& cached_bytes(s) + size <= budget ==> kept == s
            &&& kept.len() < s.len() ==> cached_bytes(s.skip(s.len() - kept.len() - 1)) + size
                > budget
        }),
    decreases s.len(),
{
    if s.len() > 0 && cached_bytes(s) + size > budget {
        let rest = s.drop_first();
        let kept = evicted(rest, size, budget);
        law_eviction_takes_no_more_than_needed(rest, size, budget);
        law_eviction_takes_the_oldest(rest, size, budget);
        if kept.len() < rest.len() {
            assert(rest.skip(rest.len() - kept.len() - 1) =~= s.skip(s.len() - kept.len() - 1));
        } else {
            assert(s.skip(0) =~= s);
        }
    }
}

proof fn lemma_cached_suffix(s: Seq<CacheEntry>, n: int, key: u64)
    requires
        0 <= n <= s.len(),
        cached(s, key) is None,
    ensures
        cached(s.skip(n), key) is None,
    decreases n,
{
    if n > 0 {
        assert(s[0].key != key);
        lemma_cached_suffix(s.drop_first(), n - 1, key);
        assert(s.drop_first().skip(n - 1) =~= s.skip(n));
    } else {
        assert(s.skip(0) =~= s);
    }
}

/// What is cached is given back, and is found afterwards: the bitmap that was cached under
/// the key before, or else the new one. Nothing goes while all fits the budget.
pub proof fn law_insertions_are_found(
    before: Seq<CacheEntry>,
    after: Seq<CacheEntry>,
    key: u64,
    bitmap: RoaringBitmap,
    budget: nat,
    r: RoaringBitmap,
)
    requires
        is_insertion(before, after, key, bitmap, budget, r),
    ensures
        cached(after, key) == Some(r),
        cached(before, key) matches Some(b) ==> r == b && after == before,
        cached(before, key) is None ==> r == bitmap,
        cached_bytes(before) + bitmap::image(bitmap).len() <= budget ==> before.len() <= after.len()
            && after.take(before.len() as int) == before,
{
    if cached(before, key) is None {
        let size = bitmap::image(bitmap).len();
        let kept = evicted(before, size, budget);
        law_eviction_takes_the_oldest(before, size, budget);
        law_eviction_takes_no_more_than_needed(before, size, budget);
        lemma_cached_suffix(before, before.len() - kept.len(), key);
        law_cached_bitmaps_are_found(kept, CacheEntry { key, bitmap }, key);
        assert(kept.push(CacheEntry { key, bitmap }).take(kept.len() as int) =~= kept);
    } else {
        assert(before.take(before.len() as int) =~= before);
    }
}

} // verus!
