//! Compaction: the segments from a point on, and the overlay, are written anew.
//!
//! Nothing is read from the working tree: documents and postings come from the
//! snapshot. Live documents get new ids without gaps, in their old order, and
//! fill one segment after the other.

use crate::bitmap;
use crate::error::{Corruption, IndexError};
use crate::hash;
use crate::le;
use crate::open;
use crate::overlay;
use crate::overlay::OverlayDocView;
use crate::posting;
use crate::segment::layout;
use crate::segment::layout::{DocEntry, DocView};
use crate::segment::reader;
use crate::segment::reader::MmapSegment;
use crate::segment::writer;
use crate::segment::writer::SegmentWriter;
use crate::snapshot;
use crate::snapshot::IndexSnapshot;
use vstd::prelude::*;

verus! {

/// Where a document went: the new segment, and its new id.
#[derive(Debug, Clone, Copy, PartialEq, Eq, Structural)]
pub struct CompactedDocTarget {
    pub segment_idx: usize,
    pub global_doc_id: u32,
}

/// Documents distributed over new segments.
#[verifier::ext_equal]
pub struct Placed {
    /// The documents of each new segment.
    pub groups: Seq<Seq<DocView>>,
    /// The first id of each new segment.
    pub bases: Seq<u32>,
    /// New segment and new id by old id.
    pub targets: Map<u32, (int, u32)>,
    /// Bytes counted for the last segment.
    pub bytes: u64,
    /// The next id.
    pub next: u32,
}

/// Nothing placed, ids starting at `start`.
pub open spec fn nothing_placed(start: u32) -> Placed {
    Placed {
        groups: Seq::empty(),
        bases: Seq::empty(),
        targets: Map::empty(),
        bytes: 0,
        next: start,
    }
}

/// A document counts for its size, at least one byte.
pub open spec fn cost(size: u64) -> u64 {
    if size == 0 {
        1
    } else {
        size
    }
}

/// A document of this size starts a new segment: there is none yet, or the last
/// one holds something and would outgrow the batch size.
pub open spec fn starts_segment(p: Placed, size: u64, batch: u64) -> bool {
    p.groups.len() == 0 || (p.bytes > 0 && writer::clamp64((p.bytes + cost(size)) as nat) > batch)
}

/// One more document, `d` under its old id.
pub open spec fn place_one(p: Placed, d: DocView, batch: u64) -> Placed {
    let fresh = starts_segment(p, d.size_bytes, batch);
    let groups = if fresh {
        p.groups.push(Seq::empty())
    } else {
        p.groups
    };
    let last = groups.len() - 1;
    Placed {
        groups: groups.update(last, groups[last].push(DocView { doc_id: p.next, ..d })),
        bases: if fresh {
            p.bases.push(p.next)
        } else {
            p.bases
        },
        targets: p.targets.insert(d.doc_id, (last, p.next)),
        bytes: writer::clamp64(
            ((if fresh {
                0
            } else {
                p.bytes as int
            }) + cost(d.size_bytes)) as nat,
        ),
        next: (p.next + 1) as u32,
    }
}

/// A list of documents placed one after the other.
pub open spec fn place_all(docs: Seq<DocView>, start: u32, batch: u64) -> Placed
    decreases docs.len(),
{
    if docs.len() == 0 {
        nothing_placed(start)
    } else {
        place_one(place_all(docs.drop_last(), start, batch), docs.last(), batch)
    }
}

/// There is no id for one more document.
pub open spec fn no_id_left() -> IndexError {
    IndexError::DocIdOverflow { base_doc_count: u32::MAX, overlay_docs: 0 }
}

/// The live documents among the first `n` of a segment, under their ids. There are
/// ids for `room` documents.
pub open spec fn segment_moved(
    docs: Seq<Option<DocView>>,
    base: u32,
    deleted: Set<u32>,
    segment: usize,
    n: nat,
    room: nat,
) -> Result<Seq<DocView>, IndexError>
    decreases n,
{
    if n == 0 {
        Ok(Seq::empty())
    } else {
        let local = n - 1;
        match segment_moved(docs, base, deleted, segment, (n - 1) as nat, room) {
            Err(e) => Err(e),
            Ok(s) => if base + local > u32::MAX {
                Err(IndexError::DocIdOverflow { base_doc_count: base, overlay_docs: 0 })
            } else if deleted.contains((base + local) as u32) {
                Ok(s)
            } else {
                match docs[local] {
                    None => Err(
                        IndexError::CorruptIndex(
                            Corruption::MissingDoc { segment, doc: local as u32 },
                        ),
                    ),
                    Some(d) => if s.len() >= room {
                        Err(no_id_left())
                    } else {
                        Ok(s.push(DocView { doc_id: (base + local) as u32, ..d }))
                    },
                }
            },
        }
    }
}

/// The live documents of the segments `from..n`, under their ids. There are ids
/// for `room` documents.
pub open spec fn base_moved(
    segs: Seq<MmapSegment>,
    base_ids: Seq<u32>,
    deleted: Set<u32>,
    from: int,
    n: int,
    room: nat,
) -> Result<Seq<DocView>, IndexError>
    decreases n - from,
{
    if n <= from {
        Ok(Seq::empty())
    } else {
        match base_moved(segs, base_ids, deleted, from, n - 1, room) {
            Err(e) => Err(e),
            Ok(s) => match segment_moved(
                open::segment_docs(segs[n - 1]),
                snapshot::base_of(base_ids, n - 1),
                deleted,
                (n - 1) as usize,
                segs[n - 1].doc_count as nat,
                (room - s.len()) as nat,
            ) {
                Err(e) => Err(e),
                Ok(t) => Ok(s + t),
            },
        }
    }
}

/// An overlay document as a segment stores it.
pub open spec fn as_entry(d: OverlayDocView) -> DocView {
    DocView {
        doc_id: d.doc_id,
        content_hash: hash::xxh64_of(d.content, 0),
        size_bytes: d.content.len() as u64,
        path: d.path,
    }
}

/// The documents that are written anew, under their old ids: the live ones of
/// the segments from `from` on, then those of the overlay. There are ids for `room`
/// documents.
pub open spec fn moved(s: IndexSnapshot, from: int, room: nat) -> Result<
    Seq<DocView>,
    IndexError,
> {
    let docs = s.overlay.documents();
    match base_moved(
        s.segs(),
        s.base.base_ids@,
        s.deleted(),
        from,
        s.segs().len() as int,
        room,
    ) {
        Err(e) => Err(e),
        Ok(b) => if b.len() + docs.len() > room {
            Err(no_id_left())
        } else {
            Ok(b + Seq::new(docs.len(), |i: int| as_entry(docs[i])))
        },
    }
}

/// How many documents get an id from `start` on.
pub open spec fn room_from(start: u32) -> nat {
    (u32::MAX - start) as nat
}

/// The ids that a stored posting list holds.
pub open spec fn record_ids(raw: Option<(u8, Seq<u8>)>) -> Option<Set<u32>> {
    match raw {
        None => None,
        Some((kind, data)) => if kind == 0 {
            match posting::decoded(data, 0) {
                Some(ids) => Some(ids.to_set()),
                None => None,
            }
        } else if kind == 1 {
            bitmap::parsed(data)
        } else {
            None
        },
    }
}

/// Why the posting list of a gram cannot be moved, if it cannot.
pub open spec fn gram_fault(seg: MmapSegment, gram: u64) -> Option<Corruption> {
    match seg.record_of(gram) {
        Some((kind, data)) => if kind == 0 {
            if posting::decoded(data, 0) is None {
                Some(Corruption::BadPostings { gram })
            } else {
                None
            }
        } else if kind == 1 && bitmap::parsed(data) is Some {
            None
        } else {
            Some(Corruption::MissingPostings { gram })
        },
        None => Some(Corruption::MissingPostings { gram }),
    }
}

/// The first fault among the first `n` grams of the dictionary.
pub open spec fn grams_fault(seg: MmapSegment, n: nat) -> Option<Corruption>
    decreases n,
{
    if n == 0 {
        None
    } else {
        match grams_fault(seg, (n - 1) as nat) {
            Some(c) => Some(c),
            None => gram_fault(seg, seg.gram_at(n - 1)),
        }
    }
}

/// Why the postings of a segment cannot be moved, if they cannot.
pub open spec fn postings_fault(seg: MmapSegment) -> Option<Corruption> {
    if seg.dict() + layout::DICT_ENTRY_SIZE * seg.gram_count > seg.bytes().len() {
        Some(Corruption::TruncatedDictionary)
    } else {
        grams_fault(seg, seg.gram_count as nat)
    }
}

/// The first fault among the segments `from..n`.
pub open spec fn suffix_fault(segs: Seq<MmapSegment>, from: int, n: int) -> Option<Corruption>
    decreases n - from,
{
    if n <= from {
        None
    } else {
        match suffix_fault(segs, from, n - 1) {
            Some(c) => Some(c),
            None => postings_fault(segs[n - 1]),
        }
    }
}

/// Gram and document occur together in the first `n` dictionary entries.
pub open spec fn in_grams(seg: MmapSegment, n: int, gram: u64, d: u32) -> bool {
    exists|i: int|
        0 <= i < n && #[trigger] seg.gram_at(i) == gram && (record_ids(
            seg.record_of(gram),
        ) matches Some(ids) && ids.contains(d))
}

/// The pairs of the first `n` dictionary entries of a segment.
pub open spec fn segment_pairs(seg: MmapSegment, n: int) -> Set<(u64, u32)> {
    Set::new(|p: (u64, u32)| in_grams(seg, n, p.0, p.1))
}

/// The pairs of the segments `from..n`.
pub open spec fn suffix_pairs(segs: Seq<MmapSegment>, from: int, n: int) -> Set<(u64, u32)>
    decreases n - from,
{
    if n <= from {
        Set::empty()
    } else {
        suffix_pairs(segs, from, n - 1).union(
            segment_pairs(segs[n - 1], segs[n - 1].gram_count as int),
        )
    }
}

/// The pairs of grams and old document ids that are written anew.
pub open spec fn moved_pairs(s: IndexSnapshot, from: int) -> Set<(u64, u32)> {
    suffix_pairs(s.segs(), from, s.segs().len() as int).union(
        overlay::pairs_of(s.overlay.documents()),
    )
}

/// Old document `d` went to segment `j` under the id `n`.
pub open spec fn went(targets: Map<u32, (int, u32)>, d: u32, j: int, n: u32) -> bool {
    targets.contains_key(d) && targets[d] == (j, n)
}

/// New segment `j` lists document `n` for a gram.
pub open spec fn lists(
    targets: Map<u32, (int, u32)>,
    src: Set<(u64, u32)>,
    j: int,
    gram: u64,
    n: u32,
) -> bool {
    exists|d: u32| #[trigger] went(targets, d, j, n) && src.contains((gram, d))
}

/// The writers list exactly the pairs `src`, under the new ids.
pub open spec fn posted(
    writers: Seq<SegmentWriter>,
    targets: Map<u32, (int, u32)>,
    src: Set<(u64, u32)>,
) -> bool {
    forall|j: int, gram: u64, n: u32|
        #![trigger writers[j].postings().contains((gram, n))]
        0 <= j < writers.len() ==> (writers[j].postings().contains((gram, n)) <==> lists(
            targets,
            src,
            j,
            gram,
            n,
        ))
}

/// Distributes documents over new segments.
pub struct CompactionState {
    pub writers: Vec<SegmentWriter>,
    pub writer_base_doc_ids: Vec<u32>,
    pub target_map: Vec<Option<CompactedDocTarget>>,
    pub current_segment_bytes: u64,
    pub next_doc_id: u32,
    pub batch_size_bytes: u64,
}

/// The map that a list of targets is.
pub open spec fn target_view(v: Seq<Option<CompactedDocTarget>>) -> Map<u32, (int, u32)> {
    Map::new(
        |d: u32| d < v.len() && v[d as int] is Some,
        |d: u32| (v[d as int]->0.segment_idx as int, v[d as int]->0.global_doc_id),
    )
}

/// The documents of a list of writers.
pub open spec fn writer_docs(w: Seq<SegmentWriter>) -> Seq<Seq<DocView>> {
    Seq::new(w.len(), |i: int| w[i].docs())
}

/// No writer has postings.
pub open spec fn no_postings(w: Seq<SegmentWriter>) -> bool {
    forall|i: int| 0 <= i < w.len() ==> (#[trigger] w[i]).postings() == Seq::<(u64, u32)>::empty()
}

/// Every target is a writer.
pub open spec fn targets_exist(v: Seq<Option<CompactedDocTarget>>, n: nat) -> bool {
    forall|d: int| 0 <= d < v.len() ==> ((#[trigger] v[d]) matches Some(t) ==> t.segment_idx < n)
}

impl View for CompactionState {
    type V = Placed;

    open spec fn view(&self) -> Placed {
        Placed {
            groups: writer_docs(self.writers@),
            bases: self.writer_base_doc_ids@,
            targets: target_view(self.target_map@),
            bytes: self.current_segment_bytes,
            next: self.next_doc_id,
        }
    }
}

/// Records where a document went.
fn set_target(v: &mut Vec<Option<CompactedDocTarget>>, old_global_id: u32, t: CompactedDocTarget)
    ensures
        target_view(final(v)@) == target_view(old(v)@).insert(
            old_global_id,
            (t.segment_idx as int, t.global_doc_id),
        ),
        forall|n: nat|
            targets_exist(old(v)@, n) && t.segment_idx < n ==> #[trigger] targets_exist(
                final(v)@,
                n,
            ),
{
    let ghost v0 = v@;
    let at: usize = old_global_id as usize;
    while v.len() <= at
        invariant
            v0.len() <= v@.len(),
            forall|i: int| 0 <= i < v0.len() ==> v@[i] == v0[i],
            forall|i: int| v0.len() <= i < v@.len() ==> v@[i] == None::<CompactedDocTarget>,
        decreases at + 1 - v@.len(),
    {
        v.push(None);
    }
    v.set(at, Some(t));
    assert forall|n: nat| targets_exist(v0, n) && t.segment_idx < n implies #[trigger] targets_exist(
        v@,
        n,
    ) by {
        assert forall|d: int| 0 <= d < v@.len() implies ((#[trigger] v@[d]) matches Some(x)
            ==> x.segment_idx < n) by {
            if d != at && d < v0.len() {
                assert(v@[d] == v0[d]);
            }
        }
    }
    assert(target_view(v@) =~= target_view(v0).insert(
        old_global_id,
        (t.segment_idx as int, t.global_doc_id),
    ));
}

impl CompactionState {
    /// There is a first id for every writer, and targets name writers.
    pub open spec fn wf(self) -> bool {
        self.writers@.len() == self.writer_base_doc_ids@.len() && targets_exist(
            self.target_map@,
            self.writers@.len(),
        )
    }

    /// Nothing placed; ids start at `start_doc_id`.
    pub fn new(start_doc_id: u32, batch_size_bytes: u64) -> (s: Self)
        ensures
            s.wf(),
            s@ == nothing_placed(start_doc_id),
            s.batch_size_bytes == cost(batch_size_bytes),
            no_postings(s.writers@),
    {
        let s = CompactionState {
            writers: Vec::new(),
            writer_base_doc_ids: Vec::new(),
            target_map: Vec::new(),
            current_segment_bytes: 0,
            next_doc_id: start_doc_id,
            batch_size_bytes: if batch_size_bytes == 0 {
                1
            } else {
                batch_size_bytes
            },
        };
        assert(s@ =~= nothing_placed(start_doc_id));
        s
    }

    /// Places a document and gives it the next id. Refused, without effect,
    /// where no id would be left after it.
    pub fn add_document(
        &mut self,
        old_global_id: u32,
        path: &[u8],
        content_hash: u64,
        size_bytes: u64,
    ) -> (r: Result<(), IndexError>)
        requires
            old(self).wf(),
        ensures
            final(self).wf(),
            final(self).batch_size_bytes == old(self).batch_size_bytes,
            no_postings(old(self).writers@) ==> no_postings(final(self).writers@),
            if old(self)@.next == u32::MAX {
                final(self)@ == old(self)@ && r == Err::<(), IndexError>(
                    IndexError::DocIdOverflow { base_doc_count: u32::MAX, overlay_docs: 0 },
                )
            } else {
                r is Ok && final(self)@ == place_one(
                    old(self)@,
                    DocView { doc_id: old_global_id, content_hash, size_bytes, path: path@ },
                    old(self).batch_size_bytes,
                )
            },
    {
        let ghost p = self@;
        let ghost d = DocView { doc_id: old_global_id, content_hash, size_bytes, path: path@ };
        let ghost batch = self.batch_size_bytes;
        let new_global_id: u32 = self.next_doc_id;
        if new_global_id == u32::MAX {
            return Err(IndexError::DocIdOverflow { base_doc_count: new_global_id, overlay_docs: 0 });
        }
        let size_cost: u64 = if size_bytes == 0 {
            1
        } else {
            size_bytes
        };
        let fresh: bool = self.writers.len() == 0 || (self.current_segment_bytes > 0
            && self.current_segment_bytes.saturating_add(size_cost) > self.batch_size_bytes);
        assert(fresh == starts_segment(p, size_bytes, batch));
        if fresh {
            self.writers.push(SegmentWriter::new());
            self.writer_base_doc_ids.push(new_global_id);
            self.current_segment_bytes = 0;
        }
        let ghost groups = if fresh {
            p.groups.push(Seq::empty())
        } else {
            p.groups
        };
        assert(writer_docs(self.writers@) =~= groups);
        let last: usize = self.writers.len() - 1;
        let ghost w0 = self.writers@;
        self.writers[last].add_document(new_global_id, path, content_hash, size_bytes);
        assert(writer_docs(self.writers@) =~= groups.update(
            last as int,
            groups[last as int].push(DocView { doc_id: new_global_id, ..d }),
        ));
        assert(targets_exist(self.target_map@, self.writers@.len()));
        set_target(
            &mut self.target_map,
            old_global_id,
            CompactedDocTarget { segment_idx: last, global_doc_id: new_global_id },
        );
        self.current_segment_bytes = self.current_segment_bytes.saturating_add(size_cost);
        self.next_doc_id = new_global_id + 1;
        assert(targets_exist(self.target_map@, self.writers@.len()));
        assert(self@ =~= place_one(p, d, batch));
        Ok(())
    }

    /// Where an old document went.
    fn target(&self, old_global_id: u32) -> (r: Option<CompactedDocTarget>)
        requires
            self.wf(),
        ensures
            match r {
                Some(t) => t.segment_idx < self.writers@.len() && went(
                    self@.targets,
                    old_global_id,
                    t.segment_idx as int,
                    t.global_doc_id,
                ),
                None => !self@.targets.contains_key(old_global_id),
            },
    {
        if (old_global_id as usize) < self.target_map.len() {
            self.target_map[old_global_id as usize]
        } else {
            None
        }
    }

    /// Lists a gram for a document that moved; nothing happens for one that did
    /// not.
    fn post(&mut self, gram: u64, old_global_id: u32, Ghost(src): Ghost<Set<(u64, u32)>>)
        requires
            old(self).wf(),
            posted(old(self).writers@, old(self)@.targets, src),
        ensures
            final(self).wf(),
            final(self)@ == old(self)@,
            final(self).batch_size_bytes == old(self).batch_size_bytes,
            posted(final(self).writers@, final(self)@.targets, src.insert((gram, old_global_id))),
    {
        let ghost p = self@;
        let ghost w0 = self.writers@;
        let ghost src1 = src.insert((gram, old_global_id));
        match self.target(old_global_id) {
            Some(t) => {
                let j: usize = t.segment_idx;
                let n: u32 = t.global_doc_id;
                self.writers[j].add_gram_posting(gram, n);
                proof {
                    assert(writer_docs(self.writers@) =~= writer_docs(w0));
                    assert(self@ =~= p);
                    assert forall|i: int, g: u64, m: u32|
                        #![trigger self.writers@[i].postings().contains((g, m))]
                        0 <= i < self.writers@.len() implies (self.writers@[i].postings().contains(
                        (g, m),
                    ) <==> lists(p.targets, src1, i, g, m)) by {
                        let before = w0[i].postings();
                        assert(before.contains((g, m)) <==> lists(p.targets, src, i, g, m));
                        if lists(p.targets, src, i, g, m) {
                            let d = choose|d: u32| #[trigger]
                                went(p.targets, d, i, m) && src.contains((g, d));
                            assert(src1.contains((g, d)));
                        }
                        if i == j {
                            let after = before.push((gram, n));
                            assert(after[before.len() as int] == (gram, n));
                            if before.contains((g, m)) {
                                let k = choose|k: int| 0 <= k < before.len() && before[k] == (g, m);
                                assert(after[k] == (g, m));
                            }
                            if after.contains((g, m)) {
                                let k = choose|k: int| 0 <= k < after.len() && after[k] == (g, m);
                                if k < before.len() {
                                    assert(before[k] == (g, m));
                                } else {
                                    assert(went(p.targets, old_global_id, i, m));
                                }
                            }
                        }
                        if lists(p.targets, src1, i, g, m) {
                            let d = choose|d: u32| #[trigger]
                                went(p.targets, d, i, m) && src1.contains((g, d));
                            if !src.contains((g, d)) {
                                assert(d == old_global_id && g == gram);
                                assert(i == j && m == n);
                            }
                        }
                    }
                }
            },
            None => {
                proof {
                    assert forall|i: int, g: u64, m: u32|
                        #![trigger self.writers@[i].postings().contains((g, m))]
                        0 <= i < self.writers@.len() implies (self.writers@[i].postings().contains(
                        (g, m),
                    ) <==> lists(p.targets, src1, i, g, m)) by {
                        if lists(p.targets, src, i, g, m) {
                            let d = choose|d: u32| #[trigger]
                                went(p.targets, d, i, m) && src.contains((g, d));
                            assert(src1.contains((g, d)));
                        }
                        if lists(p.targets, src1, i, g, m) {
                            let d = choose|d: u32| #[trigger]
                                went(p.targets, d, i, m) && src1.contains((g, d));
                            assert(src.contains((g, d)));
                        }
                    }
                }
            },
        }
    }

    /// Lists a gram for documents that moved.
    fn post_ids(&mut self, gram: u64, ids: &Vec<u32>, Ghost(src): Ghost<Set<(u64, u32)>>)
        requires
            old(self).wf(),
            posted(old(self).writers@, old(self)@.targets, src),
        ensures
            final(self).wf(),
            final(self)@ == old(self)@,
            final(self).batch_size_bytes == old(self).batch_size_bytes,
            posted(
                final(self).writers@,
                final(self)@.targets,
                src.union(gram_pairs(gram, ids@.to_set())),
            ),
    {
        let ghost p = self@;
        let ghost batch = self.batch_size_bytes;
        let mut k: usize = 0;
        assert(src.union(gram_pairs(gram, ids@.take(0).to_set())) =~= src);
        while k < ids.len()
            invariant
                self.wf(),
                self@ == p,
                self.batch_size_bytes == batch,
                k <= ids@.len(),
                posted(
                    self.writers@,
                    p.targets,
                    src.union(gram_pairs(gram, ids@.take(k as int).to_set())),
                ),
            decreases ids@.len() - k,
        {
            let ghost so_far = src.union(gram_pairs(gram, ids@.take(k as int).to_set()));
            let id: u32 = ids[k];
            self.post(gram, id, Ghost(so_far));
            proof {
                crate::paths::lemma_take_to_set(ids@, k as int);
                assert(so_far.insert((gram, id)) =~= src.union(
                    gram_pairs(gram, ids@.take(k + 1).to_set()),
                ));
            }
            k = k + 1;
        }
        assert(ids@.take(k as int) =~= ids@);
    }
}

/// A gram with each of a set of documents.
pub open spec fn gram_pairs(gram: u64, ids: Set<u32>) -> Set<(u64, u32)> {
    Set::new(|p: (u64, u32)| p.0 == gram && ids.contains(p.1))
}

/// The live documents of segment `i`, put at the end of `out`, which holds at most
/// `limit` documents.
fn push_segment_docs(s: &IndexSnapshot, i: usize, out: &mut Vec<DocEntry>, limit: u32) -> (r:
    Result<(), IndexError>)
    requires
        s.wf(),
        i < s.segs().len(),
        old(out)@.len() <= limit,
    ensures
        match segment_moved(
            open::segment_docs(s.segs()[i as int]),
            snapshot::base_of(s.base.base_ids@, i as int),
            s.deleted(),
            i,
            s.segs()[i as int].doc_count as nat,
            (limit - old(out)@.len()) as nat,
        ) {
            Err(e) => r == Err::<(), IndexError>(e),
            Ok(t) => r is Ok && layout::doc_views(final(out)@) == layout::doc_views(old(out)@) + t
                && final(out)@.len() <= limit,
        },
{
    let seg: &MmapSegment = &s.base.segments[i];
    let base: u32 = s.base.base_id_of(i);
    let ghost docs = open::segment_docs(*seg);
    let ghost deleted = s.deleted();
    let ghost before = layout::doc_views(out@);
    let ghost count = seg.doc_count as nat;
    let ghost room = (limit - out@.len()) as nat;
    assert(s.segs()[i as int].wf());
    let mut local: u32 = 0;
    assert(layout::doc_views(out@) =~= before + Seq::<DocView>::empty());
    while local < seg.doc_count
        invariant
            seg.wf(),
            docs == open::segment_docs(*seg),
            deleted == s.deleted(),
            count == seg.doc_count,
            local <= count,
            segment_moved(docs, base, deleted, i, local as nat, room) matches Ok(t)
                && layout::doc_views(out@) == before + t,
            before.len() + room == limit,
            room == limit - old(out)@.len(),
            out@.len() <= limit,
            *seg == s.segs()[i as int],
            base == snapshot::base_of(s.base.base_ids@, i as int),
        decreases count - local,
    {
        let ghost t = segment_moved(docs, base, deleted, i, local as nat, room)->Ok_0;
        assert(docs[local as int] == reader::doc_in(seg.bytes(), seg.table(), seg.dict(), local));
        match base.checked_add(local) {
            None => {
                proof {
                    lemma_moved_stays(docs, base, deleted, i, (local + 1) as nat, count, room);
                }
                return Err(IndexError::DocIdOverflow { base_doc_count: base, overlay_docs: 0 });
            },
            Some(id) => {
                if !bitmap::contains(&s.delete_set, id) {
                    match seg.get_doc(local) {
                        None => {
                            proof {
                                lemma_moved_stays(
                                    docs,
                                    base,
                                    deleted,
                                    i,
                                    (local + 1) as nat,
                                    count,
                                    room,
                                );
                            }
                            return Err(
                                IndexError::CorruptIndex(
                                    Corruption::MissingDoc { segment: i, doc: local },
                                ),
                            );
                        },
                        Some(d) => {
                            let ghost out0 = out@;
                            assert(layout::doc_views(out@).len() == out@.len());
                            if out.len() >= limit as usize {
                                proof {
                                    lemma_moved_stays(
                                        docs,
                                        base,
                                        deleted,
                                        i,
                                        (local + 1) as nat,
                                        count,
                                        room,
                                    );
                                }
                                return Err(
                                    IndexError::DocIdOverflow {
                                        base_doc_count: u32::MAX,
                                        overlay_docs: 0,
                                    },
                                );
                            }
                            let d = DocEntry {
                                doc_id: id,
                                content_hash: d.content_hash,
                                size_bytes: d.size_bytes,
                                path: d.path,
                            };
                            let ghost shown = d@;
                            out.push(d);
                            proof {
                                assert(layout::doc_views(out@) =~= layout::doc_views(out0).push(
                                    shown,
                                ));
                                assert(before + t.push(shown) =~= (before + t).push(shown));
                            }
                        },
                    }
                }
            },
        }
        local = local + 1;
    }
    Ok(())
}

proof fn lemma_moved_stays(
    docs: Seq<Option<DocView>>,
    base: u32,
    deleted: Set<u32>,
    segment: usize,
    n: nat,
    m: nat,
    room: nat,
)
    requires
        n <= m,
        segment_moved(docs, base, deleted, segment, n, room) is Err,
    ensures
        segment_moved(docs, base, deleted, segment, m, room) == segment_moved(
            docs,
            base,
            deleted,
            segment,
            n,
            room,
        ),
    decreases m,
{
    if n < m {
        lemma_moved_stays(docs, base, deleted, segment, n, (m - 1) as nat, room);
    }
}

proof fn lemma_base_moved_stays(
    segs: Seq<MmapSegment>,
    base_ids: Seq<u32>,
    deleted: Set<u32>,
    from: int,
    n: int,
    m: int,
    room: nat,
)
    requires
        from <= n <= m,
        base_moved(segs, base_ids, deleted, from, n, room) is Err,
    ensures
        base_moved(segs, base_ids, deleted, from, m, room) == base_moved(
            segs,
            base_ids,
            deleted,
            from,
            n,
            room,
        ),
    decreases m - n,
{
    if n < m {
        lemma_base_moved_stays(segs, base_ids, deleted, from, n, m - 1, room);
    }
}

/// The documents that a compaction from segment `from` on writes anew, with ids for
/// `limit` of them.
pub fn moved_documents(s: &IndexSnapshot, from: usize, limit: u32) -> (r: Result<
    Vec<DocEntry>,
    IndexError,
>)
    requires
        s.wf(),
        from <= s.segs().len(),
    ensures
        match moved(*s, from as int, limit as nat) {
            Err(e) => r == Err::<Vec<DocEntry>, IndexError>(e),
            Ok(docs) => r matches Ok(v) && layout::doc_views(v@) == docs && docs.len() <= limit,
        },
{
    let ghost segs = s.segs();
    let ghost ids = s.base.base_ids@;
    let ghost deleted = s.deleted();
    let mut out: Vec<DocEntry> = Vec::new();
    let mut i: usize = from;
    assert(layout::doc_views(out@) =~= Seq::<DocView>::empty());
    while i < s.base.segments.len()
        invariant
            s.wf(),
            segs == s.segs(),
            ids == s.base.base_ids@,
            deleted == s.deleted(),
            from <= i <= segs.len(),
            out@.len() <= limit,
            base_moved(segs, ids, deleted, from as int, i as int, limit as nat) == Ok::<
                Seq<DocView>,
                IndexError,
            >(layout::doc_views(out@)),
        decreases segs.len() - i,
    {
        assert(layout::doc_views(out@).len() == out@.len());
        match push_segment_docs(s, i, &mut out, limit) {
            Err(e) => {
                proof {
                    lemma_base_moved_stays(
                        segs,
                        ids,
                        deleted,
                        from as int,
                        i + 1,
                        segs.len() as int,
                        limit as nat,
                    );
                }
                return Err(e);
            },
            Ok(_) => {},
        }
        i = i + 1;
    }
    assert(layout::doc_views(out@).len() == out@.len());
    if s.overlay.docs.len() > limit as usize - out.len() {
        return Err(IndexError::DocIdOverflow { base_doc_count: u32::MAX, overlay_docs: 0 });
    }
    let ghost base = layout::doc_views(out@);
    let ghost docs = s.overlay.documents();
    let ghost tail = Seq::new(docs.len(), |k: int| as_entry(docs[k]));
    let mut k: usize = 0;
    assert(base + tail.take(0) =~= base);
    while k < s.overlay.docs.len()
        invariant
            docs == s.overlay.documents(),
            tail == Seq::new(docs.len(), |k: int| as_entry(docs[k])),
            k <= docs.len(),
            layout::doc_views(out@) == base + tail.take(k as int),
        decreases docs.len() - k,
    {
        let d = &s.overlay.docs[k];
        let ghost out0 = out@;
        let e = DocEntry {
            doc_id: d.doc_id,
            content_hash: hash::xxh64(d.content.as_slice(), 0),
            size_bytes: d.content.len() as u64,
            path: le::bytes_clone(d.path.as_slice()),
        };
        let ghost shown = e@;
        assert(shown == tail[k as int]);
        out.push(e);
        proof {
            assert(layout::doc_views(out@) =~= layout::doc_views(out0).push(shown));
            assert(base + tail.take(k + 1) =~= (base + tail.take(k as int)).push(shown));
        }
        k = k + 1;
    }
    assert(tail.take(k as int) =~= tail);
    Ok(out)
}

/// Placing `n` documents takes `n` ids.
pub proof fn lemma_place_all_next(docs: Seq<DocView>, start: u32, batch: u64)
    requires
        start + docs.len() <= u32::MAX,
    ensures
        place_all(docs, start, batch).next == start + docs.len(),
    decreases docs.len(),
{
    if docs.len() > 0 {
        lemma_place_all_next(docs.drop_last(), start, batch);
    }
}

/// Places a list of documents.
fn place_documents(docs: &Vec<DocEntry>, start: u32, batch_size_bytes: u64) -> (r: Result<
    CompactionState,
    IndexError,
>)
    ensures
        if start + docs@.len() > u32::MAX {
            r == Err::<CompactionState, IndexError>(
                IndexError::DocIdOverflow { base_doc_count: u32::MAX, overlay_docs: 0 },
            )
        } else {
            r matches Ok(st) && st.wf() && no_postings(st.writers@) && st@ == place_all(
                layout::doc_views(docs@),
                start,
                cost(batch_size_bytes),
            )
        },
{
    let ghost views = layout::doc_views(docs@);
    let ghost batch = cost(batch_size_bytes);
    let mut st = CompactionState::new(start, batch_size_bytes);
    let mut i: usize = 0;
    while i < docs.len()
        invariant
            views == layout::doc_views(docs@),
            i <= views.len(),
            start + i <= u32::MAX,
            st.wf(),
            st.batch_size_bytes == batch,
            no_postings(st.writers@),
            st@ == place_all(views.take(i as int), start, batch),
        decreases views.len() - i,
    {
        let d: &DocEntry = &docs[i];
        proof {
            lemma_place_all_next(views.take(i as int), start, batch);
            assert(views.take(i + 1).drop_last() =~= views.take(i as int));
            assert(views.take(i + 1).last() == d@);
        }
        match st.add_document(d.doc_id, d.path.as_slice(), d.content_hash, d.size_bytes) {
            Err(e) => {
                return Err(e);
            },
            Ok(_) => {},
        }
        i = i + 1;
    }
    assert(views.take(i as int) =~= views);
    Ok(st)
}

proof fn lemma_grams_fault_stays(seg: MmapSegment, n: nat, m: nat)
    requires
        n <= m,
        grams_fault(seg, n) is Some,
    ensures
        grams_fault(seg, m) == grams_fault(seg, n),
    decreases m,
{
    if n < m {
        lemma_grams_fault_stays(seg, n, (m - 1) as nat);
    }
}

proof fn lemma_suffix_fault_stays(segs: Seq<MmapSegment>, from: int, n: int, m: int)
    requires
        from <= n <= m,
        suffix_fault(segs, from, n) is Some,
    ensures
        suffix_fault(segs, from, m) == suffix_fault(segs, from, n),
    decreases m - n,
{
    if n < m {
        lemma_suffix_fault_stays(segs, from, n, m - 1);
    }
}

proof fn lemma_segment_pairs_step(seg: MmapSegment, k: int, ids: Set<u32>)
    requires
        0 <= k,
        record_ids(seg.record_of(seg.gram_at(k))) == Some(ids),
    ensures
        segment_pairs(seg, k + 1) == segment_pairs(seg, k).union(
            gram_pairs(seg.gram_at(k), ids),
        ),
{
    let a = segment_pairs(seg, k);
    let b = segment_pairs(seg, k + 1);
    let g = gram_pairs(seg.gram_at(k), ids);
    assert forall|p: (u64, u32)| b.contains(p) <==> a.union(g).contains(p) by {
        if b.contains(p) {
            let i = choose|i: int|
                0 <= i < k + 1 && #[trigger] seg.gram_at(i) == p.0 && (record_ids(
                    seg.record_of(p.0),
                ) matches Some(s) && s.contains(p.1));
            if i < k {
                assert(in_grams(seg, k, p.0, p.1));
            }
        }
        if a.contains(p) {
            let i = choose|i: int|
                0 <= i < k && #[trigger] seg.gram_at(i) == p.0 && (record_ids(
                    seg.record_of(p.0),
                ) matches Some(s) && s.contains(p.1));
            assert(in_grams(seg, k + 1, p.0, p.1));
        }
        if g.contains(p) {
            assert(seg.gram_at(k) == p.0);
            assert(in_grams(seg, k + 1, p.0, p.1));
        }
    }
    assert(b =~= a.union(g));
}

/// Lists the postings of a segment for the documents that moved.
fn move_segment_postings(
    st: &mut CompactionState,
    seg: &MmapSegment,
    Ghost(src): Ghost<Set<(u64, u32)>>,
) -> (r: Result<(), IndexError>)
    requires
        old(st).wf(),
        seg.wf(),
        posted(old(st).writers@, old(st)@.targets, src),
    ensures
        match postings_fault(*seg) {
            Some(c) => r == Err::<(), IndexError>(IndexError::CorruptIndex(c)),
            None => {
                &&& r is Ok
                &&& final(st).wf()
                &&& final(st)@ == old(st)@
                &&& posted(
                    final(st).writers@,
                    final(st)@.targets,
                    src.union(segment_pairs(*seg, seg.gram_count as int)),
                )
            },
        },
{
    let ghost p = st@;
    let grams = match seg.gram_hashes() {
        Err(e) => {
            return Err(e);
        },
        Ok(v) => v,
    };
    let mut k: usize = 0;
    assert(src.union(segment_pairs(*seg, 0)) =~= src);
    while k < grams.len()
        invariant
            st.wf(),
            seg.wf(),
            st@ == p,
            grams@.len() == seg.gram_count,
            forall|i: int| 0 <= i < seg.gram_count ==> #[trigger] grams@[i] == seg.gram_at(i),
            k <= grams@.len(),
            postings_fault(*seg) == grams_fault(*seg, seg.gram_count as nat),
            grams_fault(*seg, k as nat) is None,
            posted(st.writers@, p.targets, src.union(segment_pairs(*seg, k as int))),
        decreases grams@.len() - k,
    {
        let gram: u64 = grams[k];
        assert(gram == seg.gram_at(k as int));
        let list = match seg.lookup_gram(gram) {
            None => {
                proof {
                    lemma_grams_fault_stays(*seg, (k + 1) as nat, seg.gram_count as nat);
                }
                return Err(IndexError::CorruptIndex(Corruption::MissingPostings { gram }));
            },
            Some(l) => l,
        };
        let ids = match list.to_vec() {
            Err(_) => {
                proof {
                    lemma_grams_fault_stays(*seg, (k + 1) as nat, seg.gram_count as nat);
                }
                return Err(IndexError::CorruptIndex(Corruption::BadPostings { gram }));
            },
            Ok(v) => v,
        };
        let ghost so_far = src.union(segment_pairs(*seg, k as int));
        st.post_ids(gram, &ids, Ghost(so_far));
        proof {
            assert(record_ids(seg.record_of(gram)) == Some(ids@.to_set()));
            lemma_segment_pairs_step(*seg, k as int, ids@.to_set());
            assert(so_far.union(gram_pairs(gram, ids@.to_set())) =~= src.union(
                segment_pairs(*seg, k + 1),
            ));
        }
        k = k + 1;
    }
    Ok(())
}

/// Lists the postings of the overlay.
fn move_overlay_postings(
    st: &mut CompactionState,
    view: &overlay::OverlayView,
    Ghost(src): Ghost<Set<(u64, u32)>>,
)
    requires
        old(st).wf(),
        posted(old(st).writers@, old(st)@.targets, src),
    ensures
        final(st).wf(),
        final(st)@ == old(st)@,
        posted(
            final(st).writers@,
            final(st)@.targets,
            src.union(overlay::pairs_of(view.documents())),
        ),
{
    let ghost p = st@;
    let ghost docs = view.documents();
    let mut i: usize = 0;
    assert(src.union(overlay::pairs_of(docs.take(0))) =~= src);
    while i < view.docs.len()
        invariant
            st.wf(),
            st@ == p,
            docs == view.documents(),
            i <= docs.len(),
            posted(st.writers@, p.targets, src.union(overlay::pairs_of(docs.take(i as int)))),
        decreases docs.len() - i,
    {
        let doc_id: u32 = view.docs[i].doc_id;
        let grams: &Vec<u64> = &view.docs[i].grams;
        let ghost so_far = src.union(overlay::pairs_of(docs.take(i as int)));
        let mut k: usize = 0;
        assert(so_far.union(overlay::doc_pairs(doc_id, grams@.take(0))) =~= so_far);
        while k < grams.len()
            invariant
                st.wf(),
                st@ == p,
                k <= grams@.len(),
                posted(
                    st.writers@,
                    p.targets,
                    so_far.union(overlay::doc_pairs(doc_id, grams@.take(k as int))),
                ),
            decreases grams@.len() - k,
        {
            let ghost now = so_far.union(overlay::doc_pairs(doc_id, grams@.take(k as int)));
            st.post(grams[k], doc_id, Ghost(now));
            proof {
                overlay::lemma_doc_pairs_step(doc_id, grams@, k as int);
                assert(now.insert((grams@[k as int], doc_id)) =~= so_far.union(
                    overlay::doc_pairs(doc_id, grams@.take(k + 1)),
                ));
            }
            k = k + 1;
        }
        proof {
            assert(grams@.take(k as int) =~= grams@);
            let d = docs[i as int];
            overlay::lemma_pairs_push(docs.take(i as int), d);
            assert(docs.take(i + 1) =~= docs.take(i as int).push(d));
            assert(so_far.union(overlay::doc_pairs(d.doc_id, d.grams)) =~= src.union(
                overlay::pairs_of(docs.take(i + 1)),
            ));
        }
        i = i + 1;
    }
    assert(docs.take(i as int) =~= docs);
}

/// Everything that a compaction from segment `from` on writes: the documents
/// with new ids from `start` on, and their postings.
pub fn rewrite(s: &IndexSnapshot, from: usize, start: u32, batch_size_bytes: u64) -> (r: Result<
    CompactionState,
    IndexError,
>)
    requires
        s.wf(),
        from <= s.segs().len(),
    ensures
        match moved(*s, from as int, room_from(start)) {
            Err(e) => r == Err::<CompactionState, IndexError>(e),
            Ok(docs) => match suffix_fault(s.segs(), from as int, s.segs().len() as int) {
                Some(c) => r == Err::<CompactionState, IndexError>(IndexError::CorruptIndex(c)),
                None => r matches Ok(st) && {
                    &&& start + docs.len() <= u32::MAX
                    &&& st.wf()
                    &&& st@ == place_all(docs, start, cost(batch_size_bytes))
                    &&& posted(st.writers@, st@.targets, moved_pairs(*s, from as int))
                },
            },
        },
{
    let docs = match moved_documents(s, from, u32::MAX - start) {
        Err(e) => {
            return Err(e);
        },
        Ok(d) => d,
    };
    let mut st = match place_documents(&docs, start, batch_size_bytes) {
        Err(e) => {
            return Err(e);
        },
        Ok(st) => st,
    };
    let ghost p = st@;
    let ghost segs = s.segs();
    let ghost views = layout::doc_views(docs@);
    let mut i: usize = from;
    assert(posted(st.writers@, p.targets, Set::empty())) by {
        assert forall|j: int, gram: u64, n: u32|
            #![trigger st.writers@[j].postings().contains((gram, n))]
            0 <= j < st.writers@.len() implies (st.writers@[j].postings().contains((gram, n))
            <==> lists(p.targets, Set::<(u64, u32)>::empty(), j, gram, n)) by {
            assert(st.writers@[j].postings() == Seq::<(u64, u32)>::empty());
        }
    }
    while i < s.base.segments.len()
        invariant
            s.wf(),
            segs == s.segs(),
            from <= i <= segs.len(),
            st.wf(),
            st@ == p,
            suffix_fault(segs, from as int, i as int) is None,
            posted(st.writers@, p.targets, suffix_pairs(segs, from as int, i as int)),
            moved(*s, from as int, room_from(start)) == Ok::<Seq<DocView>, IndexError>(views),
            start + views.len() <= u32::MAX,
        decreases segs.len() - i,
    {
        let seg: &MmapSegment = &s.base.segments[i];
        assert(segs[i as int].wf());
        let ghost so_far = suffix_pairs(segs, from as int, i as int);
        match move_segment_postings(&mut st, seg, Ghost(so_far)) {
            Err(e) => {
                proof {
                    lemma_suffix_fault_stays(segs, from as int, i + 1, segs.len() as int);
                }
                return Err(e);
            },
            Ok(_) => {},
        }
        i = i + 1;
    }
    move_overlay_postings(
        &mut st,
        &s.overlay,
        Ghost(suffix_pairs(segs, from as int, segs.len() as int)),
    );
    Ok(st)
}

} // verus!
