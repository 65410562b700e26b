//! Figures about an index.

use crate::flush;
use crate::le;
use crate::manifest::{Manifest, SegmentRef};
use crate::plan_laws;
use crate::segment::reader::MmapSegment;
use crate::snapshot;
use crate::snapshot::IndexSnapshot;
use vstd::prelude::*;

verus! {

/// Figures about an index.
#[derive(Debug)]
pub struct IndexStats {
    /// Documents in the base segments.
    pub total_documents: usize,
    /// Base segments.
    pub total_segments: usize,
    /// Grams in the dictionaries of the base segments, each counted once per
    /// segment.
    pub total_grams: usize,
    /// Size of the segment files and the manifest.
    pub index_size_bytes: u64,
    /// The commit that the base was built at, where it is known.
    pub base_commit: Option<Vec<u8>>,
    /// Flushes since the last full build.
    pub overlay_generations: usize,
    /// Edits that are not committed yet.
    pub pending_edits: usize,
}

/// Sizes of the files of a segment; absent where a file could not be looked at.
#[derive(Debug, Clone, Copy)]
pub struct SegmentSizes {
    pub dict: Option<u64>,
    pub post: Option<u64>,
    pub single: Option<u64>,
}

/// The grams of all segments together.
pub open spec fn gram_sum(segs: Seq<MmapSegment>) -> nat
    decreases segs.len(),
{
    if segs.len() == 0 {
        0
    } else {
        gram_sum(segs.drop_last()) + segs.last().gram_count as nat
    }
}

/// The size of a file, if it has a name and could be looked at.
pub open spec fn size_of_file(name: Seq<u8>, size: Option<u64>) -> nat {
    match size {
        Some(n) => if name.len() > 0 {
            n as nat
        } else {
            0
        },
        None => 0,
    }
}

/// The size of the files of a segment.
pub open spec fn segment_size(r: SegmentRef, s: SegmentSizes) -> nat {
    size_of_file(r.dict_filename@, s.dict) + size_of_file(r.post_filename@, s.post) + size_of_file(
        r.filename@,
        s.single,
    )
}

/// The size of the files of the segments.
pub open spec fn size_sum(refs: Seq<SegmentRef>, sizes: Seq<SegmentSizes>) -> nat
    decreases refs.len(),
{
    if refs.len() == 0 {
        0
    } else {
        size_sum(refs.drop_last(), sizes.drop_last()) + segment_size(refs.last(), sizes.last())
    }
}

fn file_size(name: &Vec<u8>, size: Option<u64>) -> (n: u64)
    ensures
        n == size_of_file(name@, size),
{
    match size {
        Some(n) => if name.len() > 0 {
            n
        } else {
            0
        },
        None => 0,
    }
}

/// The size of the segment files and the manifest together.
pub open spec fn size_total(
    manifest: Option<Manifest>,
    sizes: Seq<SegmentSizes>,
    manifest_size: Option<u64>,
) -> nat {
    let m = match manifest_size {
        Some(n) => n as nat,
        None => 0,
    };
    match manifest {
        Some(x) => m + size_sum(x.segments@, sizes),
        None => m,
    }
}

proof fn lemma_size_sum_prefix(refs: Seq<SegmentRef>, sizes: Seq<SegmentSizes>, i: int)
    requires
        refs.len() == sizes.len(),
        0 <= i <= refs.len(),
    ensures
        size_sum(refs.take(i), sizes.take(i)) <= size_sum(refs, sizes),
    decreases refs.len(),
{
    if i < refs.len() {
        lemma_size_sum_prefix(refs.drop_last(), sizes.drop_last(), i);
        assert(refs.drop_last().take(i) =~= refs.take(i));
        assert(sizes.drop_last().take(i) =~= sizes.take(i));
    } else {
        assert(refs.take(i) =~= refs);
        assert(sizes.take(i) =~= sizes);
    }
}

fn sum_sizes(refs: &Vec<SegmentRef>, sizes: &Vec<SegmentSizes>) -> (n: u64)
    requires
        refs@.len() == sizes@.len(),
        size_sum(refs@, sizes@) <= u64::MAX,
    ensures
        n == size_sum(refs@, sizes@),
{
    let mut n: u64 = 0;
    let mut i: usize = 0;
    assert(refs@.take(0).len() == 0);
    while i < refs.len()
        invariant
            refs@.len() == sizes@.len(),
            size_sum(refs@, sizes@) <= u64::MAX,
            i <= refs@.len(),
            n == size_sum(refs@.take(i as int), sizes@.take(i as int)),
        decreases refs@.len() - i,
    {
        proof {
            assert(refs@.take(i + 1).drop_last() =~= refs@.take(i as int));
            assert(sizes@.take(i + 1).drop_last() =~= sizes@.take(i as int));
            lemma_size_sum_prefix(refs@, sizes@, i + 1);
        }
        let r = &refs[i];
        let s: SegmentSizes = sizes[i];
        let one: u64 = file_size(&r.dict_filename, s.dict) + file_size(&r.post_filename, s.post)
            + file_size(&r.filename, s.single);
        n = n + one;
        i = i + 1;
    }
    assert(refs@.take(i as int) =~= refs@);
    assert(sizes@.take(i as int) =~= sizes@);
    n
}

proof fn lemma_gram_sum_prefix(segs: Seq<MmapSegment>, i: int)
    requires
        0 <= i <= segs.len(),
    ensures
        gram_sum(segs.take(i)) <= gram_sum(segs),
    decreases segs.len(),
{
    if i < segs.len() {
        lemma_gram_sum_prefix(segs.drop_last(), i);
        assert(segs.drop_last().take(i) =~= segs.take(i));
    } else {
        assert(segs.take(i) =~= segs);
    }
}

fn count_grams(segs: &Vec<MmapSegment>) -> (n: usize)
    requires
        gram_sum(segs@) <= usize::MAX,
    ensures
        n == gram_sum(segs@),
{
    let mut n: usize = 0;
    let mut i: usize = 0;
    assert(segs@.take(0).len() == 0);
    while i < segs.len()
        invariant
            gram_sum(segs@) <= usize::MAX,
            i <= segs@.len(),
            n == gram_sum(segs@.take(i as int)),
        decreases segs@.len() - i,
    {
        proof {
            assert(segs@.take(i + 1).drop_last() =~= segs@.take(i as int));
            lemma_gram_sum_prefix(segs@, i + 1);
        }
        n = n + segs[i].gram_count as usize;
        i = i + 1;
    }
    assert(segs@.take(i as int) =~= segs@);
    n
}

/// The figures are those of this index.
pub open spec fn describes(
    r: IndexStats,
    snap: IndexSnapshot,
    manifest: Option<Manifest>,
    manifest_size: Option<u64>,
    sizes: Seq<SegmentSizes>,
    pending_edits: nat,
) -> bool {
    &&& r.total_documents == snapshot::doc_sum(snap.segs())
    &&& r.total_segments == snap.segs().len()
    &&& r.total_grams == gram_sum(snap.segs())
    &&& r.index_size_bytes == size_total(manifest, sizes, manifest_size)
    &&& flush::name_view(r.base_commit) == (match manifest {
        Some(m) => flush::name_view(m.base_commit),
        None => None,
    })
    &&& r.overlay_generations == (match manifest {
        Some(m) => m.overlay_gen as usize,
        None => 0,
    })
    &&& r.pending_edits == pending_edits
}

/// The figures of an index. Without a readable manifest, only those of the
/// snapshot and the size of the manifest file are known.
pub fn compute_stats(
    snap: &IndexSnapshot,
    manifest: &Option<Manifest>,
    manifest_size: Option<u64>,
    sizes: &Vec<SegmentSizes>,
    pending_edits: usize,
) -> (r: IndexStats)
    requires
        snapshot::doc_sum(snap.segs()) <= usize::MAX,
        gram_sum(snap.segs()) <= usize::MAX,
        manifest matches Some(m) ==> m.segments@.len() == sizes@.len(),
        size_total(*manifest, sizes@, manifest_size) <= u64::MAX,
    ensures
        describes(r, *snap, *manifest, manifest_size, sizes@, pending_edits as nat),
{
    let segs: &Vec<MmapSegment> = snap.base_segments();
    let total: u128 = snapshot::count_docs(segs);
    let total_documents: usize = total as usize;
    let total_grams: usize = count_grams(segs);
    let own: u64 = match manifest_size {
        Some(n) => n,
        None => 0,
    };
    match manifest {
        Some(m) => {
            let files: u64 = sum_sizes(&m.segments, sizes);
            IndexStats {
                total_documents,
                total_segments: segs.len(),
                total_grams,
                index_size_bytes: own + files,
                base_commit: match &m.base_commit {
                    Some(c) => Some(le::bytes_clone(c.as_slice())),
                    None => None,
                },
                overlay_generations: m.overlay_gen as usize,
                pending_edits,
            }
        },
        None => IndexStats {
            total_documents,
            total_segments: segs.len(),
            total_grams,
            index_size_bytes: own,
            base_commit: None,
            overlay_generations: 0,
            pending_edits,
        },
    }
}

/// The grams of the first `n` segments.
pub open spec fn grams_held(segs: Seq<MmapSegment>, n: int) -> nat
    decreases n,
{
    if n <= 0 {
        0
    } else {
        grams_held(segs, n - 1) + segs[n - 1].gram_count as nat
    }
}

proof fn lemma_grams_held(segs: Seq<MmapSegment>, n: int)
    requires
        0 <= n <= segs.len(),
    ensures
        grams_held(segs, n) == gram_sum(segs.take(n)),
    decreases n,
{
    if n > 0 {
        lemma_grams_held(segs, n - 1);
        assert(segs.take(n).drop_last() =~= segs.take(n - 1));
        assert(segs.take(n).last() == segs[n - 1]);
    }
}

/// The sizes of the files of the first `n` segments that are named and could be looked at.
pub open spec fn bytes_held(refs: Seq<SegmentRef>, sizes: Seq<SegmentSizes>, n: int) -> nat
    decreases n,
{
    if n <= 0 {
        0
    } else {
        let r = refs[n - 1];
        let s = sizes[n - 1];
        bytes_held(refs, sizes, n - 1) + (if r.dict_filename@.len() > 0 && s.dict is Some {
            s.dict->0 as nat
        } else {
            0
        }) + (if r.post_filename@.len() > 0 && s.post is Some {
            s.post->0 as nat
        } else {
            0
        }) + (if r.filename@.len() > 0 && s.single is Some {
            s.single->0 as nat
        } else {
            0
        })
    }
}

proof fn lemma_bytes_held(refs: Seq<SegmentRef>, sizes: Seq<SegmentSizes>, n: int)
    requires
        0 <= n <= refs.len(),
        refs.len() == sizes.len(),
    ensures
        bytes_held(refs, sizes, n) == size_sum(refs.take(n), sizes.take(n)),
    decreases n,
{
    if n > 0 {
        lemma_bytes_held(refs, sizes, n - 1);
        assert(refs.take(n).drop_last() =~= refs.take(n - 1));
        assert(sizes.take(n).drop_last() =~= sizes.take(n - 1));
        assert(refs.take(n).last() == refs[n - 1]);
        assert(sizes.take(n).last() == sizes[n - 1]);
    }
}

/// The figures count the segments of the index, their documents and their grams, and the
/// bytes of every file that the manifest names and of the manifest.
pub proof fn law_figures_add_up(
    r: IndexStats,
    snap: IndexSnapshot,
    m: Manifest,
    manifest_size: u64,
    sizes: Seq<SegmentSizes>,
    pending_edits: nat,
)
    requires
        describes(r, snap, Some(m), Some(manifest_size), sizes, pending_edits),
        m.segments@.len() == sizes.len(),
    ensures
        r.total_segments == snap.segs().len(),
        r.total_documents == plan_laws::docs_held(snap.segs(), snap.segs().len() as int),
        r.total_grams == grams_held(snap.segs(), snap.segs().len() as int),
        r.index_size_bytes == manifest_size + bytes_held(
            m.segments@,
            sizes,
            m.segments@.len() as int,
        ),
        r.pending_edits == pending_edits,
{
    let segs = snap.segs();
    plan_laws::lemma_docs_held(segs, segs.len() as int);
    lemma_grams_held(segs, segs.len() as int);
    assert(segs.take(segs.len() as int) =~= segs);
    lemma_bytes_held(m.segments@, sizes, m.segments@.len() as int);
    assert(m.segments@.take(m.segments@.len() as int) =~= m.segments@);
    assert(sizes.take(m.segments@.len() as int) =~= sizes);
}

} // verus!
