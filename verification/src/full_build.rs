//! Full builds: every file of a repository goes into fresh segments.
//!
//! Files are read and split into grams outside; here it is decided which of them
//! become documents, under which ids, and what is written.

use crate::commit;
use crate::compact_index;
use crate::compact_index::NewSegment;
use crate::compact_laws;
use crate::encoding;
use crate::encoding::{is_binary, normalize_encoding};
use crate::error::{Corruption, IndexError};
use crate::hash;
use crate::le;
use crate::manifest;
use crate::manifest::{Manifest, SegmentRef};
use crate::open;
use crate::overlay;
use crate::path_index;
use crate::path_index::PathIndex;
use crate::path_resolve;
use crate::paths::PathSet;
use crate::paths_idx;
use crate::reopen_laws;
use crate::segment::layout;
use crate::segment::layout::DocView;
use crate::segment::reader;
use crate::segment::reader::{DictVerify, SegmentLayout};
use crate::segment::writer;
use crate::segment::writer::SegmentWriter;
use crate::walk;
use crate::walk::{FileRecord, RecordView};
use std::borrow::Cow;
use vstd::prelude::*;

verus! {

/// The longest path that a segment can hold.
pub const MAX_PATH_LEN: usize = 65_535;

/// What reading a file gave.
#[derive(Debug)]
pub enum Scan {
    /// Text, as it is indexed, and its hash.
    Text { content: Vec<u8>, content_hash: u64 },
    /// A binary file: not indexed.
    Binary,
    /// It could not be read.
    Unreadable,
    /// Its path is too long for a segment.
    OversizedPath,
}

/// What comes of a file at a path of which this was read.
pub open spec fn is_scan(rel: Seq<u8>, raw: Option<&[u8]>, r: Scan) -> bool {
    if rel.len() > MAX_PATH_LEN {
        r is OversizedPath
    } else {
        match raw {
            None => r is Unreadable,
            Some(b) => {
                let text = encoding::normalized(b@);
                if encoding::binary(text) {
                    r is Binary
                } else {
                    r matches Scan::Text { content, content_hash } && content@ == text
                        && content_hash == hash::xxh64_of(text, 0)
                }
            },
        }
    }
}

/// Sorts a file by its path and what was read from it. The path is looked at
/// first, so that one file with a long path does not fail its whole batch.
pub fn scan_file(rel: &[u8], raw: Option<&[u8]>) -> (r: Scan)
    ensures
        is_scan(rel@, raw, r),
{
    if rel.len() > MAX_PATH_LEN {
        return Scan::OversizedPath;
    }
    match raw {
        None => Scan::Unreadable,
        Some(b) => {
            let text = normalize_encoding(b);
            let content: Vec<u8> = match text {
                Cow::Borrowed(s) => le::bytes_clone(s),
                Cow::Owned(v) => v,
            };
            if is_binary(content.as_slice()) {
                Scan::Binary
            } else {
                let content_hash: u64 = hash::xxh64(content.as_slice(), 0);
                Scan::Text { content, content_hash }
            }
        },
    }
}

/// What comes of a file.
#[derive(Debug)]
pub enum FileResult {
    /// It becomes a document with these grams.
    Indexed { content_hash: u64, grams: Vec<u64> },
    Binary,
    Unreadable,
    OversizedPath,
}

/// A document and its grams.
#[verifier::ext_equal]
pub struct BuiltDoc {
    pub doc: DocView,
    pub grams: Seq<u64>,
}

/// The documents of the first `n` files of a batch, numbered from `first`.
pub open spec fn built(
    batch: Seq<RecordView>,
    results: Seq<FileResult>,
    n: nat,
    first: nat,
) -> Seq<BuiltDoc>
    decreases n,
{
    if n == 0 {
        Seq::empty()
    } else {
        let rest = built(batch, results, (n - 1) as nat, first);
        match results[n - 1] {
            FileResult::Indexed { content_hash, grams } => rest.push(
                BuiltDoc {
                    doc: DocView {
                        doc_id: (first + rest.len()) as u32,
                        content_hash,
                        size_bytes: batch[n - 1].size,
                        path: batch[n - 1].rel,
                    },
                    grams: grams@,
                },
            ),
            _ => rest,
        }
    }
}

/// The documents without their grams.
pub open spec fn docs_of(b: Seq<BuiltDoc>) -> Seq<DocView> {
    Seq::new(b.len(), |i: int| b[i].doc)
}

/// `ps` lists exactly the grams of the documents.
pub open spec fn lists_grams(ps: Seq<(u64, u32)>, b: Seq<BuiltDoc>) -> bool {
    forall|x: (u64, u32)| #[trigger]
        ps.contains(x) <==> exists|i: int|
            0 <= i < b.len() && overlay::doc_pairs(
                (#[trigger] b[i]).doc.doc_id,
                b[i].grams,
            ).contains(x)
}

/// The paths of documents, in their normal form.
pub open spec fn paths_of(b: Seq<BuiltDoc>) -> Set<Seq<u8>> {
    Set::new(
        |p: Seq<u8>|
            exists|i: int|
                0 <= i < b.len() && path_resolve::normal((#[trigger] b[i]).doc.path) == p,
    )
}

/// Files that were left out, by reason.
#[derive(Debug, Clone, Copy, PartialEq, Eq, Structural)]
pub struct SkipCounts {
    pub binary: usize,
    pub unreadable: usize,
    pub oversized_path: usize,
}

/// The counts after the first `n` results.
pub open spec fn skipped_after(
    start: SkipCounts,
    results: Seq<FileResult>,
    n: nat,
) -> SkipCounts
    decreases n,
{
    if n == 0 {
        start
    } else {
        let c = skipped_after(start, results, (n - 1) as nat);
        match results[n - 1] {
            FileResult::Indexed { .. } => c,
            FileResult::Binary => SkipCounts {
                binary: commit::clamp_size(c.binary as nat + 1),
                ..c
            },
            FileResult::Unreadable => SkipCounts {
                unreadable: commit::clamp_size(c.unreadable as nat + 1),
                ..c
            },
            FileResult::OversizedPath => SkipCounts {
                oversized_path: commit::clamp_size(c.oversized_path as nat + 1),
                ..c
            },
        }
    }
}

/// Adds the grams of a document.
pub(crate) fn add_grams(w: &mut SegmentWriter, grams: &Vec<u64>, doc_id: u32)
    ensures
        final(w).docs() == old(w).docs(),
        forall|x: (u64, u32)| #[trigger]
            final(w).postings().contains(x) <==> old(w).postings().contains(x)
                || overlay::doc_pairs(doc_id, grams@).contains(x),
{
    let ghost ps0 = w.postings();
    let ghost ds = w.docs();
    let mut k: usize = 0;
    while k < grams.len()
        invariant
            w.docs() == ds,
            k <= grams@.len(),
            forall|x: (u64, u32)| #[trigger]
                w.postings().contains(x) <==> ps0.contains(x) || overlay::doc_pairs(
                    doc_id,
                    grams@.take(k as int),
                ).contains(x),
        decreases grams@.len() - k,
    {
        let ghost ps = w.postings();
        w.add_gram_posting(grams[k], doc_id);
        proof {
            overlay::lemma_doc_pairs_step(doc_id, grams@, k as int);
            let x0 = (grams@[k as int], doc_id);
            assert forall|x: (u64, u32)| #[trigger]
                w.postings().contains(x) <==> ps0.contains(x) || overlay::doc_pairs(
                    doc_id,
                    grams@.take(k + 1),
                ).contains(x) by {
                lemma_push_contains(ps, x0, x);
            }
        }
        k = k + 1;
    }
    assert(grams@.take(k as int) =~= grams@);
}

/// An element of a sequence with one more.
pub(crate) proof fn lemma_push_contains<T>(s: Seq<T>, y: T, x: T)
    ensures
        s.push(y).contains(x) <==> s.contains(x) || x == y,
{
    let t = s.push(y);
    assert(t[s.len() as int] == y);
    if s.contains(x) {
        let k = choose|k: int| 0 <= k < s.len() && s[k] == x;
        assert(t[k] == x);
    }
    if t.contains(x) {
        let k = choose|k: int| 0 <= k < t.len() && t[k] == x;
        if k < s.len() {
            assert(s[k] == x);
        }
    }
}

/// A build so far.
pub struct Build {
    /// The next free document id.
    pub next_doc_id: u32,
    pub refs: Vec<SegmentRef>,
    pub files: Vec<NewSegment>,
    /// The indexed paths.
    pub indexed: PathSet,
    pub skipped: SkipCounts,
}

/// A segment was written of these documents.
pub open spec fn segment_written(r: SegmentRef, f: NewSegment, b: Seq<BuiltDoc>, first: u32) -> bool {
    exists|ps: Seq<(u64, u32)>|
        #[trigger] compact_index::is_written(r@, f, docs_of(b), ps, first) && lists_grams(ps, b)
}

/// These documents cannot be written, for the reason `e`.
pub open spec fn segment_refused(b: Seq<BuiltDoc>, first: nat, e: IndexError) -> bool {
    if first + b.len() > u32::MAX {
        e == (IndexError::DocIdOverflow { base_doc_count: u32::MAX, overlay_docs: 0 })
    } else {
        b.len() > 0 && (e matches IndexError::Segment(x) && exists|ps: Seq<(u64, u32)>|
            #[trigger] writer::refused(docs_of(b), ps, x) && lists_grams(ps, b))
    }
}

proof fn lemma_built_ids(
    batch: Seq<RecordView>,
    results: Seq<FileResult>,
    n: nat,
    m: nat,
    first: nat,
)
    requires
        n <= m,
    ensures
        built(batch, results, n, first).len() <= built(batch, results, m, first).len(),
        built(batch, results, m, first).len() <= m,
    decreases m,
{
    if n < m {
        lemma_built_ids(batch, results, n, (m - 1) as nat, first);
    } else if m > 0 {
        lemma_built_ids(batch, results, (m - 1) as nat, (m - 1) as nat, first);
    }
}

impl Build {
    pub open spec fn wf(self) -> bool {
        self.indexed.wf() && self.indexed.paths@.len() <= self.next_doc_id
    }

    /// A build without documents.
    pub fn new() -> (b: Self)
        ensures
            b.wf(),
            b.next_doc_id == 0,
            b.refs@ == Seq::<SegmentRef>::empty(),
            b.files@ == Seq::<NewSegment>::empty(),
            b.indexed@ == Set::<Seq<u8>>::empty(),
            b.skipped == (SkipCounts { binary: 0, unreadable: 0, oversized_path: 0 }),
    {
        Build {
            next_doc_id: 0,
            refs: Vec::new(),
            files: Vec::new(),
            indexed: PathSet::new(),
            skipped: SkipCounts { binary: 0, unreadable: 0, oversized_path: 0 },
        }
    }

    /// Writes the documents of one batch as a segment; a batch without documents
    /// gives none. A batch that fails changes nothing.
    pub fn add_batch(&mut self, batch: &Vec<FileRecord>, results: &Vec<FileResult>) -> (r: Result<
        (),
        IndexError,
    >)
        requires
            old(self).wf(),
            batch@.len() == results@.len(),
        ensures
            final(self).wf(),
            ({
                let first = old(self).next_doc_id;
                let b = built(
                    walk::record_views(batch@),
                    results@,
                    batch@.len(),
                    first as nat,
                );
                match r {
                    Ok(_) => {
                        &&& first + b.len() <= u32::MAX
                        &&& final(self).next_doc_id == first + b.len()
                        &&& final(self).indexed@ == old(self).indexed@.union(paths_of(b))
                        &&& final(self).skipped == skipped_after(
                            old(self).skipped,
                            results@,
                            results@.len(),
                        )
                        &&& if b.len() == 0 {
                            final(self).refs == old(self).refs && final(self).files == old(
                                self,
                            ).files
                        } else {
                            &&& final(self).refs@.len() == old(self).refs@.len() + 1
                            &&& final(self).refs@.drop_last() == old(self).refs@
                            &&& final(self).files@.len() == old(self).files@.len() + 1
                            &&& final(self).files@.drop_last() == old(self).files@
                            &&& segment_written(
                                final(self).refs@.last(),
                                final(self).files@.last(),
                                b,
                                first,
                            )
                        }
                    },
                    Err(e) => {
                        &&& segment_refused(b, first as nat, e)
                        &&& final(self).next_doc_id == first
                        &&& final(self).refs == old(self).refs
                        &&& final(self).files == old(self).files
                        &&& final(self).indexed@ == old(self).indexed@
                        &&& final(self).skipped == old(self).skipped
                    },
                }
            }),
    {
        let ghost bv = walk::record_views(batch@);
        let ghost rv = results@;
        let first: u32 = self.next_doc_id;
        let mut next: u32 = first;
        let mut indexed = self.indexed.copy();
        let ghost indexed0 = self.indexed@;
        let mut skipped: SkipCounts = self.skipped;
        let mut w = SegmentWriter::new();
        let mut i: usize = 0;
        proof {
            assert(indexed.seq().len() == self.indexed.seq().len());
            assert(w.docs() =~= docs_of(built(bv, rv, 0, first as nat)));
            assert(indexed@ =~= indexed0.union(paths_of(built(bv, rv, 0, first as nat))));
            assert(lists_grams(w.postings(), built(bv, rv, 0, first as nat)));
        }
        while i < batch.len()
            invariant
                bv == walk::record_views(batch@),
                rv == results@,
                bv.len() == batch@.len(),
                rv.len() == bv.len(),
                i <= bv.len(),
                indexed.wf(),
                indexed.paths@.len() <= next,
                next == first + built(bv, rv, i as nat, first as nat).len(),
                w.docs() == docs_of(built(bv, rv, i as nat, first as nat)),
                lists_grams(w.postings(), built(bv, rv, i as nat, first as nat)),
                indexed@ == indexed0.union(paths_of(built(bv, rv, i as nat, first as nat))),
                skipped == skipped_after(self.skipped, rv, i as nat),
                *self == *old(self),
                self.wf(),
                first == self.next_doc_id,
            decreases bv.len() - i,
        {
            let record = &batch[i];
            assert(bv[i as int] == walk::record_view(*record));
            match &results[i] {
                FileResult::Indexed { content_hash, grams } => {
                    let ghost b = built(bv, rv, i as nat, first as nat);
                    let doc_id: u32 = next;
                    proof {
                        lemma_built_ids(bv, rv, i as nat + 1, bv.len(), first as nat);
                    }
                    if next == u32::MAX {
                        return Err(
                            IndexError::DocIdOverflow { base_doc_count: doc_id, overlay_docs: 0 },
                        );
                    }
                    next = next + 1;
                    w.add_document(doc_id, record.1.as_slice(), *content_hash, record.2);
                    let ghost ps0 = w.postings();
                    add_grams(&mut w, grams, doc_id);
                    let ghost known = indexed;
                    indexed.insert(record.1.as_slice());
                    proof {
                        known.lemma_len();
                        indexed.lemma_len();
                        let c = built(bv, rv, i as nat + 1, first as nat);
                        assert(c.drop_last() =~= b);
                        lemma_next(b, c, ps0, w.postings());
                        assert(docs_of(c) =~= docs_of(b).push(c.last().doc));
                        assert(indexed@ =~= indexed0.union(paths_of(c)));
                    }
                },
                FileResult::Binary => {
                    skipped.binary = skipped.binary.saturating_add(1);
                },
                FileResult::Unreadable => {
                    skipped.unreadable = skipped.unreadable.saturating_add(1);
                },
                FileResult::OversizedPath => {
                    skipped.oversized_path = skipped.oversized_path.saturating_add(1);
                },
            }
            i = i + 1;
        }
        let ghost b = built(bv, rv, bv.len(), first as nat);
        if w.doc_count() > 0 {
            let ghost ps = w.postings();
            match compact_index::write_segment(w, first) {
                Err(e) => {
                    assert(writer::refused(docs_of(b), ps, e));
                    return Err(IndexError::Segment(e));
                },
                Ok((x, f)) => {
                    assert(compact_index::is_written(x@, f, docs_of(b), ps, first));
                    self.refs.push(x);
                    self.files.push(f);
                    assert(self.refs@.drop_last() =~= old(self).refs@);
                    assert(self.files@.drop_last() =~= old(self).files@);
                },
            }
        }
        self.next_doc_id = next;
        self.indexed = indexed;
        self.skipped = skipped;
        Ok(())
    }
}

proof fn lemma_next(
    b: Seq<BuiltDoc>,
    c: Seq<BuiltDoc>,
    before: Seq<(u64, u32)>,
    after: Seq<(u64, u32)>,
)
    requires
        c.len() == b.len() + 1,
        c.drop_last() == b,
        lists_grams(before, b),
        forall|x: (u64, u32)| #[trigger]
            after.contains(x) <==> before.contains(x) || overlay::doc_pairs(
                c.last().doc.doc_id,
                c.last().grams,
            ).contains(x),
    ensures
        lists_grams(after, c),
        paths_of(c) == paths_of(b).insert(path_resolve::normal(c.last().doc.path)),
{
    let n = b.len() as int;
    assert forall|i: int| 0 <= i < n implies #[trigger] c[i] == b[i] by {
        assert(c.drop_last()[i] == c[i]);
    }
    assert(c[n] == c.last());
    assert forall|x: (u64, u32)| #[trigger]
        after.contains(x) <==> exists|i: int|
            0 <= i < c.len() && overlay::doc_pairs(
                (#[trigger] c[i]).doc.doc_id,
                c[i].grams,
            ).contains(x) by {
        if before.contains(x) {
            let i = choose|i: int|
                0 <= i < b.len() && overlay::doc_pairs(
                    (#[trigger] b[i]).doc.doc_id,
                    b[i].grams,
                ).contains(x);
            assert(c[i] == b[i]);
        }
        if exists|i: int|
            0 <= i < c.len() && overlay::doc_pairs(
                (#[trigger] c[i]).doc.doc_id,
                c[i].grams,
            ).contains(x) {
            let i = choose|i: int|
                0 <= i < c.len() && overlay::doc_pairs(
                    (#[trigger] c[i]).doc.doc_id,
                    c[i].grams,
                ).contains(x);
            if i < n {
                assert(c[i] == b[i]);
                assert(before.contains(x));
            }
        }
    }
    assert forall|p: Seq<u8>|
        paths_of(c).contains(p) <==> paths_of(b).insert(
            path_resolve::normal(c.last().doc.path),
        ).contains(p) by {
        if paths_of(c).contains(p) {
            let i = choose|i: int|
                0 <= i < c.len() && path_resolve::normal((#[trigger] c[i]).doc.path) == p;
            if i < n {
                assert(path_resolve::normal(b[i].doc.path) == p);
            }
        }
        if paths_of(b).contains(p) {
            let i = choose|i: int|
                0 <= i < b.len() && path_resolve::normal((#[trigger] b[i]).doc.path) == p;
            assert(path_resolve::normal(c[i].doc.path) == p);
        }
    }
    assert(paths_of(c) =~= paths_of(b).insert(path_resolve::normal(c.last().doc.path)));
}

/// The documents of the first `k` batches.
pub open spec fn built_total(
    batches: Seq<Seq<RecordView>>,
    results: Seq<Vec<FileResult>>,
    k: nat,
) -> Seq<BuiltDoc>
    decreases k,
{
    if k == 0 {
        Seq::empty()
    } else {
        let rest = built_total(batches, results, (k - 1) as nat);
        rest + built(
            batches[k - 1],
            results[k - 1]@,
            batches[k - 1].len(),
            rest.len(),
        )
    }
}

/// The documents of batch `k`: their ids go on where those of the batches before
/// end.
pub open spec fn batch_built(
    batches: Seq<Seq<RecordView>>,
    results: Seq<Vec<FileResult>>,
    k: int,
) -> Seq<BuiltDoc> {
    built(
        batches[k],
        results[k]@,
        batches[k].len(),
        built_total(batches, results, k as nat).len(),
    )
}

/// The segments of the first `k` batches: one for each batch with documents.
pub open spec fn batches_written(
    refs: Seq<SegmentRef>,
    files: Seq<NewSegment>,
    batches: Seq<Seq<RecordView>>,
    results: Seq<Vec<FileResult>>,
    k: nat,
) -> bool
    decreases k,
{
    if k == 0 {
        refs.len() == 0 && files.len() == 0
    } else {
        let b = batch_built(batches, results, k - 1);
        let first = built_total(batches, results, (k - 1) as nat).len();
        if b.len() == 0 {
            batches_written(refs, files, batches, results, (k - 1) as nat)
        } else {
            &&& refs.len() > 0
            &&& files.len() > 0
            &&& segment_written(refs.last(), files.last(), b, first as u32)
            &&& batches_written(
                refs.drop_last(),
                files.drop_last(),
                batches,
                results,
                (k - 1) as nat,
            )
        }
    }
}

/// The counts after the first `k` batches.
pub open spec fn total_skipped(results: Seq<Vec<FileResult>>, k: nat) -> SkipCounts
    decreases k,
{
    if k == 0 {
        SkipCounts { binary: 0, unreadable: 0, oversized_path: 0 }
    } else {
        skipped_after(
            total_skipped(results, (k - 1) as nat),
            results[k - 1]@,
            results[k - 1]@.len(),
        )
    }
}

/// Batch `k` is the first that cannot be written, for the reason `e`.
pub open spec fn fails_at(
    batches: Seq<Seq<RecordView>>,
    results: Seq<Vec<FileResult>>,
    k: int,
    e: IndexError,
) -> bool {
    &&& 0 <= k < batches.len()
    &&& segment_refused(
        batch_built(batches, results, k),
        built_total(batches, results, k as nat).len(),
        e,
    )
    &&& built_total(batches, results, k as nat).len() <= u32::MAX
    &&& exists|refs: Seq<SegmentRef>, files: Seq<NewSegment>|
        #[trigger] batches_written(refs, files, batches, results, k as nat)
}

/// A built index.
pub struct BuiltIndex {
    pub manifest: Manifest,
    /// The segments, in the order of the manifest.
    pub files: Vec<NewSegment>,
    /// The paths of all documents.
    pub path_index: PathIndex,
    pub skipped: SkipCounts,
}

proof fn lemma_paths_of_add(a: Seq<BuiltDoc>, b: Seq<BuiltDoc>)
    ensures
        paths_of(a + b) == paths_of(a).union(paths_of(b)),
{
    let c = a + b;
    assert forall|p: Seq<u8>|
        paths_of(c).contains(p) <==> paths_of(a).union(paths_of(b)).contains(p) by {
        if paths_of(c).contains(p) {
            let i = choose|i: int|
                0 <= i < c.len() && path_resolve::normal((#[trigger] c[i]).doc.path) == p;
            if i < a.len() {
                assert(path_resolve::normal(a[i].doc.path) == p);
            } else {
                assert(path_resolve::normal(b[i - a.len()].doc.path) == p);
            }
        }
        if paths_of(a).contains(p) {
            let i = choose|i: int|
                0 <= i < a.len() && path_resolve::normal((#[trigger] a[i]).doc.path) == p;
            assert(path_resolve::normal(c[i].doc.path) == p);
        }
        if paths_of(b).contains(p) {
            let i = choose|i: int|
                0 <= i < b.len() && path_resolve::normal((#[trigger] b[i]).doc.path) == p;
            assert(path_resolve::normal(c[i + a.len()].doc.path) == p);
        }
    }
    assert(paths_of(c) =~= paths_of(a).union(paths_of(b)));
}

/// The batches of a build with this batch size.
pub open spec fn build_batches(files: Seq<RecordView>, batch_size_bytes: u64) -> Seq<
    Seq<RecordView>,
> {
    walk::batches_of(
        files,
        if batch_size_bytes == 0 {
            1
        } else {
            batch_size_bytes
        },
    )
}

/// There is a result for every file of every batch.
pub open spec fn aligned(batches: Seq<Seq<RecordView>>, results: Seq<Vec<FileResult>>) -> bool {
    &&& batches.len() == results.len()
    &&& forall|k: int| 0 <= k < batches.len() ==> (#[trigger] batches[k]).len() == results[k]@.len()
}

/// What a build gives.
pub open spec fn is_build(
    files: Seq<RecordView>,
    results: Seq<Vec<FileResult>>,
    batch_size_bytes: u64,
    head: Option<Vec<u8>>,
    created_at: u64,
    r: Result<BuiltIndex, IndexError>,
) -> bool {
    let batches = build_batches(files, batch_size_bytes);
    let n = batches.len();
    let all = built_total(batches, results, n);
    match r {
        Ok(x) => {
            let m = x.manifest;
            &&& all.len() <= u32::MAX
            &&& batches_written(m.segments@, x.files@, batches, results, n)
            &&& m == (Manifest {
                version: manifest::FORMAT_VERSION,
                base_commit: head,
                segments: m.segments,
                overlay_gen: 0,
                overlay_file: None,
                overlay_deletes_file: None,
                worktree_anchor_file: None,
                paths_idx_version: Some(paths_idx::FORMAT_VERSION),
                total_files_indexed: all.len() as u32,
                created_at,
                opstamp: 0,
                checksum: None,
            })
            &&& x.path_index.wf()
            &&& x.path_index.file_ids() == path_index::positional(
                commit::sorted_paths(paths_of(all)),
            )
            &&& x.path_index.file_ids().dom() == paths_of(all)
            &&& x.path_index.next_id == commit::sorted_paths(paths_of(all)).len()
            &&& x.skipped == total_skipped(results, n)
        },
        Err(e) => exists|k: int| fails_at(batches, results, k, e),
    }
}

/// Builds an index of files, in batches of about `batch_size_bytes`. `results`
/// says what came of each file, batch by batch.
///
/// The commit at which the files were read is recorded; the scan threshold is
/// left for the caller to add.
pub fn build_index_from_file_list(
    files: &[FileRecord],
    results: &Vec<Vec<FileResult>>,
    batch_size_bytes: u64,
    head: Option<Vec<u8>>,
    created_at: u64,
) -> (r: Result<BuiltIndex, IndexError>)
    requires
        aligned(build_batches(walk::record_views(files@), batch_size_bytes), results@),
    ensures
        is_build(walk::record_views(files@), results@, batch_size_bytes, head, created_at, r),
{
    let batches = walk::split_batches(
        files,
        if batch_size_bytes == 0 {
            1
        } else {
            batch_size_bytes
        },
    );
    let ghost bs = walk::batch_views(batches@);
    let ghost rs = results@;
    let mut build = Build::new();
    let mut k: usize = 0;
    proof {
        assert(paths_of(built_total(bs, rs, 0)) =~= Set::<Seq<u8>>::empty());
    }
    while k < batches.len()
        invariant
            bs == walk::batch_views(batches@),
            rs == results@,
            bs == build_batches(walk::record_views(files@), batch_size_bytes),
            bs.len() == batches@.len(),
            aligned(bs, rs),
            k <= bs.len(),
            build.wf(),
            build.next_doc_id == built_total(bs, rs, k as nat).len(),
            batches_written(build.refs@, build.files@, bs, rs, k as nat),
            build.indexed@ == paths_of(built_total(bs, rs, k as nat)),
            build.skipped == total_skipped(rs, k as nat),
        decreases bs.len() - k,
    {
        let ghost prev = built_total(bs, rs, k as nat);
        let ghost b = batch_built(bs, rs, k as int);
        proof {
            assert(bs[k as int] == walk::record_views(batches@[k as int]@));
            assert(bs[k as int].len() == rs[k as int]@.len());
            lemma_paths_of_add(prev, b);
        }
        match build.add_batch(&batches[k], &results[k]) {
            Err(e) => {
                assert(fails_at(bs, rs, k as int, e));
                return Err(e);
            },
            Ok(_) => {},
        }
        k = k + 1;
    }
    let path_index = PathIndex::build(&build.indexed.paths);
    proof {
        commit::lemma_sorted_paths(build.indexed);
        reopen_laws::lemma_positions(build.indexed.seq(), 0);
    }
    let mut m = Manifest::new(build.refs, build.next_doc_id, created_at);
    m.base_commit = head;
    m.paths_idx_version = Some(paths_idx::FORMAT_VERSION);
    Ok(BuiltIndex { manifest: m, files: build.files, path_index, skipped: build.skipped })
}

/// Whether a segment is unexpectedly large for its content.
pub fn is_dense(segment_size: u64, content_size: u64) -> (r: bool)
    ensures
        r == (content_size > 0 && segment_size > content_size / 2),
{
    content_size > 0 && segment_size > content_size / 2
}

pub(crate) proof fn lemma_ids_count_up(
    batch: Seq<RecordView>,
    results: Seq<FileResult>,
    n: nat,
    first: nat,
)
    ensures
        forall|i: int|
            0 <= i < built(batch, results, n, first).len() ==> (#[trigger] built(
                batch,
                results,
                n,
                first,
            )[i]).doc.doc_id == (first + i) as u32,
    decreases n,
{
    if n > 0 {
        lemma_ids_count_up(batch, results, (n - 1) as nat, first);
        let rest = built(batch, results, (n - 1) as nat, first);
        let all = built(batch, results, n, first);
        assert forall|i: int| 0 <= i < all.len() implies (#[trigger] all[i]).doc.doc_id == (first
            + i) as u32 by {
            if i < rest.len() {
                assert(all[i] == rest[i]);
            }
        }
    }
}

/// The id of a document is its position among all documents of a build.
pub proof fn law_ids_are_positions(
    batches: Seq<Seq<RecordView>>,
    results: Seq<Vec<FileResult>>,
    n: nat,
    i: int,
)
    requires
        0 <= i < built_total(batches, results, n).len(),
    ensures
        built_total(batches, results, n)[i].doc.doc_id == i as u32,
    decreases n,
{
    if n > 0 {
        let rest = built_total(batches, results, (n - 1) as nat);
        let b = batch_built(batches, results, n - 1);
        if i < rest.len() {
            law_ids_are_positions(batches, results, (n - 1) as nat, i);
        } else {
            lemma_ids_count_up(
                batches[n - 1],
                results[n - 1]@,
                batches[n - 1].len(),
                rest.len(),
            );
            assert(built_total(batches, results, n)[i] == b[i - rest.len()]);
        }
    }
}

/// The documents of a batch read back from the segment that was written of them,
/// in an index whose other segments end where they start.
pub proof fn law_built_documents_read_back(
    batches: Seq<Seq<RecordView>>,
    results: Seq<Vec<FileResult>>,
    k: nat,
    r: SegmentRef,
    f: NewSegment,
    verify: DictVerify,
) -> (l: SegmentLayout)
    requires
        k < batches.len(),
        built_total(batches, results, k + 1).len() <= open::MAX_TOTAL_DOCS,
        segment_written(
            r,
            f,
            batch_built(batches, results, k as int),
            built_total(batches, results, k).len() as u32,
        ),
        f.image.dict@.len() <= usize::MAX,
    ensures
        ({
            let first = built_total(batches, results, k).len() as u32;
            let docs = docs_of(batch_built(batches, results, k as int));
            &&& reader::layout_of(f.image.dict@, seq![layout::FORMAT_VERSION_V3], verify) == Ok::<
                SegmentLayout,
                Corruption,
            >(l)
            &&& open::admission_fault(r@.base_doc_id, first, open::docs_in(f.image.dict@, l))
                is None
            &&& open::docs_in(f.image.dict@, l).len() == docs.len()
            &&& forall|i: int|
                0 <= i < docs.len() ==> #[trigger] open::docs_in(f.image.dict@, l)[i] == Some(
                    docs[i],
                )
        }),
{
    let rest = built_total(batches, results, k);
    let first = rest.len() as u32;
    let b = batch_built(batches, results, k as int);
    let docs = docs_of(b);
    assert(built_total(batches, results, k + 1) == rest + b);
    let ps = choose|ps: Seq<(u64, u32)>|
        #[trigger] compact_index::is_written(r@, f, docs, ps, first) && lists_grams(ps, b);
    lemma_ids_count_up(
        batches[k as int],
        results[k as int]@,
        batches[k as int].len(),
        rest.len(),
    );
    assert forall|i: int| 0 <= i < docs.len() implies (#[trigger] docs[i]).doc_id == first + i by {
        assert(docs[i] == b[i].doc);
    }
    compact_laws::law_new_segments_are_taken(
        f.image.dict@,
        f.image.post@,
        docs,
        ps,
        first,
        first,
        verify,
    )
}

} // verus!
