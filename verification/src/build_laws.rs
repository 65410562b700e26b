//! What a build writes, in terms of the files and what came of them.

use crate::compact_index;
use crate::compact_index::NewSegment;
use crate::error::{Corruption, IndexError};
use crate::full_build;
use crate::full_build::{BuiltDoc, BuiltIndex, FileResult, SkipCounts};
use crate::manifest::SegmentRef;
use crate::open;
use crate::order;
use crate::overlay;
use crate::path_resolve;
use crate::posting;
use crate::posting::PostingList;
use crate::reopen_laws;
use crate::segment::layout;
use crate::segment::layout::DocView;
use crate::segment::laws;
use crate::segment::reader;
use crate::segment::reader::{DictVerify, MmapSegment, SegmentLayout};
use crate::segment::writer;
use crate::segment::writer::SegmentError;
use crate::walk;
use crate::walk::RecordView;
use vstd::prelude::*;

verus! {

/// How many of the first `n` files are text.
pub open spec fn texts_before(results: Seq<FileResult>, n: int) -> nat
    decreases n,
{
    if n <= 0 {
        0
    } else {
        texts_before(results, n - 1) + if results[n - 1] is Indexed {
            1nat
        } else {
            0
        }
    }
}

/// How many files of the first `k` batches are text.
pub open spec fn texts_in_batches(results: Seq<Vec<FileResult>>, k: int) -> nat
    decreases k,
{
    if k <= 0 {
        0
    } else {
        texts_in_batches(results, k - 1) + texts_before(results[k - 1]@, results[k - 1]@.len() as int)
    }
}

/// A lookup lists the document.
pub open spec fn lists(found: Option<PostingList>, id: u32) -> bool {
    found matches Some(p) && exists|ids: Seq<u32>| #[trigger]
        posting::posting_ids(p, ids) && ids.contains(id)
}

/// A segment holds a document at this place, and lists it under its own grams and
/// under no other.
pub open spec fn serves(f: NewSegment, at: int, d: DocView, grams: Seq<u64>) -> bool {
    &&& forall|versions: Seq<u32>, verify: DictVerify, l: SegmentLayout|
        #[trigger] reader::layout_of(f.image.dict@, versions, verify) == Ok::<
            SegmentLayout,
            Corruption,
        >(l) ==> 0 <= at < open::docs_in(f.image.dict@, l).len() && #[trigger] open::docs_in(
            f.image.dict@,
            l,
        )[at] == Some(d)
    &&& forall|
        seg: MmapSegment,
        versions: Seq<u32>,
        verify: DictVerify,
        l: SegmentLayout,
        gram: u64,
        found: Option<PostingList>,
    |
        #[trigger] reopen_laws::reads(seg, f, versions, verify, l, gram)
            && #[trigger] reader::list_of(found, seg.record_of(gram)) ==> (lists(found, d.doc_id)
            <==> grams.contains(gram))
}

/// What a segment lists under any gram is a document of a text file of the batch that
/// holds the gram.
pub open spec fn lists_only(
    f: NewSegment,
    results: Seq<FileResult>,
    first: nat,
) -> bool {
    forall|
        seg: MmapSegment,
        versions: Seq<u32>,
        verify: DictVerify,
        l: SegmentLayout,
        gram: u64,
        found: Option<PostingList>,
        id: u32,
    |
        #[trigger] reopen_laws::reads(seg, f, versions, verify, l, gram)
            && #[trigger] reader::list_of(found, seg.record_of(gram)) && #[trigger] lists(found, id)
            ==> exists|i: int|
            0 <= i < results.len() && id == first + texts_before(results, i) && (
            #[trigger] results[i] matches FileResult::Indexed { grams, .. } && grams@.contains(
                gram,
            ))
}

/// The document of a text file.
pub open spec fn text_document(
    rec: RecordView,
    content_hash: u64,
    id: int,
) -> DocView {
    DocView { doc_id: id as u32, content_hash, size_bytes: rec.size, path: rec.rel }
}

proof fn lemma_texts_grow(results: Seq<FileResult>, i: int, n: int)
    requires
        0 <= i <= n,
    ensures
        texts_before(results, i) <= texts_before(results, n),
        i < n && results[i] is Indexed ==> texts_before(results, i) < texts_before(results, n),
    decreases n,
{
    if i < n {
        lemma_texts_grow(results, i, n - 1);
    }
}

proof fn lemma_built_len(batch: Seq<RecordView>, results: Seq<FileResult>, n: nat, first: nat)
    ensures
        full_build::built(batch, results, n, first).len() == texts_before(results, n as int),
    decreases n,
{
    if n > 0 {
        lemma_built_len(batch, results, (n - 1) as nat, first);
    }
}

/// The document of text file `i`.
proof fn lemma_built_at(
    batch: Seq<RecordView>,
    results: Seq<FileResult>,
    n: nat,
    first: nat,
    i: int,
)
    requires
        0 <= i < n,
        results[i] is Indexed,
    ensures
        ({
            let b = full_build::built(batch, results, n, first);
            let at = texts_before(results, i) as int;
            &&& at < b.len()
            &&& results[i] matches FileResult::Indexed { content_hash, grams } && b[at].doc
                == text_document(batch[i], content_hash, first + at) && b[at].grams == grams@
        }),
    decreases n,
{
    lemma_built_len(batch, results, n, first);
    lemma_texts_grow(results, i, n as int);
    if i < n - 1 {
        lemma_built_at(batch, results, (n - 1) as nat, first, i);
    } else {
        lemma_built_len(batch, results, (n - 1) as nat, first);
    }
}

/// The text file of document `j`.
proof fn lemma_built_from(
    batch: Seq<RecordView>,
    results: Seq<FileResult>,
    n: nat,
    first: nat,
    j: int,
) -> (i: int)
    requires
        0 <= j < full_build::built(batch, results, n, first).len(),
    ensures
        0 <= i < n,
        results[i] is Indexed,
        texts_before(results, i) == j,
    decreases n,
{
    lemma_built_len(batch, results, n, first);
    lemma_built_len(batch, results, (n - 1) as nat, first);
    if j < full_build::built(batch, results, (n - 1) as nat, first).len() {
        lemma_built_from(batch, results, (n - 1) as nat, first, j)
    } else {
        n - 1
    }
}

/// The segment of a batch is searched for its files: each text file has one document,
/// with its path, hash and size, numbered from `first` in the order of the files; it
/// is listed under every gram of the file and under no other gram; and nothing else
/// is listed.
pub proof fn law_batch_files_are_found(
    batch: Seq<RecordView>,
    results: Seq<FileResult>,
    first: u32,
    r: SegmentRef,
    f: NewSegment,
)
    requires
        batch.len() == results.len(),
        first + texts_before(results, results.len() as int) <= u32::MAX,
        full_build::segment_written(
            r,
            f,
            full_build::built(batch, results, batch.len(), first as nat),
            first,
        ),
        f.image.dict@.len() <= usize::MAX,
    ensures
        forall|i: int|
            0 <= i < batch.len() ==> (#[trigger] results[i] matches FileResult::Indexed {
                content_hash,
                grams,
            } ==> serves(
                f,
                texts_before(results, i) as int,
                text_document(batch[i], content_hash, first + texts_before(results, i)),
                grams@,
            )),
        lists_only(f, results, first as nat),
        r.doc_count == texts_before(results, results.len() as int),
        r.base_doc_id == Some(first),
{
    let n = batch.len();
    let b = full_build::built(batch, results, n, first as nat);
    let docs = full_build::docs_of(b);
    lemma_built_len(batch, results, n, first as nat);
    let ps = choose|ps: Seq<(u64, u32)>| #[trigger]
        compact_index::is_written(r@, f, docs, ps, first) && full_build::lists_grams(ps, b);
    full_build::lemma_ids_count_up(batch, results, n, first as nat);
    assert forall|k: int| 0 <= k < docs.len() implies (#[trigger] docs[k]).doc_id == first + k by {
        assert(docs[k] == b[k].doc);
    }
    assert forall|
        seg: MmapSegment,
        versions: Seq<u32>,
        verify: DictVerify,
        l: SegmentLayout,
        gram: u64,
        found: Option<PostingList>,
        id: u32,
    |
        #[trigger] reopen_laws::reads(seg, f, versions, verify, l, gram)
            && #[trigger] reader::list_of(found, seg.record_of(gram)) implies (#[trigger] lists(
        found,
        id,
    ) <==> ps.contains((gram, id))) by {
        lemma_lists(r, f, docs, ps, first, seg, versions, verify, l, gram, found, id);
    }
    assert forall|i: int| 0 <= i < batch.len() implies (
    #[trigger] results[i] matches FileResult::Indexed { content_hash, grams } ==> serves(
        f,
        texts_before(results, i) as int,
        text_document(batch[i], content_hash, first + texts_before(results, i)),
        grams@,
    )) by {
        if let FileResult::Indexed { content_hash, grams } = results[i] {
            let at = texts_before(results, i) as int;
            let d = text_document(batch[i], content_hash, first + at);
            lemma_built_at(batch, results, n, first as nat, i);
            assert(docs[at] == d);
            assert forall|versions: Seq<u32>, verify: DictVerify, l: SegmentLayout|
                #[trigger] reader::layout_of(f.image.dict@, versions, verify) == Ok::<
                    SegmentLayout,
                    Corruption,
                >(l) implies 0 <= at < open::docs_in(f.image.dict@, l).len()
                && #[trigger] open::docs_in(f.image.dict@, l)[at] == Some(d) by {
                lemma_reads_back(f, docs, ps, first, versions, verify, l, at);
            }
            assert forall|gram: u64| ps.contains((gram, d.doc_id)) <==> grams@.contains(gram) by {
                if grams@.contains(gram) {
                    assert(overlay::doc_pairs(b[at].doc.doc_id, b[at].grams).contains(
                        (gram, d.doc_id),
                    ));
                }
                if ps.contains((gram, d.doc_id)) {
                    let k = choose|k: int|
                        0 <= k < b.len() && overlay::doc_pairs(
                            (#[trigger] b[k]).doc.doc_id,
                            b[k].grams,
                        ).contains((gram, d.doc_id));
                    assert(docs[k] == b[k].doc);
                    assert(k == at);
                }
            }
        }
    }
    assert forall|
        seg: MmapSegment,
        versions: Seq<u32>,
        verify: DictVerify,
        l: SegmentLayout,
        gram: u64,
        found: Option<PostingList>,
        id: u32,
    |
        #[trigger] reopen_laws::reads(seg, f, versions, verify, l, gram)
            && #[trigger] reader::list_of(found, seg.record_of(gram)) && #[trigger] lists(
            found,
            id,
        ) implies exists|i: int|
        0 <= i < results.len() && id == first + texts_before(results, i) && (
        #[trigger] results[i] matches FileResult::Indexed { grams, .. } && grams@.contains(
            gram,
        )) by {
        assert(ps.contains((gram, id)));
        let k = choose|k: int|
            0 <= k < b.len() && overlay::doc_pairs((#[trigger] b[k]).doc.doc_id, b[k].grams).contains(
                (gram, id),
            );
        let i = lemma_built_from(batch, results, n, first as nat, k);
        lemma_built_at(batch, results, n, first as nat, i);
        assert(results[i] is Indexed);
    }
    assert(r@.doc_count == docs.len());
}

pub(crate) proof fn lemma_lists(
    r: SegmentRef,
    f: NewSegment,
    docs: Seq<DocView>,
    ps: Seq<(u64, u32)>,
    first: u32,
    seg: MmapSegment,
    versions: Seq<u32>,
    verify: DictVerify,
    l: SegmentLayout,
    gram: u64,
    found: Option<PostingList>,
    id: u32,
)
    requires
        compact_index::is_written(r@, f, docs, ps, first),
        f.image.dict@.len() <= usize::MAX,
        reopen_laws::reads(seg, f, versions, verify, l, gram),
        reader::list_of(found, seg.record_of(gram)),
    ensures
        lists(found, id) <==> ps.contains((gram, id)),
{
    let ids = laws::law_postings_read_back(
        seg,
        f.image.dict@,
        f.image.post@,
        docs,
        ps,
        versions,
        verify,
        l,
        gram,
        found,
    );
    assert(ids.to_set() =~= writer::docs_with(ps, gram));
    assert(ids.to_set().contains(id) <==> ps.contains((gram, id)));
    if ids.contains(id) {
        let p = found->0;
        assert(posting::posting_ids(p, ids));
    }
    if lists(found, id) {
        let p = found->0;
        let other = choose|other: Seq<u32>| #[trigger]
            posting::posting_ids(p, other) && other.contains(id);
        assert(ids.len() > 0);
        assert(other.to_set().contains(id));
        match p {
            PostingList::Small(_) => {
                assert(other == ids);
            },
            PostingList::Large(_) => {
                assert(ids.to_set().contains(id));
            },
        }
    }
}

pub(crate) proof fn lemma_reads_back(
    f: NewSegment,
    docs: Seq<DocView>,
    ps: Seq<(u64, u32)>,
    first: u32,
    versions: Seq<u32>,
    verify: DictVerify,
    l: SegmentLayout,
    at: int,
)
    requires
        layout::is_segment(f.image.dict@, f.image.post@, docs, ps),
        f.image.dict@.len() <= usize::MAX,
        forall|k: int| 0 <= k < docs.len() ==> (#[trigger] docs[k]).doc_id == first + k,
        reader::layout_of(f.image.dict@, versions, verify) == Ok::<SegmentLayout, Corruption>(l),
        0 <= at < docs.len(),
    ensures
        open::docs_in(f.image.dict@, l).len() == docs.len(),
        open::docs_in(f.image.dict@, l)[at] == Some(docs[at]),
{
    let sorted = laws::law_documents_read_back(
        f.image.dict@,
        f.image.post@,
        docs,
        ps,
        versions,
        verify,
        l,
    );
    laws::law_contiguous_ids_are_positions(docs, sorted, first, at);
    order::lemma_rearranged_contains(docs, sorted);
    assert(sorted.contains(sorted[at]));
    let i = choose|i: int| 0 <= i < docs.len() && docs[i] == sorted[at];
    assert(i == at);
    assert(reader::doc_in(
        f.image.dict@,
        l.doc_table_offset as int,
        l.dict_offset as int,
        at as u32,
    ) == Some(sorted[at]));
}

/// How many grams the first `n` files have, with repetitions.
pub open spec fn grams_before(results: Seq<FileResult>, n: int) -> nat
    decreases n,
{
    if n <= 0 {
        0
    } else {
        grams_before(results, n - 1) + match results[n - 1] {
            FileResult::Indexed { grams, .. } => grams@.len(),
            _ => 0,
        }
    }
}

/// A text file among the results has a gram.
pub open spec fn has_gram(results: Seq<FileResult>, i: int, gram: u64) -> bool {
    results[i] matches FileResult::Indexed { grams, .. } && grams@.contains(gram)
}

/// All grams of the first `n` files, one file after the other.
spec fn all_grams(results: Seq<FileResult>, n: int) -> Seq<u64>
    decreases n,
{
    if n <= 0 {
        Seq::empty()
    } else {
        all_grams(results, n - 1) + match results[n - 1] {
            FileResult::Indexed { grams, .. } => grams@,
            _ => Seq::empty(),
        }
    }
}

proof fn lemma_all_grams(results: Seq<FileResult>, n: int, gram: u64)
    requires
        0 <= n <= results.len(),
    ensures
        all_grams(results, n).len() == grams_before(results, n),
        (exists|i: int| 0 <= i < n && #[trigger] has_gram(results, i, gram)) ==> all_grams(
            results,
            n,
        ).contains(gram),
    decreases n,
{
    if n > 0 {
        lemma_all_grams(results, n - 1, gram);
        let before = all_grams(results, n - 1);
        let all = all_grams(results, n);
        if exists|i: int| 0 <= i < n && #[trigger] has_gram(results, i, gram) {
            let i = choose|i: int| 0 <= i < n && #[trigger] has_gram(results, i, gram);
            if i < n - 1 {
                let k = choose|k: int| 0 <= k < before.len() && before[k] == gram;
                assert(all[k] == gram);
            } else if let FileResult::Indexed { grams, .. } = results[i] {
                let k = choose|k: int| 0 <= k < grams@.len() && grams@[k] == gram;
                assert(all[before.len() + k] == gram);
            }
        }
    }
}

/// A batch is refused for one of these reasons alone: ids run out; a text file has a
/// path above the limit; its grams cannot be counted; or so many of its files hold
/// one gram that the list of them takes a bitmap.
pub proof fn law_batches_are_refused_for_a_reason(
    batch: Seq<RecordView>,
    results: Seq<FileResult>,
    first: nat,
    e: IndexError,
)
    requires
        batch.len() == results.len(),
        full_build::segment_refused(
            full_build::built(batch, results, batch.len(), first),
            first,
            e,
        ),
    ensures
        first + texts_before(results, results.len() as int) > u32::MAX || (
        e matches IndexError::Segment(x) && match x {
            SegmentError::PathTooLong { doc_id, bytes } => exists|i: int|
                0 <= i < batch.len() && #[trigger] results[i] is Indexed && batch[i].rel.len()
                    == bytes && bytes > full_build::MAX_PATH_LEN && doc_id == first + texts_before(
                    results,
                    i,
                ),
            SegmentError::TooLarge => grams_before(results, results.len() as int) > u32::MAX,
            SegmentError::PostingTooLarge { gram } => texts_before(results, results.len() as int)
                >= posting::ROARING_THRESHOLD && exists|i: int|
                0 <= i < batch.len() && #[trigger] has_gram(results, i, gram),
            SegmentError::DuplicateDocId { .. } => false,
        }),
        first + texts_before(results, results.len() as int) > u32::MAX <==> e is DocIdOverflow,
{
    let n = batch.len();
    let b = full_build::built(batch, results, n, first);
    let docs = full_build::docs_of(b);
    lemma_built_len(batch, results, n, first);
    if first + b.len() <= u32::MAX {
        let x = e->Segment_0;
        let ps = choose|ps: Seq<(u64, u32)>| #[trigger]
            writer::refused(docs, ps, x) && full_build::lists_grams(ps, b);
        full_build::lemma_ids_count_up(batch, results, n, first);
        assert forall|k: int| 0 <= k < docs.len() implies (#[trigger] docs[k]).doc_id == first
            + k by {
            assert(docs[k] == b[k].doc);
        }
        assert forall|g: u64, d: u32| #[trigger] ps.contains((g, d)) implies exists|i: int|
            0 <= i < n && #[trigger] has_gram(results, i, g) && d == first + texts_before(
                results,
                i,
            ) by {
            let k = choose|k: int|
                0 <= k < b.len() && overlay::doc_pairs((#[trigger] b[k]).doc.doc_id, b[k].grams).contains(
                    (g, d),
                );
            let i = lemma_built_from(batch, results, n, first, k);
            lemma_built_at(batch, results, n, first, i);
            assert(has_gram(results, i, g));
        }
        match x {
            SegmentError::PathTooLong { doc_id, bytes } => {
                let k = choose|k: int|
                    #![trigger docs[k]]
                    0 <= k < docs.len() && docs[k].doc_id == doc_id && docs[k].path.len() == bytes
                        && docs[k].path.len() > u16::MAX;
                let i = lemma_built_from(batch, results, n, first, k);
                lemma_built_at(batch, results, n, first, i);
                assert(docs[k] == b[k].doc);
                assert(results[i] is Indexed);
            },
            SegmentError::TooLarge => {
                let all = all_grams(results, n as int);
                lemma_all_grams(results, n as int, 0);
                assert(writer::grams_of(ps).subset_of(all.to_set())) by {
                    assert forall|g: u64| writer::grams_of(ps).contains(g) implies all.to_set().contains(
                        g,
                    ) by {
                        let d = choose|d: u32| #[trigger] ps.contains((g, d));
                        lemma_all_grams(results, n as int, g);
                    }
                }
                all.lemma_cardinality_of_set();
                vstd::set_lib::lemma_len_subset(writer::grams_of(ps), all.to_set());
                assert forall|g: u64| #[trigger] writer::docs_with(ps, g).len() <= u32::MAX by {
                    lemma_few_holders(results, n as int, first, ps, g);
                }
            },
            SegmentError::PostingTooLarge { gram } => {
                lemma_few_holders(results, n as int, first, ps, gram);
                let held = writer::docs_with(ps, gram);
                assert(exists|d: u32| held.contains(d)) by {
                    if !exists|d: u32| held.contains(d) {
                        assert(held =~= Set::<u32>::empty());
                    }
                }
                let d = choose|d: u32| held.contains(d);
                assert(ps.contains((gram, d)));
            },
            SegmentError::DuplicateDocId { doc_id } => {
                assert(false);
            },
        }
    }
}

/// The ids of the text files.
spec fn text_ids(results: Seq<FileResult>, n: int, first: nat) -> Seq<u32> {
    Seq::new(texts_before(results, n), |k: int| (first + k) as u32)
}

proof fn lemma_few_holders(
    results: Seq<FileResult>,
    n: int,
    first: nat,
    ps: Seq<(u64, u32)>,
    g: u64,
)
    requires
        0 <= n,
        first + texts_before(results, n) <= u32::MAX,
        forall|g: u64, d: u32| #[trigger]
            ps.contains((g, d)) ==> exists|i: int|
                0 <= i < n && #[trigger] has_gram(results, i, g) && d == first + texts_before(
                    results,
                    i,
                ),
    ensures
        writer::docs_with(ps, g).len() <= texts_before(results, n),
{
    let ids = text_ids(results, n, first);
    assert forall|d: u32| writer::docs_with(ps, g).contains(d) implies ids.to_set().contains(d) by {
        assert(ps.contains((g, d)));
        let i = choose|i: int|
            0 <= i < n && #[trigger] has_gram(results, i, g) && d == first + texts_before(
                results,
                i,
            );
        lemma_texts_grow(results, i, n);
        assert(ids[texts_before(results, i) as int] == d);
    }
    ids.lemma_cardinality_of_set();
    vstd::set_lib::lemma_len_subset(writer::docs_with(ps, g), ids.to_set());
}

proof fn lemma_built_total_len(
    batches: Seq<Seq<RecordView>>,
    results: Seq<Vec<FileResult>>,
    k: nat,
)
    requires
        k <= batches.len(),
        full_build::aligned(batches, results),
    ensures
        full_build::built_total(batches, results, k).len() == texts_in_batches(results, k as int),
    decreases k,
{
    if k > 0 {
        lemma_built_total_len(batches, results, (k - 1) as nat);
        assert(batches[k - 1].len() == results[k - 1]@.len());
        lemma_built_len(
            batches[k - 1],
            results[k - 1]@,
            batches[k - 1].len(),
            full_build::built_total(batches, results, (k - 1) as nat).len(),
        );
    }
}

/// The segment of batch `k`.
proof fn lemma_segment_of_batch(
    refs: Seq<SegmentRef>,
    files: Seq<NewSegment>,
    batches: Seq<Seq<RecordView>>,
    results: Seq<Vec<FileResult>>,
    n: nat,
    k: int,
) -> (s: int)
    requires
        full_build::batches_written(refs, files, batches, results, n),
        0 <= k < n <= batches.len(),
        full_build::batch_built(batches, results, k).len() > 0,
    ensures
        refs.len() == files.len(),
        0 <= s < files.len(),
        full_build::segment_written(
            refs[s],
            files[s],
            full_build::batch_built(batches, results, k),
            full_build::built_total(batches, results, k as nat).len() as u32,
        ),
    decreases n,
{
    lemma_as_many_files(refs, files, batches, results, n);
    if k == n - 1 {
        files.len() - 1
    } else if full_build::batch_built(batches, results, n - 1).len() == 0 {
        lemma_segment_of_batch(refs, files, batches, results, (n - 1) as nat, k)
    } else {
        lemma_segment_of_batch(
            refs.drop_last(),
            files.drop_last(),
            batches,
            results,
            (n - 1) as nat,
            k,
        )
    }
}

proof fn lemma_as_many_files(
    refs: Seq<SegmentRef>,
    files: Seq<NewSegment>,
    batches: Seq<Seq<RecordView>>,
    results: Seq<Vec<FileResult>>,
    n: nat,
)
    requires
        full_build::batches_written(refs, files, batches, results, n),
    ensures
        refs.len() == files.len(),
    decreases n,
{
    if n > 0 {
        if full_build::batch_built(batches, results, n - 1).len() == 0 {
            lemma_as_many_files(refs, files, batches, results, (n - 1) as nat);
        } else {
            lemma_as_many_files(
                refs.drop_last(),
                files.drop_last(),
                batches,
                results,
                (n - 1) as nat,
            );
        }
    }
}

/// The batch of segment `s`.
proof fn lemma_batch_of_segment(
    refs: Seq<SegmentRef>,
    files: Seq<NewSegment>,
    batches: Seq<Seq<RecordView>>,
    results: Seq<Vec<FileResult>>,
    n: nat,
    s: int,
) -> (k: int)
    requires
        full_build::batches_written(refs, files, batches, results, n),
        n <= batches.len(),
        0 <= s < files.len(),
    ensures
        refs.len() == files.len(),
        0 <= k < n,
        full_build::batch_built(batches, results, k).len() > 0,
        full_build::segment_written(
            refs[s],
            files[s],
            full_build::batch_built(batches, results, k),
            full_build::built_total(batches, results, k as nat).len() as u32,
        ),
    decreases n,
{
    lemma_as_many_files(refs, files, batches, results, n);
    if n == 0 {
        0
    } else if full_build::batch_built(batches, results, n - 1).len() == 0 {
        lemma_batch_of_segment(refs, files, batches, results, (n - 1) as nat, s)
    } else if s == files.len() - 1 {
        n - 1
    } else {
        lemma_batch_of_segment(
            refs.drop_last(),
            files.drop_last(),
            batches,
            results,
            (n - 1) as nat,
            s,
        )
    }
}

proof fn lemma_texts_in_batches_grow(results: Seq<Vec<FileResult>>, k: int, n: int)
    requires
        0 <= k <= n,
    ensures
        texts_in_batches(results, k) <= texts_in_batches(results, n),
        k < n ==> texts_in_batches(results, k) + texts_before(
            results[k]@,
            results[k]@.len() as int,
        ) <= texts_in_batches(results, n),
    decreases n,
{
    if k < n {
        lemma_texts_in_batches_grow(results, k, n - 1);
    }
}

/// A built index is searched for every text file of the repository. The batches hold
/// the files in their order; text file `i` of batch `k` has a document in a segment
/// of the index, with its path, hash and size, whose id is the number of text files
/// before it, and which is listed under every gram of the file and under no other.
pub proof fn law_every_text_file_is_found(
    files: Seq<RecordView>,
    results: Seq<Vec<FileResult>>,
    batch_size_bytes: u64,
    head: Option<Vec<u8>>,
    created_at: u64,
    x: BuiltIndex,
    k: int,
    i: int,
) -> (s: int)
    requires
        full_build::is_build(
            files,
            results,
            batch_size_bytes,
            head,
            created_at,
            Ok::<BuiltIndex, IndexError>(x),
        ),
        full_build::aligned(full_build::build_batches(files, batch_size_bytes), results),
        0 <= k < results.len(),
        0 <= i < results[k]@.len(),
        results[k]@[i] is Indexed,
    ensures
        walk::flat(full_build::build_batches(files, batch_size_bytes)) == files,
        0 <= s < x.files@.len(),
        x.manifest.segments@.len() == x.files@.len(),
        x.manifest.segments@[s].base_doc_id == Some(texts_in_batches(results, k) as u32),
        ({
            let rec = full_build::build_batches(files, batch_size_bytes)[k][i];
            let at = texts_before(results[k]@, i) as int;
            let id = texts_in_batches(results, k) + at;
            &&& id < x.manifest.total_files_indexed
            &&& results[k]@[i] matches FileResult::Indexed { content_hash, grams } && serves(
                x.files@[s],
                at,
                text_document(rec, content_hash, id),
                grams@,
            )
        }),
        lists_only(x.files@[s], results[k]@, texts_in_batches(results, k)),
        x.manifest.total_files_indexed == texts_in_batches(results, results.len() as int),
{
    let batches = full_build::build_batches(files, batch_size_bytes);
    let n = batches.len();
    walk::law_batches_partition_the_files(
        files,
        if batch_size_bytes == 0 {
            1
        } else {
            batch_size_bytes
        },
    );
    let kk = k as nat;
    assert(batches[k].len() == results[k]@.len());
    lemma_built_total_len(batches, results, n);
    lemma_built_total_len(batches, results, kk);
    let first = texts_in_batches(results, k);
    lemma_built_len(batches[k], results[k]@, batches[k].len(), first);
    lemma_texts_grow(results[k]@, i, results[k]@.len() as int);
    lemma_texts_in_batches_grow(results, k, n as int);
    let s = lemma_segment_of_batch(x.manifest.segments@, x.files@, batches, results, n, k);
    let f = x.files@[s];
    assert(f.image.dict@.len() == f.image.dict.len());
    law_batch_files_are_found(
        batches[k],
        results[k]@,
        first as u32,
        x.manifest.segments@[s],
        f,
    );
    s
}

/// Every segment of a built index is that of a batch with text files, and lists
/// nothing but them.
pub proof fn law_segments_hold_nothing_else(
    files: Seq<RecordView>,
    results: Seq<Vec<FileResult>>,
    batch_size_bytes: u64,
    head: Option<Vec<u8>>,
    created_at: u64,
    x: BuiltIndex,
    s: int,
) -> (k: int)
    requires
        full_build::is_build(
            files,
            results,
            batch_size_bytes,
            head,
            created_at,
            Ok::<BuiltIndex, IndexError>(x),
        ),
        full_build::aligned(full_build::build_batches(files, batch_size_bytes), results),
        0 <= s < x.files@.len(),
    ensures
        0 <= k < results.len(),
        lists_only(x.files@[s], results[k]@, texts_in_batches(results, k)),
        x.manifest.segments@[s].doc_count == texts_before(
            results[k]@,
            results[k]@.len() as int,
        ),
        x.manifest.segments@[s].doc_count > 0,
        x.manifest.segments@[s].base_doc_id == Some(texts_in_batches(results, k) as u32),
{
    let batches = full_build::build_batches(files, batch_size_bytes);
    let n = batches.len();
    let k = lemma_batch_of_segment(x.manifest.segments@, x.files@, batches, results, n, s);
    assert(batches[k].len() == results[k]@.len());
    lemma_built_total_len(batches, results, n);
    lemma_built_total_len(batches, results, k as nat);
    let first = texts_in_batches(results, k);
    lemma_built_len(batches[k], results[k]@, batches[k].len(), first);
    lemma_texts_in_batches_grow(results, k, n as int);
    let f = x.files@[s];
    assert(f.image.dict@.len() == f.image.dict.len());
    law_batch_files_are_found(
        batches[k],
        results[k]@,
        first as u32,
        x.manifest.segments@[s],
        f,
    );
    k
}

/// How many of the first `n` results are of a kind.
pub open spec fn kind_before(
    results: Seq<FileResult>,
    n: int,
    kind: spec_fn(FileResult) -> bool,
) -> nat
    decreases n,
{
    if n <= 0 {
        0
    } else {
        kind_before(results, n - 1, kind) + if kind(results[n - 1]) {
            1nat
        } else {
            0
        }
    }
}

/// How many results of the first `k` batches are of a kind.
pub open spec fn kind_in_batches(
    results: Seq<Vec<FileResult>>,
    k: int,
    kind: spec_fn(FileResult) -> bool,
) -> nat
    decreases k,
{
    if k <= 0 {
        0
    } else {
        kind_in_batches(results, k - 1, kind) + kind_before(
            results[k - 1]@,
            results[k - 1]@.len() as int,
            kind,
        )
    }
}

/// A counter that stops at its largest value.
pub open spec fn stops_at_max(counter: usize, n: nat) -> bool {
    counter == n || (n > usize::MAX && counter == usize::MAX)
}

proof fn lemma_skipped_after(
    start: SkipCounts,
    results: Seq<FileResult>,
    n: nat,
    a: nat,
    b: nat,
    c: nat,
)
    requires
        stops_at_max(start.binary, a),
        stops_at_max(start.unreadable, b),
        stops_at_max(start.oversized_path, c),
    ensures
        ({
            let x = full_build::skipped_after(start, results, n);
            let m = n as int;
            &&& stops_at_max(x.binary, a + kind_before(results, m, |r: FileResult| r is Binary))
            &&& stops_at_max(
                x.unreadable,
                b + kind_before(results, m, |r: FileResult| r is Unreadable),
            )
            &&& stops_at_max(
                x.oversized_path,
                c + kind_before(results, m, |r: FileResult| r is OversizedPath),
            )
        }),
    decreases n,
{
    if n > 0 {
        lemma_skipped_after(start, results, (n - 1) as nat, a, b, c);
    }
}

proof fn lemma_total_skipped(results: Seq<Vec<FileResult>>, k: nat)
    ensures
        ({
            let x = full_build::total_skipped(results, k);
            let m = k as int;
            &&& stops_at_max(x.binary, kind_in_batches(results, m, |r: FileResult| r is Binary))
            &&& stops_at_max(
                x.unreadable,
                kind_in_batches(results, m, |r: FileResult| r is Unreadable),
            )
            &&& stops_at_max(
                x.oversized_path,
                kind_in_batches(results, m, |r: FileResult| r is OversizedPath),
            )
        }),
    decreases k,
{
    if k > 0 {
        let m = k - 1;
        lemma_total_skipped(results, (k - 1) as nat);
        lemma_skipped_after(
            full_build::total_skipped(results, (k - 1) as nat),
            results[k - 1]@,
            results[k - 1]@.len(),
            kind_in_batches(results, m, |r: FileResult| r is Binary),
            kind_in_batches(results, m, |r: FileResult| r is Unreadable),
            kind_in_batches(results, m, |r: FileResult| r is OversizedPath),
        );
    }
}

/// A text file of these batches has this path.
pub open spec fn text_at(
    batches: Seq<Seq<RecordView>>,
    results: Seq<Vec<FileResult>>,
    n: int,
    p: Seq<u8>,
) -> bool {
    exists|k: int, i: int|
        #![trigger results[k]@[i]]
        0 <= k < n && 0 <= i < batches[k].len() && results[k]@[i] is Indexed
            && path_resolve::normal(batches[k][i].rel) == p
}

proof fn lemma_built_paths(
    batches: Seq<Seq<RecordView>>,
    results: Seq<Vec<FileResult>>,
    n: nat,
    p: Seq<u8>,
)
    requires
        n <= batches.len(),
        full_build::aligned(batches, results),
    ensures
        full_build::paths_of(full_build::built_total(batches, results, n)).contains(p) <==> text_at(
            batches,
            results,
            n as int,
            p,
        ),
    decreases n,
{
    let all = full_build::built_total(batches, results, n);
    if n > 0 {
        let m = (n - 1) as nat;
        let rest = full_build::built_total(batches, results, m);
        let b = full_build::batch_built(batches, results, n - 1);
        lemma_built_paths(batches, results, m, p);
        assert(batches[n - 1].len() == results[n - 1]@.len());
        assert(all == rest + b);
        if full_build::paths_of(all).contains(p) {
            let j = choose|j: int|
                0 <= j < all.len() && path_resolve::normal((#[trigger] all[j]).doc.path) == p;
            if j < rest.len() {
                assert(rest[j] == all[j]);
                let (k, i) = choose|k: int, i: int|
                    #![trigger results[k]@[i]]
                    0 <= k < n - 1 && 0 <= i < batches[k].len() && results[k]@[i] is Indexed
                        && path_resolve::normal(batches[k][i].rel) == p;
                assert(results[k]@[i] is Indexed);
            } else {
                let at = j - rest.len();
                assert(all[j] == b[at]);
                let i = lemma_built_from(
                    batches[n - 1],
                    results[n - 1]@,
                    batches[n - 1].len(),
                    rest.len(),
                    at,
                );
                lemma_built_at(
                    batches[n - 1],
                    results[n - 1]@,
                    batches[n - 1].len(),
                    rest.len(),
                    i,
                );
                assert(results[n - 1]@[i] is Indexed);
            }
        }
        if text_at(batches, results, n as int, p) {
            let (k, i) = choose|k: int, i: int|
                #![trigger results[k]@[i]]
                0 <= k < n && 0 <= i < batches[k].len() && results[k]@[i] is Indexed
                    && path_resolve::normal(batches[k][i].rel) == p;
            if k < n - 1 {
                assert(text_at(batches, results, n - 1, p));
                let j = choose|j: int|
                    0 <= j < rest.len() && path_resolve::normal((#[trigger] rest[j]).doc.path) == p;
                assert(all[j] == rest[j]);
            } else {
                lemma_built_at(
                    batches[n - 1],
                    results[n - 1]@,
                    batches[n - 1].len(),
                    rest.len(),
                    i,
                );
                let at = texts_before(results[n - 1]@, i) as int;
                assert(all[rest.len() + at] == b[at]);
            }
        }
    }
}

/// A built index knows the paths of the text files and no others, counts the files it
/// left out by reason, and records the commit that it was built at.
pub proof fn law_build_knows_the_text_files(
    files: Seq<RecordView>,
    results: Seq<Vec<FileResult>>,
    batch_size_bytes: u64,
    head: Option<Vec<u8>>,
    created_at: u64,
    x: BuiltIndex,
    p: Seq<u8>,
)
    requires
        full_build::is_build(
            files,
            results,
            batch_size_bytes,
            head,
            created_at,
            Ok::<BuiltIndex, IndexError>(x),
        ),
        full_build::aligned(full_build::build_batches(files, batch_size_bytes), results),
    ensures
        x.path_index.file_ids().contains_key(p) <==> text_at(
            full_build::build_batches(files, batch_size_bytes),
            results,
            results.len() as int,
            p,
        ),
        stops_at_max(
            x.skipped.binary,
            kind_in_batches(results, results.len() as int, |r: FileResult| r is Binary),
        ),
        stops_at_max(
            x.skipped.unreadable,
            kind_in_batches(results, results.len() as int, |r: FileResult| r is Unreadable),
        ),
        stops_at_max(
            x.skipped.oversized_path,
            kind_in_batches(results, results.len() as int, |r: FileResult| r is OversizedPath),
        ),
        x.manifest.base_commit == head,
        x.manifest.created_at == created_at,
        x.manifest.overlay_deletes_file is None,
{
    let batches = full_build::build_batches(files, batch_size_bytes);
    lemma_built_paths(batches, results, batches.len(), p);
    lemma_total_skipped(results, batches.len());
}

} // verus!
