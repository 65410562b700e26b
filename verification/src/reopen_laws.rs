//! What is written can be opened again.

use crate::bitmap;
use crate::commit;
use crate::commit::ChangedFile;
use crate::compact;
use crate::compact::Placed;
use crate::compact_index;
use crate::compact_index::{NewSegment, WrittenIndex};
use crate::compact_laws;
use crate::compact_plan::CompactionPlan;
use crate::deletes_idx;
use crate::error::IndexError;
use crate::files;
use crate::flush;
use crate::flush::{AnchorView, FlushAnchor, FlushedIndex};
use crate::full_build;
use crate::full_build::{BuiltDoc, FileResult};
use crate::manifest;
use crate::manifest::{Manifest, SegmentRef};
use crate::open;
use crate::open::{Admitted, SegmentBytes};
use crate::overlay;
use crate::overlay::OverlayDocView;
use crate::path_index;
use crate::path_index::PathIndex;
use crate::path_resolve;
use crate::paths;
use crate::paths_idx;
use crate::paths_idx::{PathsIdx, PathsView};
use crate::pending::TakeResult;
use crate::posting;
use crate::posting::PostingList;
use crate::segment::layout;
use crate::segment::layout::{DocView, MAX_SEGMENT_SIZE};
use crate::segment::laws;
use crate::segment::reader;
use crate::segment::reader::{DictVerify, MmapSegment, SegmentLayout};
use crate::segment::writer;
use crate::snapshot::IndexSnapshot;
use crate::walk::RecordView;
use vstd::prelude::*;

verus! {

/// These are the contents of the files of a segment.
pub open spec fn stores(c: SegmentBytes, f: NewSegment) -> bool {
    c.main@ == f.image.dict@ && c.post@ == f.image.post@
}

/// The paths of documents by position.
pub open spec fn path_list(docs: Seq<DocView>) -> Seq<Option<Seq<u8>>> {
    Seq::new(docs.len(), |i: int| Some(docs[i].path))
}

/// The names of a written segment stay inside the index directory.
proof fn lemma_names_inside(
    r: SegmentRef,
    f: NewSegment,
    docs: Seq<DocView>,
    ps: Seq<(u64, u32)>,
    base: u32,
)
    requires
        compact_index::is_written(r@, f, docs, ps, base),
    ensures
        open::is_split(r),
        open::names_inside(r),
{
    let none = Seq::<u8>::empty();
    let id = r.segment_id@;
    assert(none + id + writer::dict_suffix() =~= r.dict_filename@);
    assert(none + id + writer::post_suffix() =~= r.post_filename@);
    assert(files::is_generated(r.dict_filename@, none, writer::dict_suffix()));
    assert(files::is_generated(r.post_filename@, none, writer::post_suffix()));
    files::lemma_generated_is_plain(r.dict_filename@, none, writer::dict_suffix());
    files::lemma_generated_is_plain(r.post_filename@, none, writer::post_suffix());
}

/// Paths put at ids from `base` on, after the known ones.
pub open spec fn extended(
    known: Seq<Option<Seq<u8>>>,
    base: u32,
    list: Seq<Option<Seq<u8>>>,
) -> Seq<Option<Seq<u8>>> {
    if list.len() == 0 {
        known
    } else {
        known + Seq::new((base - known.len()) as nat, |i: int| None::<Seq<u8>>) + list
    }
}

/// Documents whose ids count up from `base`.
proof fn lemma_place_in_order(
    known: Seq<Option<Seq<u8>>>,
    base: u32,
    read: Seq<Option<DocView>>,
    docs: Seq<DocView>,
    n: nat,
)
    requires
        n <= docs.len(),
        read.len() == docs.len(),
        known.len() <= base,
        forall|i: int| 0 <= i < docs.len() ==> #[trigger] read[i] == Some(docs[i]),
    ensures
        open::place_docs(known, read, base, n) == extended(
            known,
            base,
            path_list(docs).take(n as int),
        ),
    decreases n,
{
    let list = path_list(docs);
    if n > 0 {
        lemma_place_in_order(known, base, read, docs, (n - 1) as nat);
        assert(read[n - 1] == Some(docs[n - 1]));
        let before = extended(known, base, list.take(n - 1));
        let gap = Seq::new((base + (n - 1) - before.len()) as nat, |i: int| None::<Seq<u8>>);
        assert(before + gap + seq![Some(docs[n - 1].path)] =~= extended(
            known,
            base,
            list.take(n as int),
        ));
    }
}

/// A written segment whose ids count up from `base` is taken after segments
/// whose ids end before it.
pub proof fn law_written_segment_is_taken(
    r: SegmentRef,
    f: NewSegment,
    docs: Seq<DocView>,
    ps: Seq<(u64, u32)>,
    base: u32,
    segment: usize,
    c: SegmentBytes,
    full: bool,
    known: Admitted,
) -> (l: SegmentLayout)
    requires
        compact_index::is_written(r@, f, docs, ps, base),
        stores(c, f),
        f.image.dict@.len() <= MAX_SEGMENT_SIZE,
        forall|k: int| 0 <= k < docs.len() ==> (#[trigger] docs[k]).doc_id == base + k,
        base + docs.len() <= open::MAX_TOTAL_DOCS,
        known.end <= base,
        known.doc_paths.len() <= base,
    ensures
        open::segment_layout(r, segment, c.main@, c.post@, full) == Ok::<
            SegmentLayout,
            IndexError,
        >(l),
        open::admit_docs(known, r.base_doc_id, open::docs_in(c.main@, l)) matches Ok(next) && {
            &&& next.base_ids == known.base_ids.push(base)
            &&& next.doc_paths == extended(known.doc_paths, base, path_list(docs))
            &&& next.end == base + docs.len()
        },
{
    lemma_names_inside(r, f, docs, ps, base);
    let dict = f.image.dict@;
    let post = f.image.post@;
    let verify = if full {
        DictVerify::Full
    } else {
        DictVerify::Structure
    };
    let versions = seq![layout::FORMAT_VERSION_V3];
    assert(versions[0] == layout::FORMAT_VERSION);
    assert(post.len() == f.image.post.len());
    laws::law_written_segment_is_accepted(dict, post, docs, ps, versions, verify);
    let l = compact_laws::law_new_segments_are_taken(
        dict,
        post,
        docs,
        ps,
        base,
        known.end,
        verify,
    );
    lemma_place_in_order(known.doc_paths, base, open::docs_in(dict, l), docs, docs.len());
    assert(path_list(docs).take(docs.len() as int) =~= path_list(docs));
    l
}

/// What is taken of the first segments depends on their entries and their files
/// alone.
proof fn lemma_load_prefix(
    a: Seq<SegmentRef>,
    b: Seq<SegmentRef>,
    in_a: Seq<SegmentBytes>,
    in_b: Seq<SegmentBytes>,
    full: bool,
    n: nat,
)
    requires
        n <= a.len(),
        n <= b.len(),
        forall|i: int| 0 <= i < n ==> (#[trigger] a[i])@ == (#[trigger] b[i])@,
        forall|i: int| 0 <= i < n ==> #[trigger] in_a[i] == #[trigger] in_b[i],
    ensures
        open::load(a, in_a, full, n) == open::load(b, in_b, full, n),
    decreases n,
{
    if n > 0 {
        lemma_load_prefix(a, b, in_a, in_b, full, (n - 1) as nat);
        let i = n - 1;
        assert(a[i]@ == b[i]@);
        assert(a[i].dict_filename@ == b[i].dict_filename@ && a[i].post_filename@
            == b[i].post_filename@ && a[i].filename@ == b[i].filename@ && a[i].post_len
            == b[i].post_len && a[i].base_doc_id == b[i].base_doc_id);
        assert(in_a[i] == in_b[i]);
    }
}

/// Every segment of a build is within the size that opens.
pub open spec fn sizes_open(files: Seq<NewSegment>) -> bool {
    forall|i: int| 0 <= i < files.len() ==> (#[trigger] files[i]).image.dict@.len() <= MAX_SEGMENT_SIZE
}

/// The contents are those of the files.
pub open spec fn all_stored(contents: Seq<SegmentBytes>, files: Seq<NewSegment>) -> bool {
    contents.len() >= files.len() && forall|i: int|
        0 <= i < files.len() ==> stores(#[trigger] contents[i], files[i])
}

/// An index that was built opens: every segment is taken, and every document is
/// found at its id, with its path. Left out are indexes above the limits that
/// opening sets on documents and segment sizes.
pub proof fn law_built_index_opens(
    refs: Seq<SegmentRef>,
    files: Seq<NewSegment>,
    batches: Seq<Seq<RecordView>>,
    results: Seq<Vec<FileResult>>,
    n: nat,
    contents: Seq<SegmentBytes>,
    full: bool,
) -> (a: Admitted)
    requires
        n <= batches.len(),
        full_build::batches_written(refs, files, batches, results, n),
        all_stored(contents, files),
        sizes_open(files),
        full_build::built_total(batches, results, n).len() <= open::MAX_TOTAL_DOCS,
    ensures
        refs.len() == files.len(),
        refs.len() <= n,
        open::load(refs, contents, full, refs.len()) == Ok::<Admitted, IndexError>(a),
        a.end == full_build::built_total(batches, results, n).len(),
        a.doc_paths == path_list(
            full_build::docs_of(full_build::built_total(batches, results, n)),
        ),
    decreases n,
{
    let all = full_build::docs_of(full_build::built_total(batches, results, n));
    if n == 0 {
        let a = open::nothing_admitted();
        assert(a.doc_paths =~= path_list(all));
        a
    } else {
        let m = (n - 1) as nat;
        let rest = full_build::built_total(batches, results, m);
        let b = full_build::batch_built(batches, results, m as int);
        assert(full_build::built_total(batches, results, n) == rest + b);
        if b.len() == 0 {
            assert(rest + b =~= rest);
            law_built_index_opens(refs, files, batches, results, m, contents, full)
        } else {
            let before = refs.drop_last();
            let known = law_built_index_opens(
                before,
                files.drop_last(),
                batches,
                results,
                m,
                contents,
                full,
            );
            let k = before.len();
            lemma_load_prefix(refs, before, contents, contents, full, k);
            let base = rest.len() as u32;
            let docs = full_build::docs_of(b);
            let r = refs.last();
            let f = files.last();
            let ps = choose|ps: Seq<(u64, u32)>| #[trigger]
                compact_index::is_written(r@, f, docs, ps, base) && full_build::lists_grams(ps, b);
            full_build::lemma_ids_count_up(
                batches[m as int],
                results[m as int]@,
                batches[m as int].len(),
                rest.len(),
            );
            assert forall|i: int| 0 <= i < docs.len() implies (#[trigger] docs[i]).doc_id == base
                + i by {
                assert(docs[i] == b[i].doc);
            }
            assert(stores(contents[k as int], files[k as int]));
            let l = law_written_segment_is_taken(
                r,
                f,
                docs,
                ps,
                base,
                k as usize,
                contents[k as int],
                full,
                known,
            );
            let next = open::admit_docs(
                known,
                r.base_doc_id,
                open::docs_in(contents[k as int].main@, l),
            )->Ok_0;
            assert(refs.len() - 1 == k);
            assert(path_list(all) =~= extended(
                path_list(full_build::docs_of(rest)),
                base,
                path_list(docs),
            ));
            next
        }
    }
}

/// The snapshot has the base that opening these segments gives, and its overlay, if
/// there is one, starts after it.
pub open spec fn rests_on(
    s: IndexSnapshot,
    refs: Seq<SegmentRef>,
    contents: Seq<SegmentBytes>,
    full: bool,
    known: Admitted,
) -> bool {
    &&& s.wf()
    &&& contents.len() == refs.len()
    &&& open::load(refs, contents, full, refs.len()) == Ok::<Admitted, IndexError>(known)
    &&& s.segs().len() == refs.len()
    &&& forall|i: int|
        0 <= i < refs.len() ==> #[trigger] open::opened_at(s.segs(), refs, contents, full, i)
    &&& s.base.base_ids@ == known.base_ids
    &&& s.overlay.documents().len() > 0 ==> s.overlay.base_doc_count == known.end
}

/// The first id above those of opened segments is the end of the last one.
proof fn lemma_limit_is_the_end(
    segs: Seq<MmapSegment>,
    base_ids: Seq<u32>,
    refs: Seq<SegmentRef>,
    contents: Seq<SegmentBytes>,
    full: bool,
    n: nat,
    a: Admitted,
)
    requires
        n <= refs.len(),
        refs.len() == segs.len(),
        open::load(refs, contents, full, n) == Ok::<Admitted, IndexError>(a),
        forall|i: int|
            0 <= i < n ==> #[trigger] open::opened_at(segs, refs, contents, full, i),
        a.base_ids.len() <= base_ids.len(),
        a.base_ids == base_ids.take(a.base_ids.len() as int),
    ensures
        a.base_ids.len() == n,
        commit::id_limit(segs, base_ids, n) == Ok::<u32, IndexError>(a.end),
    decreases n,
{
    if n > 0 {
        let i = n - 1;
        let before = open::load(refs, contents, full, (n - 1) as nat)->Ok_0;
        assert(open::opened_at(segs, refs, contents, full, i));
        assert(a.base_ids.drop_last() =~= before.base_ids);
        assert(before.base_ids =~= base_ids.take(before.base_ids.len() as int));
        lemma_limit_is_the_end(segs, base_ids, refs, contents, full, (n - 1) as nat, before);
        assert(base_ids[i] == a.base_ids[i]);
    }
}

/// A commit leaves the base alone and puts its documents after it.
pub proof fn law_commits_rest_on_the_opened_base(
    snap: IndexSnapshot,
    take: TakeResult,
    outcomes: Seq<ChangedFile>,
    s: IndexSnapshot,
    refs: Seq<SegmentRef>,
    contents: Seq<SegmentBytes>,
    full: bool,
    known: Admitted,
)
    requires
        rests_on(snap, refs, contents, full, known),
        commit::is_commit(snap, take, outcomes, Ok::<IndexSnapshot, IndexError>(s)),
    ensures
        rests_on(s, refs, contents, full, known),
{
    let ids = snap.base.base_ids@;
    assert(ids.take(ids.len() as int) =~= ids);
    lemma_limit_is_the_end(snap.segs(), ids, refs, contents, full, refs.len(), known);
}

/// An index that was flushed opens: its segments are those of before and one of
/// the documents of the overlay, found at their ids, and what was deleted stays
/// deleted. Left out are indexes above the limits that opening sets on documents and
/// file sizes.
pub proof fn law_flushed_index_opens(
    s: IndexSnapshot,
    previous: Manifest,
    anchor: FlushAnchor,
    inputs: AnchorView,
    created_at: u64,
    w: FlushedIndex,
    contents: Seq<SegmentBytes>,
    c: SegmentBytes,
    deletes: Option<Vec<u8>>,
    full: bool,
    known: Admitted,
) -> (a: Admitted)
    requires
        flush::is_flush(Ok::<FlushedIndex, IndexError>(w), s, previous, anchor, inputs, created_at),
        rests_on(s, previous.segments@, contents, full, known),
        s.overlay.documents().len() > 0 ==> {
            let docs = s.overlay.documents();
            &&& docs[0].doc_id + docs.len() <= open::MAX_TOTAL_DOCS
            &&& stores(c, w.files@[0])
            &&& c.main@.len() <= MAX_SEGMENT_SIZE
        },
        w.deletes matches Some(f) ==> (deletes matches Some(b) && b@ == f.bytes@ && b@.len()
            <= deletes_idx::MAX_SIDECAR_SIZE),
    ensures
        ({
            let docs = s.overlay.documents();
            let refs = w.manifest.segments@;
            &&& open::deleted_ids(w.manifest.overlay_deletes_file, deletes) == Some(s.deleted())
            &&& open::load(refs, contents.push(c), full, refs.len()) == Ok::<
                Admitted,
                IndexError,
            >(a)
            &&& if docs.len() == 0 {
                a == known
            } else {
                &&& a.base_ids == known.base_ids.push(docs[0].doc_id)
                &&& a.doc_paths == extended(
                    known.doc_paths,
                    docs[0].doc_id,
                    path_list(flush::entries(flush::closed_up(docs))),
                )
                &&& a.end == docs[0].doc_id + docs.len()
            }
        }),
{
    let docs = s.overlay.documents();
    let refs = w.manifest.segments@;
    let old_refs = previous.segments@;
    let n = old_refs.len();
    let all = contents.push(c);
    assert forall|i: int| 0 <= i < n implies (#[trigger] refs[i])@ == (
    #[trigger] old_refs[i])@ by {
        assert(manifest::ref_views(refs).take(n as int)[i] == manifest::ref_views(old_refs)[i]);
    }
    lemma_load_prefix(refs, old_refs, all, contents, full, n);
    open::law_paths_and_ids_agree(old_refs, contents, full, n, known);
    match w.deletes {
        Some(f) => {
            files::lemma_generated_is_plain(
                f.name@,
                deletes_idx::name_prefix(),
                deletes_idx::name_suffix(),
            );
        },
        None => {},
    }
    if docs.len() == 0 {
        known
    } else {
        let base = docs[0].doc_id;
        let list = flush::entries(flush::closed_up(docs));
        let ps = choose|ps: Seq<(u64, u32)>| #[trigger]
            compact_index::is_written(refs[n as int]@, w.files@[0], list, ps, base)
                && flush::lists_pairs(ps, flush::closed_up(docs));
        let l = law_written_segment_is_taken(
            refs[n as int],
            w.files@[0],
            list,
            ps,
            base,
            n as usize,
            c,
            full,
            known,
        );
        assert(all[n as int] == c);
        open::admit_docs(known, refs[n as int].base_doc_id, open::docs_in(c.main@, l))->Ok_0
    }
}

/// The documents of all groups, one after the other.
pub open spec fn flat(groups: Seq<Seq<DocView>>) -> Seq<DocView>
    decreases groups.len(),
{
    if groups.len() == 0 {
        Seq::empty()
    } else {
        flat(groups.drop_last()) + groups.last()
    }
}

/// The documents of a compaction under their new ids.
pub open spec fn renumbered(docs: Seq<DocView>, start: u32) -> Seq<DocView> {
    Seq::new(docs.len(), |k: int| DocView { doc_id: (start + k) as u32, ..docs[k] })
}

proof fn lemma_flat_is_renumbered(docs: Seq<DocView>, start: u32, batch: u64)
    requires
        start + docs.len() <= u32::MAX,
    ensures
        flat(compact::place_all(docs, start, batch).groups) == renumbered(docs, start),
    decreases docs.len(),
{
    let p = compact::place_all(docs, start, batch);
    if docs.len() > 0 {
        let front = docs.drop_last();
        let before = compact::place_all(front, start, batch);
        lemma_flat_is_renumbered(front, start, batch);
        compact_laws::law_new_ids_have_no_gaps(front, start, batch);
        let d = DocView { doc_id: before.next, ..docs.last() };
        let last = p.groups.len() - 1;
        if compact::starts_segment(before, docs.last().size_bytes, batch) {
            assert(p.groups.drop_last() =~= before.groups);
            assert(p.groups.last() =~= seq![d]);
            assert(flat(before.groups) + seq![d] =~= flat(before.groups).push(d));
        } else {
            assert(p.groups.drop_last() =~= before.groups.drop_last());
            assert(p.groups.last() =~= before.groups.last().push(d));
            assert(flat(before.groups.drop_last()) + before.groups.last().push(d) =~= flat(
                before.groups,
            ).push(d));
        }
        assert(renumbered(docs, start) =~= renumbered(front, start).push(d));
    } else {
        assert(renumbered(docs, start) =~= flat(p.groups));
    }
}

proof fn lemma_flat_len(groups: Seq<Seq<DocView>>)
    ensures
        flat(groups).len() == compact_index::group_total(groups),
    decreases groups.len(),
{
    if groups.len() > 0 {
        lemma_flat_len(groups.drop_last());
    }
}

/// The first `j` new segments of a compaction are taken.
proof fn lemma_groups_are_taken(
    refs: Seq<SegmentRef>,
    at: int,
    files: Seq<NewSegment>,
    docs: Seq<DocView>,
    start: u32,
    batch: u64,
    src: Set<(u64, u32)>,
    contents: Seq<SegmentBytes>,
    full: bool,
    known: Admitted,
    j: nat,
) -> (a: Admitted)
    requires
        0 <= at,
        at + files.len() <= usize::MAX,
        refs.len() == at + files.len(),
        j <= files.len(),
        files.len() == compact::place_all(docs, start, batch).groups.len(),
        forall|k: int|
            0 <= k < files.len() ==> #[trigger] compact_index::group_written(
                refs,
                at,
                files,
                compact::place_all(docs, start, batch),
                src,
                k,
            ),
        forall|k: int| 0 <= k < files.len() ==> stores(contents[at + k], #[trigger] files[k]),
        sizes_open(files),
        start + docs.len() <= open::MAX_TOTAL_DOCS,
        open::load(refs, contents, full, at as nat) == Ok::<Admitted, IndexError>(known),
        known.end <= start,
        known.doc_paths.len() <= start,
    ensures
        ({
            let taken = flat(compact::place_all(docs, start, batch).groups.take(j as int));
            &&& open::load(refs, contents, full, (at + j) as nat) == Ok::<Admitted, IndexError>(a)
            &&& a.doc_paths == extended(known.doc_paths, start, path_list(taken))
            &&& a.end <= start + taken.len()
            &&& j > 0 ==> a.end == start + taken.len()
        }),
    decreases j,
{
    let p = compact::place_all(docs, start, batch);
    let groups = p.groups;
    if j == 0 {
        assert(groups.take(0).len() == 0);
        known
    } else {
        let i = j - 1;
        let before = lemma_groups_are_taken(
            refs,
            at,
            files,
            docs,
            start,
            batch,
            src,
            contents,
            full,
            known,
            i as nat,
        );
        let taken = flat(groups.take(i));
        let g = groups[i];
        assert(groups.take(j as int).drop_last() =~= groups.take(i));
        assert(flat(groups.take(j as int)) == taken + g);
        lemma_flat_len(groups.take(i));
        lemma_flat_len(groups.take(j as int));
        lemma_flat_len_at_most(groups, j as int);
        compact_index::lemma_placed_shape(docs, start, batch);
        compact_laws::law_new_ids_have_no_gaps(docs, start, batch);
        let base = p.bases[i];
        assert(base == start + taken.len());
        assert(compact_index::group_written(refs, at, files, p, src, i));
        let ps = choose|ps: Seq<(u64, u32)>| #[trigger]
            compact_index::is_written(refs[at + i]@, files[i], g, ps, base)
                && compact_index::lists_exactly(ps, p.targets, src, i);
        assert forall|k: int| 0 <= k < g.len() implies (#[trigger] g[k]).doc_id == base + k by {
            assert(p.groups[i][k].doc_id == p.bases[i] + k);
        }
        let c = contents[at + i];
        assert(stores(c, files[i]));
        let l = law_written_segment_is_taken(
            refs[at + i],
            files[i],
            g,
            ps,
            base,
            (at + i) as usize,
            c,
            full,
            before,
        );
        assert(extended(before.doc_paths, base, path_list(g)) =~= extended(
            known.doc_paths,
            start,
            path_list(taken + g),
        ));
        open::admit_docs(before, refs[at + i].base_doc_id, open::docs_in(c.main@, l))->Ok_0
    }
}

proof fn lemma_flat_len_at_most(groups: Seq<Seq<DocView>>, j: int)
    requires
        0 <= j <= groups.len(),
    ensures
        compact_index::group_total(groups.take(j)) <= compact_index::group_total(groups),
    decreases groups.len() - j,
{
    if j < groups.len() {
        lemma_flat_len_at_most(groups, j + 1);
        assert(groups.take(j + 1).drop_last() =~= groups.take(j));
    } else {
        assert(groups.take(j) =~= groups);
    }
}

proof fn lemma_loaded_prefix(
    refs: Seq<SegmentRef>,
    contents: Seq<SegmentBytes>,
    full: bool,
    n: nat,
    k: nat,
)
    requires
        k <= n,
        open::load(refs, contents, full, n) is Ok,
    ensures
        open::load(refs, contents, full, k) is Ok,
    decreases n,
{
    if k < n {
        lemma_loaded_prefix(refs, contents, full, (n - 1) as nat, k);
    }
}

/// The manifest counts the documents that the segments hold.
pub open spec fn counts_agree(refs: Seq<SegmentRef>, segs: Seq<MmapSegment>) -> bool {
    forall|i: int|
        0 <= i < refs.len() ==> (#[trigger] refs[i]).doc_count == segs[i].doc_count
}

/// The segments that a compaction keeps are taken as before, and end where its new
/// segments start.
proof fn lemma_kept_are_taken(
    segs: Seq<MmapSegment>,
    refs: Seq<SegmentRef>,
    old_contents: Seq<SegmentBytes>,
    kept: Seq<SegmentRef>,
    contents: Seq<SegmentBytes>,
    full: bool,
    k: nat,
) -> (a: Admitted)
    requires
        k <= refs.len(),
        k <= kept.len(),
        segs.len() == refs.len(),
        counts_agree(refs, segs),
        open::load(refs, old_contents, full, k) is Ok,
        forall|i: int|
            0 <= i < k ==> #[trigger] open::opened_at(segs, refs, old_contents, full, i),
        forall|i: int|
            0 <= i < k ==> #[trigger] compact_index::kept_ref(
                kept,
                refs,
                compact_index::bases(refs).0,
                i,
            ),
        forall|i: int| 0 <= i < k ==> #[trigger] contents[i] == #[trigger] old_contents[i],
    ensures
        open::load(refs, old_contents, full, k) == Ok::<Admitted, IndexError>(a),
        open::load(kept, contents, full, k) == Ok::<Admitted, IndexError>(a),
        a.end == compact_index::bases(refs.take(k as int)).1,
    decreases k,
{
    if k == 0 {
        assert(refs.take(0).len() == 0);
        open::nothing_admitted()
    } else {
        let i = k - 1;
        let before = lemma_kept_are_taken(
            segs,
            refs,
            old_contents,
            kept,
            contents,
            full,
            (k - 1) as nat,
        );
        let a = open::load(refs, old_contents, full, k)->Ok_0;
        assert(open::opened_at(segs, refs, old_contents, full, i));
        assert(compact_index::kept_ref(kept, refs, compact_index::bases(refs).0, i));
        assert(contents[i] == old_contents[i]);
        compact_index::lemma_bases_prefix(refs, k as int);
        assert(refs.take(k as int).drop_last() =~= refs.take(i));
        assert(refs.take(k as int).last() == refs[i]);
        assert(compact_index::bases(refs).0[i] == compact_index::bases(refs.take(k as int)).0[i]);
        compact_index::lemma_bases_prefix(refs.take(k as int), i);
        assert(kept[i].dict_filename@ == refs[i].dict_filename@ && kept[i].post_filename@
            == refs[i].post_filename@ && kept[i].filename@ == refs[i].filename@
            && kept[i].post_len == refs[i].post_len);
        a
    }
}

/// An index that was compacted opens: the kept segments are followed by the
/// documents that moved, in their order, under ids without gaps, and nothing is
/// deleted. Left out are indexes above the limits that opening sets on documents and
/// file sizes, and manifests that miscount the documents of a segment.
pub proof fn law_compacted_index_opens(
    s: IndexSnapshot,
    previous: Manifest,
    plan: CompactionPlan,
    head: Option<Vec<u8>>,
    created_at: u64,
    w: WrittenIndex,
    old_contents: Seq<SegmentBytes>,
    contents: Seq<SegmentBytes>,
    deletes: Option<Vec<u8>>,
    full: bool,
    known: Admitted,
) -> (a: Admitted)
    requires
        compact_index::is_compaction(
            Ok::<WrittenIndex, IndexError>(w),
            s,
            previous,
            plan,
            head,
            created_at,
        ),
        rests_on(s, previous.segments@, old_contents, full, known),
        counts_agree(previous.segments@, s.segs()),
        contents.len() == w.manifest.segments@.len(),
        forall|i: int|
            0 <= i < plan.suffix_start ==> #[trigger] contents[i] == #[trigger] old_contents[i],
        forall|k: int|
            0 <= k < w.files@.len() ==> stores(
                contents[plan.suffix_start + k],
                #[trigger] w.files@[k],
            ),
        sizes_open(w.files@),
        ({
            let start = compact_index::bases(previous.segments@.take(plan.suffix_start as int)).1;
            let room = compact::room_from(start);
            let docs = compact::moved(s, plan.suffix_start as int, room)->Ok_0;
            start + docs.len() <= open::MAX_TOTAL_DOCS
        }),
    ensures
        ({
            let refs = w.manifest.segments@;
            let start = compact_index::bases(previous.segments@.take(plan.suffix_start as int)).1;
            let room = compact::room_from(start);
            let docs = compact::moved(s, plan.suffix_start as int, room)->Ok_0;
            &&& open::deleted_ids(w.manifest.overlay_deletes_file, deletes) == Some(
                Set::<u32>::empty(),
            )
            &&& open::load(refs, contents, full, refs.len()) == Ok::<Admitted, IndexError>(a)
            &&& open::load(
                previous.segments@,
                old_contents,
                full,
                plan.suffix_start as nat,
            ) matches Ok(kept) && a.doc_paths == extended(kept.doc_paths, start, path_list(docs))
        }),
{
    let refs = w.manifest.segments@;
    let n = plan.suffix_start as int;
    let start = compact_index::bases(previous.segments@.take(n)).1;
    let docs = compact::moved(s, n, compact::room_from(start))->Ok_0;
    let batch = compact::cost(plan.batch_size_bytes);
    let p = compact::place_all(docs, start, batch);
    assert(refs.len() == w.manifest.segments.len());
    lemma_loaded_prefix(previous.segments@, old_contents, full, previous.segments@.len(), n as nat);
    let kept = lemma_kept_are_taken(
        s.segs(),
        previous.segments@,
        old_contents,
        refs,
        contents,
        full,
        n as nat,
    );
    open::law_paths_and_ids_agree(refs, contents, full, n as nat, kept);
    let a = lemma_groups_are_taken(
        refs,
        n,
        w.files@,
        docs,
        start,
        batch,
        compact::moved_pairs(s, n),
        contents,
        full,
        kept,
        w.files@.len(),
    );
    assert(p.groups.take(p.groups.len() as int) =~= p.groups);
    lemma_flat_is_renumbered(docs, start, batch);
    assert(path_list(renumbered(docs, start)) =~= path_list(docs));
    a
}

/// The segment was opened over the files that were written, and its postings for
/// a gram are within the size that is read.
pub open spec fn reads(
    seg: MmapSegment,
    f: NewSegment,
    versions: Seq<u32>,
    verify: DictVerify,
    l: SegmentLayout,
    gram: u64,
) -> bool {
    laws::opened_over(seg, f.image.dict@, f.image.post@, versions, verify, l)
        && laws::payload_readable(seg, gram)
}

/// `found` is what a lookup returns for the documents `ids`: nothing for none,
/// else their list, ascending.
pub open spec fn finds(found: Option<PostingList>, ids: Set<u32>) -> bool {
    exists|list: Seq<u32>| #[trigger]
        bitmap::strictly_ascending(list) && list.to_set() == ids && (if list.len() == 0 {
            found is None
        } else {
            found matches Some(p) && posting::posting_ids(p, list)
        })
}

proof fn lemma_finds(
    r: SegmentRef,
    f: NewSegment,
    docs: Seq<DocView>,
    ps: Seq<(u64, u32)>,
    base: u32,
    seg: MmapSegment,
    versions: Seq<u32>,
    verify: DictVerify,
    l: SegmentLayout,
    gram: u64,
    found: Option<PostingList>,
)
    requires
        compact_index::is_written(r@, f, docs, ps, base),
        f.image.dict@.len() <= usize::MAX,
        reads(seg, f, versions, verify, l, gram),
        reader::list_of(found, seg.record_of(gram)),
    ensures
        finds(found, writer::docs_with(ps, gram)),
{
    let ids = laws::law_postings_read_back(
        seg,
        f.image.dict@,
        f.image.post@,
        docs,
        ps,
        versions,
        verify,
        l,
        gram,
        found,
    );
    assert(ids.to_set() =~= writer::docs_with(ps, gram));
    assert(bitmap::strictly_ascending(ids));
}

/// The documents of a batch that hold a gram.
pub open spec fn holders(b: Seq<BuiltDoc>, gram: u64) -> Set<u32> {
    Set::new(
        |d: u32|
            exists|i: int|
                0 <= i < b.len() && (#[trigger] b[i]).doc.doc_id == d && b[i].grams.contains(gram),
    )
}

/// A lookup in a segment of a build finds exactly the documents of its batch that
/// hold the gram.
pub proof fn law_built_grams_are_found(
    r: SegmentRef,
    f: NewSegment,
    b: Seq<BuiltDoc>,
    first: u32,
    seg: MmapSegment,
    versions: Seq<u32>,
    verify: DictVerify,
    l: SegmentLayout,
    gram: u64,
    found: Option<PostingList>,
)
    requires
        full_build::segment_written(r, f, b, first),
        f.image.dict@.len() <= usize::MAX,
        reads(seg, f, versions, verify, l, gram),
        reader::list_of(found, seg.record_of(gram)),
    ensures
        finds(found, holders(b, gram)),
{
    let docs = full_build::docs_of(b);
    let ps = choose|ps: Seq<(u64, u32)>| #[trigger]
        compact_index::is_written(r@, f, docs, ps, first) && full_build::lists_grams(ps, b);
    lemma_finds(r, f, docs, ps, first, seg, versions, verify, l, gram, found);
    assert forall|d: u32| writer::docs_with(ps, gram).contains(d) <==> holders(b, gram).contains(
        d,
    ) by {
        assert(ps.contains((gram, d)) <==> exists|i: int|
            0 <= i < b.len() && overlay::doc_pairs((#[trigger] b[i]).doc.doc_id, b[i].grams).contains(
                (gram, d),
            ));
    }
    assert(writer::docs_with(ps, gram) =~= holders(b, gram));
}

/// The overlay documents that hold a gram.
pub open spec fn overlay_holders(docs: Seq<OverlayDocView>, gram: u64) -> Set<u32> {
    Set::new(|d: u32| overlay::pairs_of(docs).contains((gram, d)))
}

/// A lookup in the segment that a flush wrote finds exactly the overlay documents
/// that hold the gram, under the ids that the flush gave them.
pub proof fn law_flushed_grams_are_found(
    s: IndexSnapshot,
    previous: Manifest,
    anchor: FlushAnchor,
    inputs: AnchorView,
    created_at: u64,
    w: FlushedIndex,
    seg: MmapSegment,
    versions: Seq<u32>,
    verify: DictVerify,
    l: SegmentLayout,
    gram: u64,
    found: Option<PostingList>,
)
    requires
        flush::is_flush(Ok::<FlushedIndex, IndexError>(w), s, previous, anchor, inputs, created_at),
        s.overlay.documents().len() > 0,
        w.files@[0].image.dict@.len() <= usize::MAX,
        reads(seg, w.files@[0], versions, verify, l, gram),
        reader::list_of(found, seg.record_of(gram)),
    ensures
        finds(found, overlay_holders(flush::closed_up(s.overlay.documents()), gram)),
{
    let docs = flush::closed_up(s.overlay.documents());
    let n = previous.segments@.len() as int;
    let r = w.manifest.segments@[n];
    let f = w.files@[0];
    let list = flush::entries(docs);
    let ps = choose|ps: Seq<(u64, u32)>| #[trigger]
        compact_index::is_written(r@, f, list, ps, docs[0].doc_id) && flush::lists_pairs(ps, docs);
    lemma_finds(r, f, list, ps, docs[0].doc_id, seg, versions, verify, l, gram, found);
    assert forall|d: u32|
        writer::docs_with(ps, gram).contains(d) <==> overlay_holders(docs, gram).contains(d) by {
        assert(ps.contains((gram, d)) <==> overlay::pairs_of(docs).contains((gram, d)));
    }
    assert(writer::docs_with(ps, gram) =~= overlay_holders(docs, gram));
}

/// The new ids, in segment `j`, of the documents that held a gram before.
pub open spec fn moved_holders(p: Placed, src: Set<(u64, u32)>, j: int, gram: u64) -> Set<u32> {
    Set::new(|n: u32| compact::lists(p.targets, src, j, gram, n))
}

/// A lookup in a segment that a compaction wrote finds exactly the documents that
/// went to it and held the gram before.
pub proof fn law_compacted_grams_are_found(
    refs: Seq<SegmentRef>,
    at: int,
    files: Seq<NewSegment>,
    p: Placed,
    src: Set<(u64, u32)>,
    j: int,
    seg: MmapSegment,
    versions: Seq<u32>,
    verify: DictVerify,
    l: SegmentLayout,
    gram: u64,
    found: Option<PostingList>,
)
    requires
        compact_index::group_written(refs, at, files, p, src, j),
        files[j].image.dict@.len() <= usize::MAX,
        reads(seg, files[j], versions, verify, l, gram),
        reader::list_of(found, seg.record_of(gram)),
    ensures
        finds(found, moved_holders(p, src, j, gram)),
{
    let ps = choose|ps: Seq<(u64, u32)>| #[trigger]
        compact_index::is_written(refs[at + j]@, files[j], p.groups[j], ps, p.bases[j])
            && compact_index::lists_exactly(ps, p.targets, src, j);
    lemma_finds(
        refs[at + j],
        files[j],
        p.groups[j],
        ps,
        p.bases[j],
        seg,
        versions,
        verify,
        l,
        gram,
        found,
    );
    assert forall|n: u32|
        writer::docs_with(ps, gram).contains(n) <==> moved_holders(p, src, j, gram).contains(n) by {
        assert(ps.contains((gram, n)) <==> compact::lists(p.targets, src, j, gram, n));
    }
    assert(writer::docs_with(ps, gram) =~= moved_holders(p, src, j, gram));
}

pub(crate) proof fn lemma_positions(list: Seq<Seq<u8>>, i: int)
    requires
        paths::ascending(list),
        paths::all_normal(list),
        list.len() <= u32::MAX,
    ensures
        path_index::positional(list).dom() == list.to_set(),
        0 <= i < list.len() ==> path_index::positional(list)[list[i]] == i,
    decreases list.len(),
{
    if list.len() > 0 {
        let front = list.drop_last();
        assert forall|a: int, b: int| 0 <= a < b < front.len() implies paths::path_lt(
            #[trigger] front[a],
            #[trigger] front[b],
        ) by {
            assert(front[a] == list[a] && front[b] == list[b]);
        }
        assert forall|k: int| 0 <= k < front.len() implies path_resolve::normal(
            #[trigger] front[k],
        ) == front[k] by {
            assert(front[k] == list[k]);
        }
        lemma_positions(front, i);
        paths::lemma_take_to_set(list, list.len() - 1);
        assert(list.take(list.len() as int) =~= list);
        assert(list.take(list.len() - 1) =~= front);
        assert(path_resolve::normal(list[list.len() - 1]) == list[list.len() - 1]);
        assert(path_index::positional(list).dom() =~= list.to_set());
        if 0 <= i < list.len() - 1 {
            assert(front[i] == list[i]);
            if list[i] == list.last() {
                paths::lemma_ascending_unique(list, i, list.len() - 1);
            }
        }
    } else {
        assert(path_index::positional(list).dom() =~= list.to_set());
    }
}

/// A path index sidecar that is written with the live paths gives them back to the
/// next open: the same paths, each with its position in the order as its id.
pub proof fn law_listed_paths_are_opened(p: PathIndex, x: PathsIdx, bytes: Option<Vec<u8>>, i: int)
    requires
        p.wf(),
        paths::path_views(x.paths@) == path_index::live_list(p),
        p.file_ids().len() <= u32::MAX,
        bytes matches Some(b) && b@.len() <= paths_idx::MAX_SIDECAR_SIZE && paths_idx::decoded(b@)
            == Ok::<PathsView, paths_idx::SidecarError>(x@),
    ensures
        ({
            let list = path_index::live_list(p);
            &&& open::cached_paths(Some(paths_idx::FORMAT_VERSION), bytes) == Some(list)
            &&& path_index::positional(list).dom() == p.file_ids().dom()
            &&& 0 <= i < list.len() ==> path_index::positional(list)[list[i]] == i
        }),
{
    let list = path_index::live_list(p);
    assert(p.file_ids().dom() =~= p.ids.keys@);
    commit::lemma_sorted_paths(p.ids.keys);
    p.ids.keys.lemma_len();
    lemma_positions(list, i);
}

} // verus!
