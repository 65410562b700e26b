//! What an opened index shows, in terms of the files it was opened from.

use crate::config::Config;
use crate::deletes_idx;
use crate::error::{Corruption, IndexError};
use crate::files;
use crate::manifest::{Manifest, SegmentRef};
use crate::open;
use crate::open::{Admitted, SegmentBytes, Sidecars};
use crate::path_resolve;
use crate::paths;
use crate::paths_idx;
use crate::reopen_laws;
use crate::segment::layout::DocView;
use crate::segment::reader;
use crate::segment::reader::{
    DictVerify, MmapSegment, PostVerify, PostingsBacking, SegmentLayout,
};
use crate::snapshot;
use crate::snapshot::IndexSnapshot;
use vstd::prelude::*;

verus! {

proof fn lemma_placed(
    p: Seq<Option<Seq<u8>>>,
    docs: Seq<Option<DocView>>,
    base: u32,
    n: nat,
)
    requires
        p.len() <= base,
        n <= docs.len(),
    ensures
        ({
            let q = open::place_docs(p, docs, base, n);
            &&& p.len() <= q.len() <= base + n
            &&& forall|j: int| 0 <= j < p.len() ==> #[trigger] q[j] == p[j]
            &&& forall|l: int|
                0 <= l < n ==> (#[trigger] docs[l] matches Some(d) ==> base + l < q.len() && q[base
                    + l] == Some(d.path))
            &&& forall|j: int|
                p.len() <= j < q.len() && #[trigger] q[j] is Some ==> base <= j < base + n && docs[j
                    - base] is Some
        }),
    decreases n,
{
    if n > 0 {
        lemma_placed(p, docs, base, (n - 1) as nat);
        let before = open::place_docs(p, docs, base, (n - 1) as nat);
        let q = open::place_docs(p, docs, base, n);
        if let Some(d) = docs[n - 1] {
            let at = base + (n - 1);
            assert(before.len() <= at);
            assert forall|j: int| 0 <= j < before.len() implies q[j] == before[j] by {}
            assert(q[at] == Some(d.path));
            assert forall|j: int| 0 <= j < p.len() implies #[trigger] q[j] == p[j] by {
                assert(before[j] == p[j]);
            }
            assert forall|l: int| 0 <= l < n implies (#[trigger] docs[l] matches Some(d2) ==> base
                + l < q.len() && q[base + l] == Some(d2.path)) by {
                if l < n - 1 && docs[l] is Some {
                    assert(before[base + l] == q[base + l]);
                }
            }
            assert forall|j: int| p.len() <= j < q.len() && #[trigger] q[j] is Some implies base
                <= j < base + n && docs[j - base] is Some by {
                if j < before.len() {
                    assert(before[j] == q[j]);
                } else if j < at {
                    assert(q[j] is None);
                }
            }
        }
    }
}

proof fn lemma_in_place(docs: Seq<Option<DocView>>, base: u32, n: nat, l: int)
    requires
        0 <= l < n <= docs.len(),
        open::misplaced(docs, base, n) is None,
    ensures
        docs[l] matches Some(d) ==> d.doc_id == base + l,
    decreases n,
{
    if l < n - 1 {
        lemma_in_place(docs, base, (n - 1) as nat, l);
    }
}

/// The documents of segment `i`.
pub open spec fn docs_at(
    refs: Seq<SegmentRef>,
    contents: Seq<SegmentBytes>,
    full: bool,
    i: int,
) -> Seq<Option<DocView>> {
    match open::segment_layout(refs[i], i as usize, contents[i].main@, contents[i].post@, full) {
        Ok(l) => open::docs_in(contents[i].main@, l),
        Err(_) => Seq::empty(),
    }
}

proof fn lemma_loaded(
    refs: Seq<SegmentRef>,
    contents: Seq<SegmentBytes>,
    full: bool,
    n: nat,
    a: Admitted,
)
    requires
        open::load(refs, contents, full, n) == Ok::<Admitted, IndexError>(a),
    ensures
        a.base_ids.len() == n,
        a.doc_paths.len() <= a.end,
        forall|i: int, l: int|
            #![trigger docs_at(refs, contents, full, i)[l]]
            0 <= i < n && 0 <= l < docs_at(refs, contents, full, i).len() ==> (docs_at(
                refs,
                contents,
                full,
                i,
            )[l] matches Some(d) ==> d.doc_id == a.base_ids[i] + l && a.base_ids[i] + l
                < a.doc_paths.len() && a.doc_paths[a.base_ids[i] + l] == Some(d.path)),
        forall|j: int|
            0 <= j < a.doc_paths.len() && #[trigger] a.doc_paths[j] is Some ==> exists|
                i: int,
                l: int,
            |
                0 <= i < n && 0 <= l < docs_at(refs, contents, full, i).len() && j == a.base_ids[i]
                    + l && #[trigger] docs_at(refs, contents, full, i)[l] is Some,
        forall|i: int|
            0 <= i < n ==> (#[trigger] refs[i].base_doc_id matches Some(b) ==> a.base_ids[i] == b),
    decreases n,
{
    if n > 0 {
        let m = (n - 1) as nat;
        let before = open::load(refs, contents, full, m)->Ok_0;
        lemma_loaded(refs, contents, full, m, before);
        let docs = docs_at(refs, contents, full, n - 1);
        let base = open::next_base(refs[n - 1].base_doc_id, before.end);
        assert(a.base_ids == before.base_ids.push(base));
        lemma_placed(before.doc_paths, docs, base, docs.len());
        assert(a.doc_paths == open::place_docs(before.doc_paths, docs, base, docs.len()));
        assert forall|i: int, l: int|
            #![trigger docs_at(refs, contents, full, i)[l]]
            0 <= i < n && 0 <= l < docs_at(refs, contents, full, i).len() implies (docs_at(
            refs,
            contents,
            full,
            i,
        )[l] matches Some(d) ==> d.doc_id == a.base_ids[i] + l && a.base_ids[i] + l
            < a.doc_paths.len() && a.doc_paths[a.base_ids[i] + l] == Some(d.path)) by {
            if i < n - 1 {
                assert(a.base_ids[i] == before.base_ids[i]);
                if docs_at(refs, contents, full, i)[l] is Some {
                    assert(a.doc_paths[a.base_ids[i] + l] == before.doc_paths[before.base_ids[i]
                        + l]);
                }
            } else {
                lemma_in_place(docs, base, docs.len(), l);
                assert(docs[l] == docs_at(refs, contents, full, i)[l]);
            }
        }
        assert forall|j: int| 0 <= j < a.doc_paths.len() && #[trigger] a.doc_paths[j] is Some implies exists|
            i: int,
            l: int,
        |
            0 <= i < n && 0 <= l < docs_at(refs, contents, full, i).len() && j == a.base_ids[i] + l
                && #[trigger] docs_at(refs, contents, full, i)[l] is Some by {
            if j < before.doc_paths.len() {
                assert(before.doc_paths[j] is Some);
                let (i, l) = choose|i: int, l: int|
                    0 <= i < n - 1 && 0 <= l < docs_at(refs, contents, full, i).len() && j
                        == before.base_ids[i] + l && #[trigger] docs_at(
                        refs,
                        contents,
                        full,
                        i,
                    )[l] is Some;
                assert(a.base_ids[i] == before.base_ids[i]);
                assert(docs_at(refs, contents, full, i)[l] is Some);
            } else {
                let l = j - base;
                assert(docs_at(refs, contents, full, n - 1)[l] is Some);
            }
        }
        assert forall|i: int| 0 <= i < n implies (#[trigger] refs[i].base_doc_id matches Some(b)
            ==> a.base_ids[i] == b) by {
            if i < n - 1 {
                assert(a.base_ids[i] == before.base_ids[i]);
            }
        }
    }
}

/// An opened index shows every document of its segments: document `l` of segment `i`,
/// where it can be read, is at the id that is `l` above the first id of the segment, has
/// its own path there, and is listed with that path. No other id has a path. The first id
/// is the recorded one.
pub proof fn law_opened_documents_are_shown(
    config: Config,
    manifest: Manifest,
    contents: Seq<SegmentBytes>,
    sidecars: Sidecars,
    s: IndexSnapshot,
    i: int,
    l: int,
    d: DocView,
)
    requires
        open::is_opening(
            config,
            manifest,
            contents,
            sidecars,
            Ok::<IndexSnapshot, IndexError>(s),
        ),
        0 <= i < manifest.segments@.len(),
        0 <= l < docs_at(manifest.segments@, contents, config.verify_on_open, i).len(),
        docs_at(manifest.segments@, contents, config.verify_on_open, i)[l] == Some(d),
    ensures
        ({
            let id = s.base.base_ids@[i] + l;
            &&& d.doc_id == id
            &&& id < s.base.base_doc_paths@.len()
            &&& s.base.base_doc_paths@[id] matches Some(p) && p@ == d.path
            &&& s.base.path_doc_ids@.contains_key(path_resolve::normal(d.path))
            &&& s.base.path_doc_ids@[path_resolve::normal(d.path)]@.contains(d.doc_id)
            &&& manifest.segments@[i].base_doc_id matches Some(b) ==> s.base.base_ids@[i] == b
        }),
{
    let refs = manifest.segments@;
    let full = config.verify_on_open;
    let a = open::load(refs, contents, full, refs.len())->Ok_0;
    lemma_loaded(refs, contents, full, refs.len(), a);
    open::law_paths_and_ids_agree(refs, contents, full, refs.len(), a);
    assert(docs_at(refs, contents, full, i)[l] == Some(d));
    let id = s.base.base_ids@[i] + l;
    let views = open::optional_views(s.base.base_doc_paths@);
    assert(views[id] == Some(d.path));
    let p = path_resolve::normal(d.path);
    assert(open::placed(a.doc_paths, p, d.doc_id));
    assert(open::listed(a.path_ids, p, d.doc_id));
    assert(paths::list_views(s.base.path_doc_ids@)[p].contains(d.doc_id));
    assert(refs[i].base_doc_id == refs[i].base_doc_id);
}

/// An id with a path in an opened index is that of a document of a segment; an id listed
/// with a path has that path.
pub proof fn law_opened_index_shows_nothing_else(
    config: Config,
    manifest: Manifest,
    contents: Seq<SegmentBytes>,
    sidecars: Sidecars,
    s: IndexSnapshot,
    id: u32,
    p: Seq<u8>,
)
    requires
        open::is_opening(
            config,
            manifest,
            contents,
            sidecars,
            Ok::<IndexSnapshot, IndexError>(s),
        ),
    ensures
        id < s.base.base_doc_paths@.len() && s.base.base_doc_paths@[id as int] is Some ==> exists|
            i: int,
            l: int,
        |
            0 <= i < manifest.segments@.len() && 0 <= l < docs_at(
                manifest.segments@,
                contents,
                config.verify_on_open,
                i,
            ).len() && id == s.base.base_ids@[i] + l && #[trigger] docs_at(
                manifest.segments@,
                contents,
                config.verify_on_open,
                i,
            )[l] is Some,
        s.base.path_doc_ids@.contains_key(p) && s.base.path_doc_ids@[p]@.contains(id) ==> id
            < s.base.base_doc_paths@.len() && (s.base.base_doc_paths@[id as int] matches Some(q)
            && path_resolve::normal(q@) == p),
        s.overlay.docs@.len() == 0,
        manifest.overlay_deletes_file is None ==> !s.deleted().contains(id),
        manifest.overlay_deletes_file matches Some(name) ==> files::plain(name@) && (
        sidecars.deletes matches Some(b) && deletes_idx::decoded(b@) == Ok::<
            Set<u32>,
            deletes_idx::SidecarError,
        >(s.deleted())),
{
    let refs = manifest.segments@;
    let full = config.verify_on_open;
    let a = open::load(refs, contents, full, refs.len())->Ok_0;
    lemma_loaded(refs, contents, full, refs.len(), a);
    open::law_paths_and_ids_agree(refs, contents, full, refs.len(), a);
    let views = open::optional_views(s.base.base_doc_paths@);
    assert(views.len() == s.base.base_doc_paths@.len());
    if id < views.len() && s.base.base_doc_paths@[id as int] is Some {
        assert(views[id as int] is Some);
        assert(a.doc_paths[id as int] is Some);
    }
    if s.base.path_doc_ids@.contains_key(p) && s.base.path_doc_ids@[p]@.contains(id) {
        assert(paths::list_views(s.base.path_doc_ids@)[p].contains(id));
        assert(open::listed(a.path_ids, p, id));
        assert(open::placed(a.doc_paths, p, id));
        assert(views[id as int] == a.doc_paths[id as int]);
    }
    assert(s.overlay.documents().len() == s.overlay.docs@.len());
}

/// A search goes through the documents that are live: those of the base segments that are
/// not deleted, and those of the overlay.
pub proof fn law_live_documents(s: IndexSnapshot, d: u32)
    requires
        s.base.base_ids@.len() == s.segs().len(),
    ensures
        s.live_ids().contains(d) <==> {
            ||| !s.deleted().contains(d) && exists|i: int|
                0 <= i < s.segs().len() && s.base.base_ids@[i] <= d < s.base.base_ids@[i] + (
                #[trigger] s.segs()[i]).doc_count
            ||| exists|k: int|
                0 <= k < s.overlay.docs@.len() && (#[trigger] s.overlay.docs@[k]).doc_id == d
        },
{
    let ids = s.base.base_ids@;
    let n = s.segs().len() as int;
    if snapshot::in_base(s.segs(), ids, n, d) {
        let i = choose|i: int| i < n && #[trigger] snapshot::in_segment(s.segs(), ids, i, d);
        assert(ids[i] <= d < ids[i] + s.segs()[i].doc_count);
    }
    if exists|i: int|
        0 <= i < s.segs().len() && ids[i] <= d < ids[i] + (#[trigger] s.segs()[i]).doc_count {
        let i = choose|i: int|
            0 <= i < s.segs().len() && ids[i] <= d < ids[i] + (#[trigger] s.segs()[i]).doc_count;
        assert(snapshot::in_segment(s.segs(), ids, i, d));
    }
    let docs = s.overlay.documents();
    if snapshot::overlay_ids(docs).contains(d) {
        let k = choose|k: int| 0 <= k < docs.len() && (#[trigger] docs[k]).doc_id == d;
        assert(s.overlay.docs@[k].doc_id == d);
    }
    if exists|k: int| 0 <= k < s.overlay.docs@.len() && (#[trigger] s.overlay.docs@[k]).doc_id == d {
        let k = choose|k: int|
            0 <= k < s.overlay.docs@.len() && (#[trigger] s.overlay.docs@[k]).doc_id == d;
        assert(docs[k].doc_id == d);
    }
}

/// A full check passes exactly if every segment file has its checksum, the manifest has
/// one, and the delete set that it names can be read.
pub proof fn law_checks_pass_for_sound_indexes(
    r: Result<(), IndexError>,
    s: IndexSnapshot,
    m: Manifest,
    deletes: Option<Vec<u8>>,
)
    requires
        open::is_verification(r, s, m, deletes),
    ensures
        r is Ok <==> m.checksum is Some && open::deleted_ids(m.overlay_deletes_file, deletes)
            is Some && forall|i: int|
            0 <= i < s.segs().len() ==> is_sound(#[trigger] s.segs()[i]),
{
    lemma_first_fault(s.segs(), s.segs().len());
}

/// The checksums of the files of a segment are right.
pub open spec fn is_sound(seg: MmapSegment) -> bool {
    &&& reader::checksum_ok(seg.bytes())
    &&& match seg.backing() {
        PostingsBacking::V2Mmap => true,
        PostingsBacking::V3File(p) => reader::post_verdict(p@, PostVerify::Full) is Ok,
        PostingsBacking::InMemory(p) => reader::post_verdict(p@, PostVerify::Full) is Ok,
    }
}

proof fn lemma_first_fault(segs: Seq<MmapSegment>, n: nat)
    requires
        n <= segs.len(),
    ensures
        open::first_fault(segs, n) is None <==> forall|i: int|
            0 <= i < n ==> is_sound(#[trigger] segs[i]),
    decreases n,
{
    if n > 0 {
        lemma_first_fault(segs, (n - 1) as nat);
        assert(is_sound(segs[n - 1]) <==> open::segment_fault(segs[n - 1]) is None);
    }
}

/// A base document stands for the file of its path, if that path is live.
pub proof fn law_base_documents_have_their_file_id(path: Option<Vec<u8>>, ids: Map<Seq<u8>, u32>)
    ensures
        path matches Some(p) ==> (ids.contains_key(path_resolve::normal(p@))
            ==> snapshot::file_id_of(path, ids) == ids[path_resolve::normal(p@)]),
        path matches Some(p) ==> (!ids.contains_key(path_resolve::normal(p@))
            ==> snapshot::file_id_of(path, ids) == u32::MAX),
        path is None ==> snapshot::file_id_of(path, ids) == u32::MAX,
{
}

/// The first id of a segment without a recorded one is the end of the segment before it,
/// and zero for the first segment.
pub proof fn law_segments_follow_one_another(
    refs: Seq<SegmentRef>,
    contents: Seq<SegmentBytes>,
    full: bool,
    n: nat,
    a: Admitted,
    i: int,
)
    requires
        open::load(refs, contents, full, n) == Ok::<Admitted, IndexError>(a),
        0 <= i < n,
        refs[i].base_doc_id is None,
    ensures
        i == 0 ==> a.base_ids[i] == 0,
        i > 0 ==> a.base_ids[i] == a.base_ids[i - 1] + docs_at(refs, contents, full, i - 1).len(),
    decreases n,
{
    let before = open::load(refs, contents, full, (n - 1) as nat)->Ok_0;
    lemma_loaded(refs, contents, full, n, a);
    lemma_loaded(refs, contents, full, (n - 1) as nat, before);
    assert(a.base_ids.drop_last() =~= before.base_ids);
    if i < n - 1 {
        law_segments_follow_one_another(refs, contents, full, (n - 1) as nat, before, i);
        assert(a.base_ids[i] == before.base_ids[i]);
        if i > 0 {
            assert(a.base_ids[i - 1] == before.base_ids[i - 1]);
        }
    } else if i > 0 {
        let earlier = open::load(refs, contents, full, (n - 2) as nat)->Ok_0;
        lemma_loaded(refs, contents, full, (n - 2) as nat, earlier);
        assert(before.base_ids.last() == before.base_ids[i - 1]);
        assert(a.base_ids[i - 1] == before.base_ids[i - 1]);
        assert(before.end == before.base_ids[i - 1] + docs_at(refs, contents, full, i - 1).len());
    }
}

proof fn lemma_none_misplaced(docs: Seq<Option<DocView>>, base: u32, n: nat)
    requires
        n <= docs.len(),
    ensures
        open::misplaced(docs, base, n) is None <==> forall|l: int|
            0 <= l < n ==> (#[trigger] docs[l] matches Some(d) ==> d.doc_id == base + l),
    decreases n,
{
    if n > 0 {
        lemma_none_misplaced(docs, base, (n - 1) as nat);
        assert(docs[n - 1] == docs[n - 1]);
    }
}

/// A segment is taken exactly if its ids do not reach back into those of the segments
/// before it, stay within fifty million, and are those of the positions of its documents.
pub proof fn law_segments_are_taken_up_to_the_limit(
    recorded: Option<u32>,
    end: u32,
    docs: Seq<Option<DocView>>,
)
    ensures
        ({
            let base = match recorded {
                Some(b) => b,
                None => end,
            };
            open::admission_fault(recorded, end, docs) is None <==> base >= end && base
                + docs.len() <= 50_000_000 && forall|l: int|
                0 <= l < docs.len() ==> (#[trigger] docs[l] matches Some(d) ==> d.doc_id == base
                    + l)
        }),
{
    lemma_none_misplaced(docs, open::next_base(recorded, end), docs.len());
}

/// Segment files of up to a gibibyte are not refused for their size, and a postings file is
/// refused if its length is not the recorded one.
pub proof fn law_segment_files_are_taken_up_to_the_limit(
    r: SegmentRef,
    segment: usize,
    main: Seq<u8>,
    post: Seq<u8>,
    full: bool,
)
    ensures
        main.len() <= 1_073_741_824 && open::names_inside(r) && !open::is_split(r) ==> (
        open::segment_layout(r, segment, main, post, full) is Ok <==> reader::layout_of(
            main,
            seq![2u32, 3u32],
            DictVerify::Full,
        ) is Ok),
        open::segment_layout(r, segment, main, post, full) matches Ok(l) ==> exists|
            versions: Seq<u32>,
            verify: DictVerify,
        | #[trigger] reader::layout_of(main, versions, verify) == Ok::<SegmentLayout, Corruption>(l),
        open::is_split(r) && (r.post_len matches Some(n) && n != post.len())
            ==> open::segment_layout(r, segment, main, post, full) is Err,
        main.len() <= 1_073_741_824 && open::names_inside(r) && open::is_split(r) && (
        r.post_len matches Some(n) ==> n == post.len()) && reader::layout_of(
            main,
            seq![3u32],
            if full {
                DictVerify::Full
            } else {
                DictVerify::Structure
            },
        ) is Ok && reader::post_verdict(
            post,
            if full {
                PostVerify::Full
            } else {
                PostVerify::Structure
            },
        ) is Ok ==> open::segment_layout(r, segment, main, post, full) is Ok,
        open::segment_layout(r, segment, main, post, true) is Ok ==> reader::checksum_ok(main),
        open::is_split(r) && open::segment_layout(r, segment, main, post, true) is Ok
            ==> reader::post_checksum_ok(post),
{
}

/// A delete set that is named is read, up to a gibibyte, from a file with a plain name, or
/// the index is refused; without a name nothing is deleted.
pub proof fn law_delete_sets_are_read_or_refused(name: Option<Vec<u8>>, bytes: Option<Vec<u8>>)
    ensures
        name is None ==> open::deleted_ids(name, bytes) == Some(Set::<u32>::empty()),
        name is Some && bytes is None ==> open::deleted_ids(name, bytes) is None,
        name matches Some(n) ==> (bytes matches Some(b) ==> (open::deleted_ids(name, bytes)
            is Some <==> files::plain(n@) && b@.len() <= 1_073_741_824 && deletes_idx::decoded(b@)
            is Ok)),
{
}

/// An index that is opened without a path index that can be used gives a file id to exactly
/// the paths of its documents, each below the next free one.
pub proof fn law_opened_paths_have_file_ids(
    config: Config,
    manifest: Manifest,
    contents: Seq<SegmentBytes>,
    sidecars: Sidecars,
    s: IndexSnapshot,
    p: Seq<u8>,
)
    requires
        open::is_opening(
            config,
            manifest,
            contents,
            sidecars,
            Ok::<IndexSnapshot, IndexError>(s),
        ),
        open::cached_paths(manifest.paths_idx_version, sidecars.paths_idx) is None,
        s.base.path_doc_ids.values@.len() <= u32::MAX,
    ensures
        s.path_index.file_ids().contains_key(p) <==> s.base.path_doc_ids@.contains_key(p),
        s.path_index.file_ids().contains_key(p) ==> s.path_index.file_ids()[p]
            < s.path_index.next_id,
{
    let keys = s.base.path_doc_ids.keys;
    let list = keys.seq();
    assert(s.base.wf());
    assert(list.len() <= u32::MAX);
    reopen_laws::lemma_positions(list, 0);
    assert(s.path_index.file_ids().dom() == list.to_set());
    if list.contains(p) {
        let i = choose|i: int| 0 <= i < list.len() && list[i] == p;
        reopen_laws::lemma_positions(list, i);
    }
    assert(s.base.path_doc_ids@.dom() =~= keys@);
}

/// A path index that the manifest was written with is used if it is sound and within eight
/// gibibytes, and then as it was written; any other is passed over.
pub proof fn law_path_indexes_are_used_or_passed_over(version: Option<u32>, bytes: Option<Vec<u8>>)
    ensures
        version != Some(1u32) ==> open::cached_paths(version, bytes) is None,
        bytes is None ==> open::cached_paths(version, bytes) is None,
        version == Some(1u32) ==> (bytes matches Some(b) ==> (b@.len() <= 8_589_934_592
            ==> match paths_idx::decoded(b@) {
            Ok(x) => open::cached_paths(version, bytes) == Some(x.paths),
            Err(_) => open::cached_paths(version, bytes) is None,
        })),
{
}

} // verus!
