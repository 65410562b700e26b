//! Indexes that are all overlay: documents in memory, no segments.

use crate::bitmap;
use crate::encoding;
use crate::encoding::{is_binary, normalize_encoding};
use crate::error::IndexError;
use crate::le;
use crate::overlay;
use crate::overlay::{NewFile, OverlayDocView, OverlayView};
use crate::path_index;
use crate::path_index::PathIndex;
use crate::path_resolve;
use crate::paths;
use crate::paths::PathMap;
use crate::snapshot;
use crate::snapshot::{BaseSegments, IndexSnapshot};
use std::borrow::Cow;
use std::sync::Arc;
use vstd::prelude::*;

verus! {

/// An id that is a path of the index as it is written: no name between slashes
/// is empty, a dot or two dots.
pub open spec fn valid_id(id: Seq<u8>) -> bool {
    forall|i: int|
        0 <= i < path_resolve::names(id).len() ==> !path_resolve::is_void(
            #[trigger] path_resolve::names(id)[i],
        ) && path_resolve::names(id)[i] != path_resolve::dot_dot()
}

/// The id as a path. Two ids that differ never name the same path.
pub fn validate_doc_id(id: &[u8]) -> (r: Result<Vec<u8>, IndexError>)
    ensures
        if valid_id(id@) {
            r matches Ok(p) && p@ == id@
        } else {
            r matches Err(IndexError::PathOutsideRepo(p)) && p@ == id@
        },
{
    let ns = path_resolve::split_names(id);
    let ghost all = path_resolve::names(id@);
    let mut i: usize = 0;
    while i < ns.len()
        invariant
            all == paths::path_views(ns@),
            all == path_resolve::names(id@),
            all.len() == ns@.len(),
            i <= all.len(),
            forall|k: int|
                0 <= k < i ==> !path_resolve::is_void(#[trigger] all[k]) && all[k]
                    != path_resolve::dot_dot(),
        decreases all.len() - i,
    {
        let n = &ns[i];
        assert(all[i as int] == n@);
        let dots: bool = n.len() == 2 && n[0] == path_resolve::DOT && n[1] == path_resolve::DOT;
        if n.len() == 0 || (n.len() == 1 && n[0] == path_resolve::DOT) || dots {
            proof {
                if n@.len() == 1 {
                    assert(n@ =~= path_resolve::dot());
                } else if n@.len() == 2 {
                    assert(n@ =~= path_resolve::dot_dot());
                }
                assert(!valid_id(id@));
            }
            return Err(IndexError::PathOutsideRepo(le::bytes_clone(id)));
        }
        i = i + 1;
    }
    Ok(le::bytes_clone(id))
}

/// The documents of the first `n` files: those that are text, numbered from zero.
pub open spec fn mem_documents(
    keys: Seq<Seq<u8>>,
    contents: Seq<Arc<Vec<u8>>>,
    grams: Seq<Vec<u64>>,
    n: nat,
) -> Seq<OverlayDocView>
    decreases n,
{
    if n == 0 {
        Seq::empty()
    } else {
        let rest = mem_documents(keys, contents, grams, (n - 1) as nat);
        let text = encoding::normalized(contents[n - 1]@);
        if encoding::binary(text) {
            rest
        } else {
            rest.push(
                OverlayDocView {
                    doc_id: rest.len() as u32,
                    path: keys[n - 1],
                    content: text,
                    grams: grams[n - 1]@,
                },
            )
        }
    }
}

/// `i` is the first key that is no valid id.
pub open spec fn first_invalid(keys: Seq<Seq<u8>>, i: int) -> bool {
    &&& 0 <= i < keys.len()
    &&& !valid_id(keys[i])
    &&& forall|k: int| 0 <= k < i ==> valid_id(#[trigger] keys[k])
}

/// All keys are valid ids.
pub open spec fn all_valid(keys: Seq<Seq<u8>>) -> bool {
    forall|k: int| 0 <= k < keys.len() ==> valid_id(#[trigger] keys[k])
}

/// The paths of documents, in order.
pub open spec fn paths_in(docs: Seq<OverlayDocView>) -> Seq<Seq<u8>> {
    Seq::new(docs.len(), |i: int| docs[i].path)
}

/// What a build of these files gives.
pub open spec fn is_overlay_snapshot(
    r: Result<IndexSnapshot, IndexError>,
    files: PathMap<Arc<Vec<u8>>>,
    grams: Seq<Vec<u64>>,
) -> bool {
    let keys = files.keys.seq();
    let docs = mem_documents(keys, files.values@, grams, keys.len());
    match r {
        Ok(s) => {
            &&& all_valid(keys)
            &&& docs.len() <= u32::MAX
            &&& s.wf()
            &&& s.segs().len() == 0
            &&& s.deleted() == Set::<u32>::empty()
            &&& s.overlay.documents() == docs
            &&& s.overlay.base_doc_count == 0
            &&& s.path_index.file_ids() == path_index::positional(paths_in(docs))
            &&& s.overlay_doc_to_file_id@ == snapshot::overlay_file_ids(
                docs,
                s.path_index.file_ids(),
            )
        },
        Err(e) => if all_valid(keys) {
            docs.len() > u32::MAX && e == (IndexError::DocIdOverflow {
                base_doc_count: 0,
                overlay_docs: docs.len() as usize,
            })
        } else {
            exists|i: int| #[trigger]
                first_invalid(keys, i) && (e matches IndexError::PathOutsideRepo(p) && p@
                    == keys[i])
        },
    }
}

/// The text of a file, shared with it where they are the same.
fn text_of(raw: &Arc<Vec<u8>>) -> (r: Arc<Vec<u8>>)
    ensures
        r@ == encoding::normalized(raw@),
{
    match normalize_encoding(raw.as_slice()) {
        Cow::Borrowed(b) => if b.len() == raw.len() {
            overlay::share(raw)
        } else {
            Arc::new(le::bytes_clone(b))
        },
        Cow::Owned(v) => Arc::new(v),
    }
}

/// A snapshot that is all overlay, with a document for each file that is text.
/// `grams` are those of the texts of the files, in the order of their ids.
pub fn build_overlay_snapshot(files: &PathMap<Arc<Vec<u8>>>, grams: Vec<Vec<u64>>) -> (r: Result<
    IndexSnapshot,
    IndexError,
>)
    requires
        files.sorted(),
        grams@.len() == files.values@.len(),
    ensures
        is_overlay_snapshot(r, *files, grams@),
{
    let ghost keys = files.keys.seq();
    let ghost cs = files.values@;
    let ghost gs = grams@;
    let mut queue = grams;
    let mut dirty: Vec<NewFile> = Vec::new();
    let mut list: Vec<Vec<u8>> = Vec::new();
    let mut i: usize = 0;
    assert(overlay::numbered(dirty@, 0) =~= mem_documents(keys, cs, gs, 0));
    assert(paths::path_views(list@) =~= paths_in(mem_documents(keys, cs, gs, 0)));
    assert(queue@ =~= gs.skip(0));
    while i < files.keys.paths.len()
        invariant
            files.sorted(),
            keys == files.keys.seq(),
            keys.len() == files.keys.paths@.len(),
            cs == files.values@,
            cs.len() == keys.len(),
            gs == grams@,
            gs.len() == keys.len(),
            i <= keys.len(),
            queue@ == gs.skip(i as int),
            forall|k: int| 0 <= k < i ==> valid_id(#[trigger] keys[k]),
            dirty@.len() <= i,
            overlay::numbered(dirty@, 0) == mem_documents(keys, cs, gs, i as nat),
            paths::path_views(list@) == paths_in(mem_documents(keys, cs, gs, i as nat)),
        decreases keys.len() - i,
    {
        let key: &[u8] = files.keys.paths[i].as_slice();
        assert(keys[i as int] == key@);
        let path = match validate_doc_id(key) {
            Ok(p) => p,
            Err(e) => {
                assert(first_invalid(keys, i as int));
                return Err(e);
            },
        };
        let ghost docs = mem_documents(keys, cs, gs, i as nat);
        let own = queue.remove(0);
        proof {
            assert(gs.skip(i as int)[0] == gs[i as int]);
            assert(queue@ =~= gs.skip(i + 1));
        }
        let content = text_of(&files.values[i]);
        if !is_binary(content.as_slice()) {
            let ghost before = dirty@;
            let ghost lv = paths::path_views(list@);
            list.push(le::bytes_clone(key));
            let f = NewFile { path, content, grams: own };
            dirty.push(f);
            proof {
                let next = mem_documents(keys, cs, gs, i as nat + 1);
                assert(overlay::numbered(dirty@, 0) =~= overlay::numbered(before, 0).push(
                    overlay::as_doc(f, docs.len() as u32),
                ));
                assert(overlay::numbered(dirty@, 0) =~= next);
                assert(paths::path_views(list@) =~= lv.push(key@));
                assert(paths_in(next) =~= paths_in(docs).push(key@));
            }
        }
        i = i + 1;
    }
    let ghost docs = mem_documents(keys, cs, gs, keys.len());
    assert(overlay::numbered(dirty@, 0).len() == dirty@.len());
    assert(paths::path_views(list@).len() == list@.len());
    let view = match OverlayView::build(0, dirty) {
        Ok(v) => v,
        Err(e) => {
            return Err(e);
        },
    };
    let index = PathIndex::build(&list);
    let ids = snapshot::map_overlay_docs(&view, &index);
    Ok(
        snapshot::new_snapshot(
            Arc::new(BaseSegments::empty()),
            view,
            bitmap::new(),
            index,
            ids,
        ),
    )
}

/// An index of documents in memory that can change. What is added or removed
/// shows after the next commit.
pub struct MemIndex {
    pub docs: PathMap<Arc<Vec<u8>>>,
    pub snapshot: Arc<IndexSnapshot>,
}

impl MemIndex {
    pub open spec fn wf(self) -> bool {
        self.docs.sorted() && self.snapshot.wf()
    }

    /// An index without documents.
    pub fn new() -> (r: Result<Self, IndexError>)
        ensures
            r matches Ok(m) && {
                &&& m.wf()
                &&& m.docs@ == Map::<Seq<u8>, Arc<Vec<u8>>>::empty()
                &&& m.snapshot.overlay.documents() == Seq::<OverlayDocView>::empty()
                &&& m.snapshot.segs().len() == 0
            },
    {
        let docs: PathMap<Arc<Vec<u8>>> = PathMap::new();
        proof {
            docs.keys.lemma_len();
            assert(docs.keys@ =~= docs@.dom());
            assert(docs.keys.seq().len() == 0);
        }
        match build_overlay_snapshot(&docs, Vec::new()) {
            Ok(s) => Ok(MemIndex { docs, snapshot: Arc::new(s) }),
            Err(e) => Err(e),
        }
    }

    /// What buffering a document, or a removal, makes of an index.
    pub open spec fn is_buffered(
        before: MemIndex,
        after: MemIndex,
        id: Seq<u8>,
        content: Option<Arc<Vec<u8>>>,
        r: Result<(), IndexError>,
    ) -> bool {
        &&& after.snapshot == before.snapshot
        &&& if valid_id(id) {
            r is Ok && after.docs@ == (match content {
                Some(c) => before.docs@.insert(id, c),
                None => before.docs@.remove(id),
            })
        } else {
            (r matches Err(IndexError::PathOutsideRepo(p)) && p@ == id) && after.docs@
                == before.docs@
        }
    }

    /// Buffers a document; one with the same id is replaced.
    pub fn add(&mut self, id: &[u8], content: Arc<Vec<u8>>) -> (r: Result<(), IndexError>)
        requires
            old(self).wf(),
        ensures
            final(self).wf(),
            Self::is_buffered(*old(self), *final(self), id@, Some(content), r),
    {
        match validate_doc_id(id) {
            Ok(_) => {
                self.docs.insert_key(id, content);
                Ok(())
            },
            Err(e) => Err(e),
        }
    }

    /// Buffers a removal; an id that is not there is no error.
    pub fn remove(&mut self, id: &[u8]) -> (r: Result<(), IndexError>)
        requires
            old(self).wf(),
        ensures
            final(self).wf(),
            Self::is_buffered(*old(self), *final(self), id@, None, r),
    {
        match validate_doc_id(id) {
            Ok(_) => {
                self.docs.remove_key(id);
                Ok(())
            },
            Err(e) => Err(e),
        }
    }

    /// The texts of the buffered documents in the order of their ids: what grams
    /// are taken from for a commit.
    pub fn texts(&self) -> (r: Vec<Arc<Vec<u8>>>)
        requires
            self.wf(),
        ensures
            r@.len() == self.docs.values@.len(),
            forall|i: int|
                0 <= i < r@.len() ==> (#[trigger] r@[i])@ == encoding::normalized(
                    self.docs.values@[i]@,
                ),
    {
        let mut r: Vec<Arc<Vec<u8>>> = Vec::new();
        let mut i: usize = 0;
        while i < self.docs.values.len()
            invariant
                i <= self.docs.values@.len(),
                r@.len() == i,
                forall|k: int|
                    0 <= k < i ==> (#[trigger] r@[k])@ == encoding::normalized(
                        self.docs.values@[k]@,
                    ),
            decreases self.docs.values@.len() - i,
        {
            r.push(text_of(&self.docs.values[i]));
            i = i + 1;
        }
        r
    }

    /// Builds a snapshot of all buffered documents and shows it. A commit that
    /// fails leaves the snapshot that was shown.
    pub fn commit(&mut self, grams: Vec<Vec<u64>>) -> (r: Result<(), IndexError>)
        requires
            old(self).wf(),
            grams@.len() == old(self).docs.values@.len(),
        ensures
            final(self).wf(),
            final(self).docs == old(self).docs,
            match r {
                Ok(_) => is_overlay_snapshot(
                    Ok(*final(self).snapshot),
                    old(self).docs,
                    grams@,
                ),
                Err(e) => final(self).snapshot == old(self).snapshot && is_overlay_snapshot(
                    Err(e),
                    old(self).docs,
                    grams@,
                ),
            },
    {
        match build_overlay_snapshot(&self.docs, grams) {
            Ok(s) => {
                self.snapshot = Arc::new(s);
                Ok(())
            },
            Err(e) => Err(e),
        }
    }
}

/// An index of documents in memory that does not change.
pub struct InMemoryIndex {
    pub snapshot: Arc<IndexSnapshot>,
}

impl InMemoryIndex {
    /// Builds an index of files by their paths in the repository.
    pub fn build(files: &PathMap<Arc<Vec<u8>>>, grams: Vec<Vec<u64>>) -> (r: Result<
        Self,
        IndexError,
    >)
        requires
            files.sorted(),
            grams@.len() == files.values@.len(),
        ensures
            match r {
                Ok(x) => is_overlay_snapshot(Ok(*x.snapshot), *files, grams@),
                Err(e) => is_overlay_snapshot(Err(e), *files, grams@),
            },
    {
        match build_overlay_snapshot(files, grams) {
            Ok(s) => Ok(InMemoryIndex { snapshot: Arc::new(s) }),
            Err(e) => Err(e),
        }
    }
}

/// A snapshot shows a file exactly if it is text, under its id and with its text.
pub proof fn law_text_files_are_shown(
    keys: Seq<Seq<u8>>,
    contents: Seq<Arc<Vec<u8>>>,
    grams: Seq<Vec<u64>>,
    n: nat,
    i: int,
)
    requires
        keys.len() == contents.len(),
        paths::ascending(keys),
        0 <= i < n <= keys.len(),
    ensures
        ({
            let docs = mem_documents(keys, contents, grams, n);
            let text = encoding::normalized(contents[i]@);
            if encoding::binary(text) {
                forall|k: int| 0 <= k < docs.len() ==> (#[trigger] docs[k]).path != keys[i]
            } else {
                exists|k: int|
                    0 <= k < docs.len() && (#[trigger] docs[k]).path == keys[i] && docs[k].content
                        == text && docs[k].grams == grams[i]@
            }
        }),
    decreases n,
{
    let docs = mem_documents(keys, contents, grams, n);
    let rest = mem_documents(keys, contents, grams, (n - 1) as nat);
    let text = encoding::normalized(contents[i]@);
    if i < n - 1 {
        law_text_files_are_shown(keys, contents, grams, (n - 1) as nat, i);
        if encoding::binary(text) {
            assert forall|k: int| 0 <= k < docs.len() implies (#[trigger] docs[k]).path
                != keys[i] by {
                if k < rest.len() {
                    assert(docs[k] == rest[k]);
                } else if keys[n - 1] == keys[i] {
                    paths::lemma_ascending_unique(keys, n - 1, i);
                }
            }
        } else {
            let k = choose|k: int|
                0 <= k < rest.len() && (#[trigger] rest[k]).path == keys[i] && rest[k].content
                    == text && rest[k].grams == grams[i]@;
            assert(docs[k] == rest[k]);
        }
    } else if encoding::binary(text) {
        lemma_paths_from_keys(keys, contents, grams, (n - 1) as nat);
        assert forall|k: int| 0 <= k < docs.len() implies (#[trigger] docs[k]).path != keys[i] by {
            let j = choose|j: int| 0 <= j < n - 1 && #[trigger] keys[j] == docs[k].path;
            if keys[j] == keys[i] {
                paths::lemma_ascending_unique(keys, j, i);
            }
        }
    } else {
        assert(docs[rest.len() as int].path == keys[i]);
    }
}

proof fn lemma_paths_from_keys(
    keys: Seq<Seq<u8>>,
    contents: Seq<Arc<Vec<u8>>>,
    grams: Seq<Vec<u64>>,
    n: nat,
)
    requires
        n <= keys.len(),
    ensures
        forall|k: int|
            0 <= k < mem_documents(keys, contents, grams, n).len() ==> exists|j: int|
                0 <= j < n && #[trigger] keys[j] == (#[trigger] mem_documents(
                    keys,
                    contents,
                    grams,
                    n,
                )[k]).path,
    decreases n,
{
    if n > 0 {
        lemma_paths_from_keys(keys, contents, grams, (n - 1) as nat);
        let docs = mem_documents(keys, contents, grams, n);
        let rest = mem_documents(keys, contents, grams, (n - 1) as nat);
        assert forall|k: int| 0 <= k < docs.len() implies exists|j: int|
            0 <= j < n && #[trigger] keys[j] == (#[trigger] docs[k]).path by {
            if k < rest.len() {
                assert(docs[k] == rest[k]);
                let j = choose|j: int| 0 <= j < n - 1 && #[trigger] keys[j] == rest[k].path;
                assert(keys[j] == docs[k].path);
            } else {
                assert(keys[n - 1] == docs[k].path);
            }
        }
    }
}

/// Two ids that differ never name the same path.
pub proof fn law_ids_name_distinct_paths(a: Seq<u8>, b: Seq<u8>)
    requires
        valid_id(a),
        valid_id(b),
        a != b,
    ensures
        path_resolve::components(a) != path_resolve::components(b),
{
    path_resolve::lemma_names_are_components(a);
    path_resolve::lemma_names_are_components(b);
    if path_resolve::components(a) == path_resolve::components(b) {
        path_resolve::lemma_names_tell_texts_apart(a, b);
    }
}

/// A document that is added is buffered under its id with its content, one that is removed
/// is not, and no other document is touched; what searches see stays as it is. An id that
/// is not valid is refused.
pub proof fn law_documents_are_buffered_by_id(
    before: MemIndex,
    after: MemIndex,
    id: Seq<u8>,
    content: Option<Arc<Vec<u8>>>,
    r: Result<(), IndexError>,
    other: Seq<u8>,
)
    requires
        MemIndex::is_buffered(before, after, id, content, r),
    ensures
        after.snapshot == before.snapshot,
        r is Ok <==> valid_id(id),
        r is Ok ==> (after.docs@.contains_key(id) <==> content is Some),
        r is Ok ==> (content matches Some(c) ==> after.docs@[id] == c),
        other != id || r is Err ==> (after.docs@.contains_key(other) <==> before.docs@.contains_key(
            other,
        )),
        (other != id || r is Err) && before.docs@.contains_key(other) ==> after.docs@[other]
            == before.docs@[other],
{
}

} // verus!
