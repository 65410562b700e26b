//! In-memory view of dirty files.
//!
//! The overlay holds the files that changed since the base segments were
//! written, with an index from grams to documents. A commit makes a new
//! overlay and reuses the documents of files that did not change.

use crate::bitmap;
use crate::error::IndexError;
use crate::le;
use crate::path_resolve;
use crate::paths::PathSet;
use std::collections::HashMap;
use std::sync::Arc;
use vstd::prelude::*;

verus! {

/// A file to be added to an overlay: path, normalised content, and the grams
/// that the tokenizer found in it.
pub struct NewFile {
    pub path: Vec<u8>,
    pub content: Arc<Vec<u8>>,
    pub grams: Vec<u64>,
}

/// A dirty file.
pub struct OverlayDoc {
    /// Id of the document, above those of the base.
    pub doc_id: u32,
    /// Repository-relative path.
    pub path: Vec<u8>,
    /// Content, shared between overlays.
    pub content: Arc<Vec<u8>>,
    /// Grams of the content.
    pub grams: Vec<u64>,
}

/// What an [`OverlayDoc`] holds.
#[verifier::ext_equal]
pub struct OverlayDocView {
    pub doc_id: u32,
    pub path: Seq<u8>,
    pub content: Seq<u8>,
    pub grams: Seq<u64>,
}

impl View for OverlayDoc {
    type V = OverlayDocView;

    open spec fn view(&self) -> OverlayDocView {
        OverlayDocView {
            doc_id: self.doc_id,
            path: self.path@,
            content: self.content@,
            grams: self.grams@,
        }
    }
}

/// The views of a list of documents.
pub open spec fn doc_views(docs: Seq<OverlayDoc>) -> Seq<OverlayDocView> {
    Seq::new(docs.len(), |i: int| docs[i]@)
}

/// A file as the document with the id `doc_id`.
pub open spec fn as_doc(f: NewFile, doc_id: u32) -> OverlayDocView {
    OverlayDocView { doc_id, path: f.path@, content: f.content@, grams: f.grams@ }
}

/// Documents with their ids replaced by `first`, `first + 1`, ...
pub open spec fn renumbered(docs: Seq<OverlayDocView>, first: u32) -> Seq<OverlayDocView> {
    Seq::new(docs.len(), |i: int| OverlayDocView { doc_id: (first + i) as u32, ..docs[i] })
}

/// Files as documents with the ids `first`, `first + 1`, ...
pub open spec fn numbered(files: Seq<NewFile>, first: u32) -> Seq<OverlayDocView> {
    Seq::new(files.len(), |i: int| as_doc(files[i], (first + i) as u32))
}

/// The grams and documents that occur together.
pub open spec fn pairs_of(docs: Seq<OverlayDocView>) -> Set<(u64, u32)> {
    Set::new(
        |p: (u64, u32)|
            exists|i: int|
                #![trigger docs[i]]
                0 <= i < docs.len() && docs[i].doc_id == p.1 && docs[i].grams.contains(p.0),
    )
}

/// The index lists, for each gram, the documents it occurs with, ascending;
/// and it lists no gram without documents.
pub open spec fn index_ok(m: Map<u64, Vec<u32>>, pairs: Set<(u64, u32)>) -> bool {
    &&& forall|g: u64|
        #![trigger m.contains_key(g)]
        m.contains_key(g) ==> m[g]@.len() > 0 && bitmap::strictly_ascending(m[g]@)
    &&& forall|g: u64, d: u32|
        #![trigger pairs.contains((g, d))]
        pairs.contains((g, d)) <==> m.contains_key(g) && m[g]@.contains(d)
}

/// Ids ascend.
pub open spec fn ids_ascending(docs: Seq<OverlayDocView>) -> bool {
    forall|i: int, j: int| 0 <= i < j < docs.len() ==> docs[i].doc_id < docs[j].doc_id
}

/// The documents of unchanged files. Paths are told apart by their components.
pub open spec fn carried(
    docs: Seq<OverlayDocView>,
    removed: Set<Seq<u8>>,
    changed: Set<Seq<u8>>,
) -> Seq<OverlayDocView>
    decreases docs.len(),
{
    if docs.len() == 0 {
        Seq::empty()
    } else {
        let rest = carried(docs.drop_last(), removed, changed);
        let path = path_resolve::normal(docs.last().path);
        if removed.contains(path) || changed.contains(path) {
            rest
        } else {
            rest.push(docs.last())
        }
    }
}

/// `Arc::clone`: another handle on the same value.
#[verifier::external_body]
pub(crate) fn share<T>(a: &Arc<T>) -> (r: Arc<T>)
    ensures
        r == *a,
{
    Arc::clone(a)
}

/// In-memory gram index of the dirty files.
pub struct OverlayView {
    /// From grams to ascending document ids.
    pub gram_index: HashMap<u64, Vec<u32>>,
    /// The dirty files, their ids ascending.
    pub docs: Vec<OverlayDoc>,
    /// The next free id.
    pub next_doc_id: u32,
    /// The size of the base at which this overlay was built.
    pub base_doc_count: u32,
}

fn copy_doc(d: &OverlayDoc, doc_id: u32) -> (r: OverlayDoc)
    ensures
        r@ == (OverlayDocView { doc_id, ..d@ }),
{
    OverlayDoc {
        doc_id,
        path: le::bytes_clone(d.path.as_slice()),
        content: share(&d.content),
        grams: copy_grams(&d.grams),
    }
}

fn copy_grams(v: &Vec<u64>) -> (r: Vec<u64>)
    ensures
        r@ == v@,
{
    let mut r: Vec<u64> = Vec::new();
    let mut i: usize = 0;
    while i < v.len()
        invariant
            i <= v@.len(),
            r@ == v@.take(i as int),
        decreases v@.len() - i,
    {
        r.push(v[i]);
        i = i + 1;
        assert(r@ =~= v@.take(i as int));
    }
    assert(v@.take(i as int) =~= v@);
    r
}

/// Lists a document under a gram.
fn index_gram(m: &mut HashMap<u64, Vec<u32>>, gram: u64, doc_id: u32, Ghost(pairs): Ghost<
    Set<(u64, u32)>,
>)
    requires
        index_ok(old(m)@, pairs),
        forall|g: u64, d: u32| #[trigger] pairs.contains((g, d)) ==> d <= doc_id,
    ensures
        index_ok(final(m)@, pairs.insert((gram, doc_id))),
{
    broadcast use vstd::std_specs::hash::group_hash_axioms;

    let ghost m0 = m@;
    let ghost pairs1 = pairs.insert((gram, doc_id));
    match m.remove(&gram) {
        Some(list) => {
            let mut list = list;
            let ghost before = list@;
            assert(m0.contains_key(gram) && list == m0[gram]);
            let n: usize = list.len();
            let last: u32 = list[n - 1];
            proof {
                assert(before.contains(last));
                assert(pairs.contains((gram, last)));
            }
            if last != doc_id {
                list.push(doc_id);
                assert forall|i: int, j: int| 0 <= i < j < list@.len() implies list@[i]
                    < list@[j] by {
                    if j == before.len() && i < before.len() - 1 {
                        assert(before[i] < before[before.len() - 1]);
                    }
                }
            }
            proof {
                assert forall|d: u32| list@.contains(d) <==> before.contains(d) || d == doc_id by {
                    if list@.contains(d) {
                        let k = choose|k: int| 0 <= k < list@.len() && list@[k] == d;
                        if k < before.len() {
                            assert(before[k] == d);
                        }
                    }
                    if before.contains(d) {
                        let k = choose|k: int| 0 <= k < before.len() && before[k] == d;
                        assert(list@[k] == d);
                    }
                    assert(list@[list@.len() - 1] == doc_id);
                }
            }
            m.insert(gram, list);
            assert(m@ =~= m0.insert(gram, list));
            assert(index_ok(m@, pairs1)) by {
                assert forall|g: u64, d: u32|
                    #![trigger pairs1.contains((g, d))]
                    pairs1.contains((g, d)) <==> m@.contains_key(g) && m@[g]@.contains(d) by {
                    assert(pairs.contains((g, d)) <==> m0.contains_key(g) && m0[g]@.contains(d));
                }
            }
        },
        None => {
            let mut list: Vec<u32> = Vec::new();
            list.push(doc_id);
            m.insert(gram, list);
            assert(m@ =~= m0.insert(gram, list));
            assert(index_ok(m@, pairs1)) by {
                assert(list@[0] == doc_id);
                assert forall|g: u64, d: u32|
                    #![trigger pairs1.contains((g, d))]
                    pairs1.contains((g, d)) <==> m@.contains_key(g) && m@[g]@.contains(d) by {
                    assert(pairs.contains((g, d)) <==> m0.contains_key(g) && m0[g]@.contains(d));
                }
            }
        },
    }
}

/// Strikes a document from the list of a gram, and a list that becomes empty
/// from the index.
fn unindex_gram(m: &mut HashMap<u64, Vec<u32>>, gram: u64, doc_id: u32, Ghost(pairs): Ghost<
    Set<(u64, u32)>,
>)
    requires
        index_ok(old(m)@, pairs),
    ensures
        index_ok(final(m)@, pairs.remove((gram, doc_id))),
{
    broadcast use vstd::std_specs::hash::group_hash_axioms;

    let ghost m0 = m@;
    let ghost pairs1 = pairs.remove((gram, doc_id));
    match m.remove(&gram) {
        None => {
            assert(m@ =~= m0);
            assert(!pairs.contains((gram, doc_id)));
            assert(pairs1 =~= pairs);
        },
        Some(list) => {
            assert(m0.contains_key(gram) && list == m0[gram]);
            let mut kept: Vec<u32> = Vec::new();
            let mut i: usize = 0;
            while i < list.len()
                invariant
                    i <= list@.len(),
                    bitmap::strictly_ascending(list@),
                    bitmap::strictly_ascending(kept@),
                    forall|d: u32| #[trigger]
                        kept@.contains(d) <==> d != doc_id && list@.take(i as int).contains(d),
                decreases list@.len() - i,
            {
                let ghost before = kept@;
                let d: u32 = list[i];
                if d != doc_id {
                    kept.push(d);
                }
                proof {
                    let a = list@.take(i as int);
                    let b = list@.take(i + 1);
                    assert forall|x: u32| b.contains(x) <==> a.contains(x) || x == d by {
                        if b.contains(x) {
                            let k = choose|k: int| 0 <= k < b.len() && b[k] == x;
                            if k < i {
                                assert(a[k] == x);
                            }
                        }
                        if a.contains(x) {
                            let k = choose|k: int| 0 <= k < a.len() && a[k] == x;
                            assert(b[k] == x);
                        }
                        assert(b[i as int] == d);
                    }
                    assert forall|x: u32| #[trigger]
                        kept@.contains(x) <==> x != doc_id && b.contains(x) by {
                        if kept@.contains(x) {
                            let k = choose|k: int| 0 <= k < kept@.len() && kept@[k] == x;
                            if k < before.len() {
                                assert(before[k] == x);
                                assert(before.contains(x));
                            }
                        }
                        if before.contains(x) {
                            let k = choose|k: int| 0 <= k < before.len() && before[k] == x;
                            assert(kept@[k] == x);
                        }
                        if d != doc_id {
                            assert(kept@[before.len() as int] == d);
                        }
                    }
                    if d != doc_id {
                        assert forall|x: int, y: int| 0 <= x < y < kept@.len() implies kept@[x]
                            < kept@[y] by {
                            if y == before.len() {
                                assert(before.contains(before[x]));
                                assert(a.contains(before[x]));
                                let k = choose|k: int| 0 <= k < a.len() && a[k] == before[x];
                                assert(list@[k] < list@[i as int]);
                            }
                        }
                    }
                }
                i = i + 1;
            }
            assert(list@.take(i as int) =~= list@);
            if kept.len() > 0 {
                m.insert(gram, kept);
                assert(m@ =~= m0.insert(gram, kept));
                assert(index_ok(m@, pairs1)) by {
                    assert forall|g: u64, d: u32|
                        #![trigger pairs1.contains((g, d))]
                        pairs1.contains((g, d)) <==> m@.contains_key(g) && m@[g]@.contains(d) by {
                        assert(pairs.contains((g, d)) <==> m0.contains_key(g) && m0[g]@.contains(
                            d,
                        ));
                    }
                }
            } else {
                assert(m@ =~= m0.remove(gram));
                assert(index_ok(m@, pairs1)) by {
                    assert forall|g: u64, d: u32|
                        #![trigger pairs1.contains((g, d))]
                        pairs1.contains((g, d)) <==> m@.contains_key(g) && m@[g]@.contains(d) by {
                        assert(pairs.contains((g, d)) <==> m0.contains_key(g) && m0[g]@.contains(
                            d,
                        ));
                        if g == gram && pairs1.contains((g, d)) {
                            assert(kept@.contains(d));
                        }
                    }
                }
            }
        },
    }
}

/// The pairs of one document.
pub open spec fn doc_pairs(doc_id: u32, grams: Seq<u64>) -> Set<(u64, u32)> {
    Set::new(|p: (u64, u32)| p.1 == doc_id && grams.contains(p.0))
}

/// Lists a document under all its grams.
fn index_doc(m: &mut HashMap<u64, Vec<u32>>, grams: &Vec<u64>, doc_id: u32, Ghost(pairs): Ghost<
    Set<(u64, u32)>,
>)
    requires
        index_ok(old(m)@, pairs),
        forall|g: u64, d: u32| #[trigger] pairs.contains((g, d)) ==> d < doc_id,
    ensures
        index_ok(final(m)@, pairs.union(doc_pairs(doc_id, grams@))),
{
    let mut k: usize = 0;
    assert(pairs.union(doc_pairs(doc_id, grams@.take(0))) =~= pairs);
    while k < grams.len()
        invariant
            k <= grams@.len(),
            index_ok(m@, pairs.union(doc_pairs(doc_id, grams@.take(k as int)))),
            forall|g: u64, d: u32| #[trigger] pairs.contains((g, d)) ==> d < doc_id,
        decreases grams@.len() - k,
    {
        let ghost now = pairs.union(doc_pairs(doc_id, grams@.take(k as int)));
        index_gram(m, grams[k], doc_id, Ghost(now));
        proof {
            lemma_doc_pairs_step(doc_id, grams@, k as int);
            assert(now.insert((grams@[k as int], doc_id)) =~= pairs.union(
                doc_pairs(doc_id, grams@.take(k + 1)),
            ));
        }
        k = k + 1;
    }
    assert(grams@.take(k as int) =~= grams@);
}

/// Strikes a document from the lists of all its grams.
fn unindex_doc(m: &mut HashMap<u64, Vec<u32>>, grams: &Vec<u64>, doc_id: u32, Ghost(pairs): Ghost<
    Set<(u64, u32)>,
>)
    requires
        index_ok(old(m)@, pairs),
    ensures
        index_ok(final(m)@, pairs.difference(doc_pairs(doc_id, grams@))),
{
    let mut k: usize = 0;
    assert(pairs.difference(doc_pairs(doc_id, grams@.take(0))) =~= pairs);
    while k < grams.len()
        invariant
            k <= grams@.len(),
            index_ok(m@, pairs.difference(doc_pairs(doc_id, grams@.take(k as int)))),
        decreases grams@.len() - k,
    {
        let ghost now = pairs.difference(doc_pairs(doc_id, grams@.take(k as int)));
        unindex_gram(m, grams[k], doc_id, Ghost(now));
        proof {
            lemma_doc_pairs_step(doc_id, grams@, k as int);
            assert(now.remove((grams@[k as int], doc_id)) =~= pairs.difference(
                doc_pairs(doc_id, grams@.take(k + 1)),
            ));
        }
        k = k + 1;
    }
    assert(grams@.take(k as int) =~= grams@);
}

pub proof fn lemma_doc_pairs_step(doc_id: u32, grams: Seq<u64>, k: int)
    requires
        0 <= k < grams.len(),
    ensures
        doc_pairs(doc_id, grams.take(k + 1)) == doc_pairs(doc_id, grams.take(k)).insert(
            (grams[k], doc_id),
        ),
{
    let a = grams.take(k);
    let b = grams.take(k + 1);
    assert forall|p: (u64, u32)|
        doc_pairs(doc_id, b).contains(p) <==> doc_pairs(doc_id, a).insert(
            (grams[k], doc_id),
        ).contains(p) by {
        if b.contains(p.0) {
            let i = choose|i: int| 0 <= i < b.len() && b[i] == p.0;
            if i < k {
                assert(a[i] == p.0);
            }
        }
        if a.contains(p.0) {
            let i = choose|i: int| 0 <= i < a.len() && a[i] == p.0;
            assert(b[i] == p.0);
        }
        assert(b[k] == grams[k]);
    }
    assert(doc_pairs(doc_id, b) =~= doc_pairs(doc_id, a).insert((grams[k], doc_id)));
}

pub proof fn lemma_pairs_push(docs: Seq<OverlayDocView>, d: OverlayDocView)
    ensures
        pairs_of(docs.push(d)) == pairs_of(docs).union(doc_pairs(d.doc_id, d.grams)),
{
    let all = docs.push(d);
    assert forall|p: (u64, u32)|
        pairs_of(all).contains(p) <==> pairs_of(docs).union(
            doc_pairs(d.doc_id, d.grams),
        ).contains(p) by {
        if pairs_of(all).contains(p) {
            let i = choose|i: int|
                #![trigger all[i]]
                0 <= i < all.len() && all[i].doc_id == p.1 && all[i].grams.contains(p.0);
            if i < docs.len() {
                assert(docs[i] == all[i]);
            }
        }
        if pairs_of(docs).contains(p) {
            let i = choose|i: int|
                #![trigger docs[i]]
                0 <= i < docs.len() && docs[i].doc_id == p.1 && docs[i].grams.contains(p.0);
            assert(all[i] == docs[i]);
        }
        assert(all[docs.len() as int] == d);
    }
    assert(pairs_of(all) =~= pairs_of(docs).union(doc_pairs(d.doc_id, d.grams)));
}

impl OverlayView {
    /// Ids ascend from the base on and lie below the next free id, and the
    /// index lists exactly the documents with their grams.
    pub open spec fn wf(self) -> bool {
        let docs = doc_views(self.docs@);
        &&& ids_ascending(docs)
        &&& forall|i: int|
            #![trigger docs[i]]
            0 <= i < docs.len() ==> self.base_doc_count <= docs[i].doc_id < self.next_doc_id
        &&& self.base_doc_count <= self.next_doc_id
        &&& index_ok(self.gram_index@, pairs_of(docs))
    }

    /// The documents of the overlay.
    pub open spec fn documents(self) -> Seq<OverlayDocView> {
        doc_views(self.docs@)
    }

    /// An overlay without documents.
    pub fn empty() -> (v: Self)
        ensures
            v.wf(),
            v.documents() == Seq::<OverlayDocView>::empty(),
            v.gram_index@ == Map::<u64, Vec<u32>>::empty(),
            v.next_doc_id == 0,
            v.base_doc_count == 0,
    {
        Self::starting_at(0)
    }

    fn starting_at(base_doc_count: u32) -> (v: Self)
        ensures
            v.wf(),
            v.documents() == Seq::<OverlayDocView>::empty(),
            v.gram_index@ == Map::<u64, Vec<u32>>::empty(),
            v.next_doc_id == base_doc_count,
            v.base_doc_count == base_doc_count,
    {
        let v = OverlayView {
            gram_index: HashMap::new(),
            docs: Vec::new(),
            next_doc_id: base_doc_count,
            base_doc_count,
        };
        assert(v.documents() =~= Seq::<OverlayDocView>::empty());
        assert(pairs_of(v.documents()) =~= Set::<(u64, u32)>::empty());
        v
    }

    /// Appends a document under the next free id.
    fn push_doc(&mut self, d: OverlayDoc)
        requires
            old(self).wf(),
            d.doc_id == old(self).next_doc_id,
            old(self).next_doc_id < u32::MAX,
        ensures
            final(self).wf(),
            final(self).documents() == old(self).documents().push(d@),
            final(self).next_doc_id == old(self).next_doc_id + 1,
            final(self).base_doc_count == old(self).base_doc_count,
    {
        let ghost before = self.documents();
        let ghost pairs = pairs_of(before);
        proof {
            assert forall|g: u64, x: u32| #[trigger] pairs.contains((g, x)) implies x
                < d.doc_id by {
                let i = choose|i: int|
                    #![trigger before[i]]
                    0 <= i < before.len() && before[i].doc_id == x && before[i].grams.contains(g);
                assert(before[i].doc_id < self.next_doc_id);
            }
            lemma_pairs_push(before, d@);
        }
        index_doc(&mut self.gram_index, &d.grams, d.doc_id, Ghost(pairs));
        self.docs.push(d);
        self.next_doc_id = self.next_doc_id + 1;
        proof {
            assert(self.documents() =~= before.push(d@));
            assert forall|i: int| #![trigger self.documents()[i]] 0 <= i < self.documents().len() implies self.base_doc_count <= self.documents()[i].doc_id < self.next_doc_id by {
                if i < before.len() {
                    assert(self.documents()[i] == before[i]);
                }
            }
            assert forall|i: int, j: int| 0 <= i < j < self.documents().len() implies
                self.documents()[i].doc_id < self.documents()[j].doc_id by {
                if j == before.len() {
                    assert(before[i].doc_id < d.doc_id);
                }
            }
        }
    }

    /// Appends the files under the next free ids, as far as there are ids.
    fn push_files(&mut self, files: Vec<NewFile>) -> (ok: bool)
        requires
            old(self).wf(),
        ensures
            final(self).wf(),
            final(self).base_doc_count == old(self).base_doc_count,
            ok == (files@.len() == 0 || old(self).next_doc_id + files@.len() <= u32::MAX),
            ok ==> final(self).documents() == old(self).documents() + numbered(
                files@,
                old(self).next_doc_id,
            ),
            ok ==> final(self).next_doc_id == old(self).next_doc_id + files@.len(),
    {
        let ghost docs0 = self.documents();
        let ghost first = self.next_doc_id;
        let ghost base = self.base_doc_count;
        let ghost all = files@;
        let n: usize = files.len();
        if n > 0 && n as u64 > (u32::MAX - self.next_doc_id) as u64 {
            return false;
        }
        let mut rest = files;
        let ghost mut done: int = 0;
        assert(rest@ =~= all.skip(0));
        assert(docs0 + numbered(all.take(0), first) =~= docs0);
        while rest.len() > 0
            invariant
                self.wf(),
                self.base_doc_count == base,
                0 <= done <= all.len(),
                rest@ == all.skip(done),
                first + all.len() <= u32::MAX || all.len() == 0,
                self.next_doc_id == first + done,
                self.documents() == docs0 + numbered(all.take(done), first),
            decreases rest@.len(),
        {
            let ghost rest0 = rest@;
            let f = rest.remove(0);
            let d = OverlayDoc {
                doc_id: self.next_doc_id,
                path: f.path,
                content: f.content,
                grams: f.grams,
            };
            self.push_doc(d);
            proof {
                assert(rest0[0] == all[done]);
                assert(rest@ =~= all.skip(done + 1));
                assert(all.take(done + 1) =~= all.take(done).push(all[done]));
                assert(numbered(all.take(done + 1), first) =~= numbered(
                    all.take(done),
                    first,
                ).push(as_doc(all[done], (first + done) as u32)));
                assert(self.documents() =~= docs0 + numbered(all.take(done + 1), first));
                done = done + 1;
            }
        }
        assert(all.take(done) =~= all);
        true
    }

    /// Builds an overlay of the given files, their ids starting at the size of
    /// the base.
    pub fn build(base_doc_count: u32, dirty_files: Vec<NewFile>) -> (r: Result<Self, IndexError>)
        ensures
            match r {
                Ok(v) => {
                    &&& v.wf()
                    &&& v.base_doc_count == base_doc_count
                    &&& v.documents() == numbered(dirty_files@, base_doc_count)
                    &&& v.next_doc_id == base_doc_count + dirty_files@.len()
                },
                Err(e) => dirty_files@.len() > 0 && base_doc_count + dirty_files@.len() > u32::MAX
                    && e == (IndexError::DocIdOverflow {
                    base_doc_count,
                    overlay_docs: dirty_files@.len() as usize,
                }),
            },
    {
        let overlay_docs: usize = dirty_files.len();
        let mut v = Self::starting_at(base_doc_count);
        if !v.push_files(dirty_files) {
            return Err(IndexError::DocIdOverflow { base_doc_count, overlay_docs });
        }
        assert(v.documents() =~= numbered(dirty_files@, base_doc_count));
        Ok(v)
    }

    /// The number of documents that an overflow report names.
    pub open spec fn reported_docs(old_docs: nat, new_files: nat, changed: nat) -> nat {
        let sum = if old_docs + new_files > usize::MAX { usize::MAX as nat } else {
            old_docs + new_files
        };
        if changed > sum {
            0
        } else {
            (sum - changed) as nat
        }
    }

    /// Builds the next overlay from the previous one: documents of removed and
    /// changed paths go, `new_files` come.
    ///
    /// While the base stays, documents keep their ids and new ones continue
    /// above; on another base all ids are given out anew.
    pub fn build_incremental(
        base_doc_count: u32,
        old_overlay: &OverlayView,
        new_files: Vec<NewFile>,
        newly_changed: &PathSet,
        removed_paths: &PathSet,
    ) -> (r: Result<Self, IndexError>)
        requires
            old_overlay.wf(),
            newly_changed.wf(),
            removed_paths.wf(),
        ensures
            ({
                let kept = carried(old_overlay.documents(), removed_paths@, newly_changed@);
                let same_base = base_doc_count == old_overlay.base_doc_count;
                let first = if same_base {
                    old_overlay.next_doc_id as int
                } else {
                    base_doc_count + kept.len()
                };
                match r {
                    Ok(v) => {
                        &&& v.wf()
                        &&& v.base_doc_count == base_doc_count
                        &&& v.documents() == rebuilt(
                            old_overlay.documents(),
                            same_base,
                            base_doc_count,
                            first as u32,
                            new_files@,
                            newly_changed@,
                            removed_paths@,
                        )
                        &&& v.next_doc_id == first + new_files@.len()
                    },
                    Err(e) => {
                        &&& first + new_files@.len() > u32::MAX
                        &&& e == (IndexError::DocIdOverflow {
                            base_doc_count,
                            overlay_docs: Self::reported_docs(
                                old_overlay.documents().len(),
                                new_files@.len(),
                                newly_changed@.len(),
                            ) as usize,
                        })
                    },
                }
            }),
    {
        let overlay_docs: usize = old_overlay.docs.len().saturating_add(
            new_files.len(),
        ).saturating_sub(newly_changed.len());
        if base_doc_count == old_overlay.base_doc_count {
            let mut v = old_overlay.without(newly_changed, removed_paths);
            if !v.push_files(new_files) {
                return Err(IndexError::DocIdOverflow { base_doc_count, overlay_docs });
            }
            return Ok(v);
        }
        let mut v = Self::starting_at(base_doc_count);
        let ghost docs = old_overlay.documents();
        let ghost removed = removed_paths@;
        let ghost changed = newly_changed@;
        let mut i: usize = 0;
        assert(v.documents() =~= renumbered(
            carried(docs.take(0), removed, changed),
            base_doc_count,
        ));
        while i < old_overlay.docs.len()
            invariant
                v.wf(),
                v.base_doc_count == base_doc_count,
                docs == old_overlay.documents(),
                newly_changed.wf(),
                removed_paths.wf(),
                removed == removed_paths@,
                changed == newly_changed@,
                i <= docs.len(),
                v.documents() == renumbered(
                    carried(docs.take(i as int), removed, changed),
                    base_doc_count,
                ),
                v.next_doc_id == base_doc_count + carried(
                    docs.take(i as int),
                    removed,
                    changed,
                ).len(),
                overlay_docs == Self::reported_docs(
                    docs.len(),
                    new_files@.len(),
                    newly_changed@.len(),
                ),
                base_doc_count != old_overlay.base_doc_count,
            decreases docs.len() - i,
        {
            let d: &OverlayDoc = &old_overlay.docs[i];
            let ghost kept = carried(docs.take(i as int), removed, changed);
            proof {
                let next = docs.take(i + 1);
                assert(next.drop_last() =~= docs.take(i as int));
                assert(next.last() == d@);
            }
            if !removed_paths.contains(d.path.as_slice()) && !newly_changed.contains(
                d.path.as_slice(),
            ) {
                if v.next_doc_id == u32::MAX {
                    proof {
                        lemma_carried_grows(docs, removed, changed, i + 1);
                        assert(docs.take(docs.len() as int) =~= docs);
                    }
                    return Err(IndexError::DocIdOverflow { base_doc_count, overlay_docs });
                }
                let copy = copy_doc(d, v.next_doc_id);
                let ghost shown = copy@;
                v.push_doc(copy);
                proof {
                    assert(renumbered(kept.push(d@), base_doc_count) =~= renumbered(
                        kept,
                        base_doc_count,
                    ).push(shown));
                }
            }
            i = i + 1;
        }
        assert(docs.take(i as int) =~= docs);
        if !v.push_files(new_files) {
            return Err(IndexError::DocIdOverflow { base_doc_count, overlay_docs });
        }
        Ok(v)
    }

    /// This overlay without the documents of removed and changed paths.
    fn without(&self, newly_changed: &PathSet, removed_paths: &PathSet) -> (v: Self)
        requires
            self.wf(),
            newly_changed.wf(),
            removed_paths.wf(),
        ensures
            v.wf(),
            v.documents() == carried(self.documents(), removed_paths@, newly_changed@),
            v.next_doc_id == self.next_doc_id,
            v.base_doc_count == self.base_doc_count,
    {
        let ghost docs = self.documents();
        let ghost removed = removed_paths@;
        let ghost changed = newly_changed@;
        let mut gram_index = self.gram_index.clone();
        let mut kept: Vec<OverlayDoc> = Vec::new();
        let mut i: usize = 0;
        assert(docs.take(0) =~= Seq::<OverlayDocView>::empty());
        assert(docs.skip(0) =~= docs);
        assert(doc_views(kept@) =~= carried(docs.take(0), removed, changed));
        assert(doc_views(kept@) + docs.skip(0) =~= docs);
        while i < self.docs.len()
            invariant
                self.wf(),
                docs == self.documents(),
                newly_changed.wf(),
                removed_paths.wf(),
                removed == removed_paths@,
                changed == newly_changed@,
                i <= docs.len(),
                doc_views(kept@) == carried(docs.take(i as int), removed, changed),
                index_ok(gram_index@, pairs_of(doc_views(kept@) + docs.skip(i as int))),
            decreases docs.len() - i,
        {
            let d: &OverlayDoc = &self.docs[i];
            let ghost kept0 = doc_views(kept@);
            let ghost rest = docs.skip(i + 1);
            proof {
                let next = docs.take(i + 1);
                assert(next.drop_last() =~= docs.take(i as int));
                assert(next.last() == d@);
                assert(docs.skip(i as int) =~= seq![d@] + rest);
                lemma_carried_below(docs, removed, changed, i as int);
            }
            if removed_paths.contains(d.path.as_slice()) || newly_changed.contains(
                d.path.as_slice(),
            ) {
                unindex_doc(
                    &mut gram_index,
                    &d.grams,
                    d.doc_id,
                    Ghost(pairs_of(kept0 + docs.skip(i as int))),
                );
                proof {
                    lemma_pairs_without(kept0, d@, rest);
                    assert(kept0 + docs.skip(i as int) =~= kept0 + (seq![d@] + rest));
                }
            } else {
                let copy = copy_doc(d, d.doc_id);
                assert(copy@ == d@);
                kept.push(copy);
                proof {
                    assert(doc_views(kept@) =~= kept0.push(d@));
                    assert(kept0.push(d@) + rest =~= kept0 + docs.skip(i as int));
                }
            }
            i = i + 1;
        }
        proof {
            assert(docs.take(i as int) =~= docs);
            assert(doc_views(kept@) + docs.skip(i as int) =~= doc_views(kept@));
            lemma_carried_subsequence(docs, removed, changed);
        }
        OverlayView {
            gram_index,
            docs: kept,
            next_doc_id: self.next_doc_id,
            base_doc_count: self.base_doc_count,
        }
    }

    /// The document with an id.
    pub fn get_doc(&self, global_id: u32) -> (r: Option<&OverlayDoc>)
        requires
            self.wf(),
        ensures
            match r {
                Some(d) => d.doc_id == global_id && self.documents().contains(d@),
                None => forall|i: int|
                    0 <= i < self.documents().len() ==> (#[trigger] self.documents()[i]).doc_id
                        != global_id,
            },
    {
        let ghost docs = self.documents();
        let mut lo: usize = 0;
        let mut hi: usize = self.docs.len();
        while lo < hi
            invariant
                docs == self.documents(),
                ids_ascending(docs),
                lo <= hi <= docs.len(),
                forall|i: int| 0 <= i < lo ==> (#[trigger] docs[i]).doc_id < global_id,
                forall|i: int| hi <= i < docs.len() ==> (#[trigger] docs[i]).doc_id > global_id,
            decreases hi - lo,
        {
            let mid: usize = lo + (hi - lo) / 2;
            let id: u32 = self.docs[mid].doc_id;
            assert(docs[mid as int].doc_id == id);
            if id == global_id {
                assert(docs[mid as int] == self.docs@[mid as int]@);
                return Some(&self.docs[mid]);
            } else if id < global_id {
                assert forall|i: int| 0 <= i < mid + 1 implies (#[trigger] docs[i]).doc_id
                    < global_id by {
                    if i < mid {
                        assert(docs[i].doc_id < docs[mid as int].doc_id);
                    }
                }
                lo = mid + 1;
            } else {
                assert forall|i: int| mid <= i < docs.len() implies (#[trigger] docs[i]).doc_id
                    > global_id by {
                    if mid < i {
                        assert(docs[mid as int].doc_id < docs[i].doc_id);
                    }
                }
                hi = mid;
            }
        }
        None
    }

    /// The first document of a path. Paths are told apart by their components.
    pub fn get_doc_by_path(&self, path: &[u8]) -> (r: Option<&OverlayDoc>)
        ensures
            match r {
                Some(d) => lookup(self.documents(), path_resolve::normal(path@)) == Some(d@),
                None => lookup(self.documents(), path_resolve::normal(path@)) is None,
            },
    {
        let ghost docs = self.documents();
        let ghost p = path_resolve::normal(path@);
        let mut i: usize = 0;
        assert(docs.take(0).len() == 0);
        while i < self.docs.len()
            invariant
                docs == self.documents(),
                p == path_resolve::normal(path@),
                i <= self.docs@.len(),
                lookup(docs.take(i as int), p) is None,
            decreases self.docs@.len() - i,
        {
            proof {
                assert(docs[i as int] == self.docs@[i as int]@);
                assert(docs.take(i + 1).drop_last() =~= docs.take(i as int));
                path_resolve::law_normal_form_tells_paths_apart(docs[i as int].path, path@);
            }
            if path_resolve::same_path(self.docs[i].path.as_slice(), path) {
                proof {
                    lemma_lookup_prefix(docs, p, i + 1);
                }
                return Some(&self.docs[i]);
            }
            i = i + 1;
        }
        assert(docs.take(i as int) =~= docs);
        None
    }
}

/// The first document whose path has the normal form `path`.
pub open spec fn lookup(docs: Seq<OverlayDocView>, path: Seq<u8>) -> Option<OverlayDocView>
    decreases docs.len(),
{
    if docs.len() == 0 {
        None
    } else {
        match lookup(docs.drop_last(), path) {
            Some(d) => Some(d),
            None => if path_resolve::normal(docs.last().path) == path {
                Some(docs.last())
            } else {
                None
            },
        }
    }
}

proof fn lemma_lookup_prefix(docs: Seq<OverlayDocView>, path: Seq<u8>, i: int)
    requires
        0 <= i <= docs.len(),
        lookup(docs.take(i), path) is Some,
    ensures
        lookup(docs, path) == lookup(docs.take(i), path),
    decreases docs.len() - i,
{
    if i < docs.len() {
        assert(docs.take(i + 1).drop_last() =~= docs.take(i));
        lemma_lookup_prefix(docs, path, i + 1);
    } else {
        assert(docs.take(i) =~= docs);
    }
}

proof fn lemma_lookup_sum(a: Seq<OverlayDocView>, b: Seq<OverlayDocView>, path: Seq<u8>)
    ensures
        lookup(a + b, path) == (match lookup(a, path) {
            Some(d) => Some(d),
            None => lookup(b, path),
        }),
    decreases b.len(),
{
    if b.len() == 0 {
        assert(a + b =~= a);
    } else {
        assert((a + b).drop_last() =~= a + b.drop_last());
        lemma_lookup_sum(a, b.drop_last(), path);
    }
}

proof fn lemma_lookup_carried(
    docs: Seq<OverlayDocView>,
    removed: Set<Seq<u8>>,
    changed: Set<Seq<u8>>,
    path: Seq<u8>,
)
    ensures
        lookup(carried(docs, removed, changed), path) == (if removed.contains(path)
            || changed.contains(path) {
            None
        } else {
            lookup(docs, path)
        }),
    decreases docs.len(),
{
    if docs.len() > 0 {
        let rest = carried(docs.drop_last(), removed, changed);
        lemma_lookup_carried(docs.drop_last(), removed, changed, path);
        assert(rest.push(docs.last()).drop_last() =~= rest);
    }
}

proof fn lemma_lookup_renumbered(docs: Seq<OverlayDocView>, first: u32, path: Seq<u8>)
    ensures
        same_file(lookup(renumbered(docs, first), path), lookup(docs, path)),
    decreases docs.len(),
{
    let r = renumbered(docs, first);
    if docs.len() > 0 {
        assert(r.drop_last() =~= renumbered(docs.drop_last(), first));
        lemma_lookup_renumbered(docs.drop_last(), first, path);
    }
}

proof fn lemma_lookup_numbered(files: Seq<NewFile>, first: u32, path: Seq<u8>)
    requires
        distinct_files(files),
    ensures
        forall|i: int|
            0 <= i < files.len() && path_resolve::normal((#[trigger] files[i]).path@) == path
                ==> lookup(numbered(files, first), path) == Some(
                as_doc(files[i], (first + i) as u32),
            ),
        (forall|i: int|
            0 <= i < files.len() ==> path_resolve::normal((#[trigger] files[i]).path@) != path)
            ==> lookup(numbered(files, first), path) is None,
    decreases files.len(),
{
    let docs = numbered(files, first);
    if files.len() > 0 {
        let front = files.drop_last();
        let n = files.len() - 1;
        assert(docs.drop_last() =~= numbered(front, first));
        assert forall|i: int, j: int| 0 <= i < j < front.len() implies path_resolve::normal(
            (#[trigger] front[i]).path@,
        ) != path_resolve::normal((#[trigger] front[j]).path@) by {
            assert(front[i] == files[i] && front[j] == files[j]);
        }
        lemma_lookup_numbered(front, first, path);
        assert(docs.last() == as_doc(files[n], (first + n) as u32));
        if path_resolve::normal(files[n].path@) == path {
            assert forall|i: int| 0 <= i < front.len() implies path_resolve::normal(
                (#[trigger] front[i]).path@,
            ) != path by {
                assert(front[i] == files[i]);
                assert(path_resolve::normal(files[i].path@) != path_resolve::normal(
                    files[n].path@,
                ));
            }
        }
        assert forall|i: int|
            0 <= i < files.len() && path_resolve::normal((#[trigger] files[i]).path@)
                == path implies lookup(docs, path) == Some(
            as_doc(files[i], (first + i) as u32),
        ) by {
            if i < n {
                assert(front[i] == files[i]);
            }
        }
        if forall|i: int|
            0 <= i < files.len() ==> path_resolve::normal((#[trigger] files[i]).path@) != path {
            assert forall|i: int| 0 <= i < front.len() implies path_resolve::normal(
                (#[trigger] front[i]).path@,
            ) != path by {
                assert(front[i] == files[i]);
            }
            assert(path_resolve::normal(files[n].path@) != path);
        }
    }
}

/// No two files have the same path.
pub open spec fn distinct_files(files: Seq<NewFile>) -> bool {
    forall|i: int, j: int|
        0 <= i < j < files.len() ==> path_resolve::normal((#[trigger] files[i]).path@)
            != path_resolve::normal((#[trigger] files[j]).path@)
}

/// Two lookups find nothing, or the same file under whatever ids.
pub open spec fn same_file(a: Option<OverlayDocView>, b: Option<OverlayDocView>) -> bool {
    match (a, b) {
        (None, None) => true,
        (Some(x), Some(y)) => x == (OverlayDocView { doc_id: x.doc_id, ..y }),
        _ => false,
    }
}

/// The documents after files came and went.
pub open spec fn rebuilt(
    old_docs: Seq<OverlayDocView>,
    same_base: bool,
    base_doc_count: u32,
    first: u32,
    files: Seq<NewFile>,
    changed: Set<Seq<u8>>,
    removed: Set<Seq<u8>>,
) -> Seq<OverlayDocView> {
    let kept = carried(old_docs, removed, changed);
    (if same_base {
        kept
    } else {
        renumbered(kept, base_doc_count)
    }) + numbered(files, first)
}

/// What a lookup gives after changed files were put in: a new file with its own
/// path and content, nothing for a changed or removed path without a file, and for
/// every other path what it gave before. Paths are told apart by their components.
pub proof fn law_lookups_after_a_rebuild(
    old_docs: Seq<OverlayDocView>,
    same_base: bool,
    base_doc_count: u32,
    first: u32,
    files: Seq<NewFile>,
    changed: Set<Seq<u8>>,
    removed: Set<Seq<u8>>,
    path: Seq<u8>,
)
    requires
        distinct_files(files),
        forall|i: int|
            0 <= i < files.len() ==> changed.contains(
                path_resolve::normal((#[trigger] files[i]).path@),
            ),
    ensures
        ({
            let docs = rebuilt(
                old_docs,
                same_base,
                base_doc_count,
                first,
                files,
                changed,
                removed,
            );
            let p = path_resolve::normal(path);
            &&& forall|i: int|
                0 <= i < files.len() && path_resolve::normal((#[trigger] files[i]).path@) == p
                    ==> (lookup(docs, p) matches Some(d) && d.path == files[i].path@ && d.content
                    == files[i].content@ && d.grams == files[i].grams@)
            &&& (changed.contains(p) || removed.contains(p)) && (forall|i: int|
                0 <= i < files.len() ==> path_resolve::normal((#[trigger] files[i]).path@) != p)
                ==> lookup(docs, p) is None
            &&& !changed.contains(p) && !removed.contains(p) ==> same_file(
                lookup(docs, p),
                lookup(old_docs, p),
            )
        }),
{
    let p = path_resolve::normal(path);
    let kept = carried(old_docs, removed, changed);
    let new = numbered(files, first);
    let front = if same_base {
        kept
    } else {
        renumbered(kept, base_doc_count)
    };
    lemma_lookup_carried(old_docs, removed, changed, p);
    lemma_lookup_renumbered(kept, base_doc_count, p);
    lemma_lookup_sum(front, new, p);
    lemma_lookup_numbered(files, first, p);
}

proof fn lemma_carried_grows(
    docs: Seq<OverlayDocView>,
    removed: Set<Seq<u8>>,
    changed: Set<Seq<u8>>,
    i: int,
)
    requires
        0 <= i <= docs.len(),
    ensures
        carried(docs.take(i), removed, changed).len() <= carried(docs, removed, changed).len(),
    decreases docs.len() - i,
{
    if i < docs.len() {
        lemma_carried_grows(docs, removed, changed, i + 1);
        assert(docs.take(i + 1).drop_last() =~= docs.take(i));
    } else {
        assert(docs.take(i) =~= docs);
    }
}

/// Carried documents are documents, in the same order.
proof fn lemma_carried_subsequence(
    docs: Seq<OverlayDocView>,
    removed: Set<Seq<u8>>,
    changed: Set<Seq<u8>>,
)
    requires
        ids_ascending(docs),
    ensures
        ids_ascending(carried(docs, removed, changed)),
        forall|i: int|
            0 <= i < carried(docs, removed, changed).len() ==> docs.contains(
                #[trigger] carried(docs, removed, changed)[i],
            ),
    decreases docs.len(),
{
    if docs.len() > 0 {
        let head = docs.drop_last();
        let rest = carried(head, removed, changed);
        let kept = carried(docs, removed, changed);
        lemma_carried_subsequence(head, removed, changed);
        assert forall|i: int| 0 <= i < kept.len() implies docs.contains(#[trigger] kept[i]) by {
            if i < rest.len() {
                assert(head.contains(rest[i]));
                let k = choose|k: int| 0 <= k < head.len() && head[k] == rest[i];
                assert(docs[k] == kept[i]);
            } else {
                assert(docs[docs.len() - 1] == kept[i]);
            }
        }
        assert forall|i: int, j: int| 0 <= i < j < kept.len() implies kept[i].doc_id
            < kept[j].doc_id by {
            if j == rest.len() {
                assert(head.contains(rest[i]));
                let k = choose|k: int| 0 <= k < head.len() && head[k] == rest[i];
                assert(docs[k].doc_id < docs[docs.len() - 1].doc_id);
            }
        }
    }
}

/// Documents carried from before position `i` have smaller ids than the one
/// at `i`.
proof fn lemma_carried_below(
    docs: Seq<OverlayDocView>,
    removed: Set<Seq<u8>>,
    changed: Set<Seq<u8>>,
    i: int,
)
    requires
        ids_ascending(docs),
        0 <= i < docs.len(),
    ensures
        forall|k: int|
            0 <= k < carried(docs.take(i), removed, changed).len() ==> (
            #[trigger] carried(docs.take(i), removed, changed)[k]).doc_id < docs[i].doc_id,
        forall|k: int|
            0 <= k < docs.skip(i + 1).len() ==> (#[trigger] docs.skip(i + 1)[k]).doc_id
                > docs[i].doc_id,
{
    let head = docs.take(i);
    assert(ids_ascending(head)) by {
        assert forall|a: int, b: int| 0 <= a < b < head.len() implies head[a].doc_id
            < head[b].doc_id by {
            assert(docs[a].doc_id < docs[b].doc_id);
        }
    }
    lemma_carried_subsequence(head, removed, changed);
    let kept = carried(head, removed, changed);
    assert forall|k: int| 0 <= k < kept.len() implies (#[trigger] kept[k]).doc_id
        < docs[i].doc_id by {
        assert(head.contains(kept[k]));
        let j = choose|j: int| 0 <= j < head.len() && head[j] == kept[k];
        assert(docs[j].doc_id < docs[i].doc_id);
    }
    let tail = docs.skip(i + 1);
    assert forall|k: int| 0 <= k < tail.len() implies (#[trigger] tail[k]).doc_id
        > docs[i].doc_id by {
        assert(tail[k] == docs[i + 1 + k]);
        assert(docs[i].doc_id < docs[i + 1 + k].doc_id);
    }
}

/// Striking the pairs of one document leaves those of the others.
proof fn lemma_pairs_without(a: Seq<OverlayDocView>, d: OverlayDocView, b: Seq<OverlayDocView>)
    requires
        forall|k: int| 0 <= k < a.len() ==> (#[trigger] a[k]).doc_id < d.doc_id,
        forall|k: int| 0 <= k < b.len() ==> (#[trigger] b[k]).doc_id > d.doc_id,
    ensures
        pairs_of(a + (seq![d] + b)).difference(doc_pairs(d.doc_id, d.grams)) == pairs_of(a + b),
{
    let all = a + (seq![d] + b);
    let less = a + b;
    assert forall|p: (u64, u32)|
        pairs_of(all).difference(doc_pairs(d.doc_id, d.grams)).contains(p) <==> pairs_of(
            less,
        ).contains(p) by {
        if pairs_of(all).contains(p) && !doc_pairs(d.doc_id, d.grams).contains(p) {
            let i = choose|i: int|
                #![trigger all[i]]
                0 <= i < all.len() && all[i].doc_id == p.1 && all[i].grams.contains(p.0);
            if i < a.len() {
                assert(less[i] == all[i]);
            } else if i > a.len() {
                assert(less[i - 1] == all[i]);
            }
        }
        if pairs_of(less).contains(p) {
            let i = choose|i: int|
                #![trigger less[i]]
                0 <= i < less.len() && less[i].doc_id == p.1 && less[i].grams.contains(p.0);
            if i < a.len() {
                assert(a[i] == less[i]);
                assert(all[i] == less[i]);
            } else {
                assert(b[i - a.len()] == less[i]);
                assert(all[i + 1] == less[i]);
            }
        }
    }
    assert(pairs_of(all).difference(doc_pairs(d.doc_id, d.grams)) =~= pairs_of(less));
}

/// A lookup by path finds the first document of the path, and nothing exactly if there is
/// none.
pub proof fn law_lookups_find_the_first(docs: Seq<OverlayDocView>, path: Seq<u8>)
    ensures
        lookup(docs, path) is None <==> forall|i: int|
            0 <= i < docs.len() ==> path_resolve::normal((#[trigger] docs[i]).path) != path,
        lookup(docs, path) matches Some(d) ==> exists|i: int|
            0 <= i < docs.len() && #[trigger] docs[i] == d && path_resolve::normal(d.path) == path
                && forall|k: int|
                0 <= k < i ==> path_resolve::normal((#[trigger] docs[k]).path) != path,
    decreases docs.len(),
{
    if docs.len() > 0 {
        let front = docs.drop_last();
        law_lookups_find_the_first(front, path);
        match lookup(front, path) {
            Some(d) => {
                let i = choose|i: int|
                    0 <= i < front.len() && #[trigger] front[i] == d && path_resolve::normal(d.path)
                        == path && forall|k: int|
                        0 <= k < i ==> path_resolve::normal((#[trigger] front[k]).path) != path;
                assert(docs[i] == d);
                assert forall|k: int| 0 <= k < i implies path_resolve::normal(
                    (#[trigger] docs[k]).path,
                ) != path by {
                    assert(front[k] == docs[k]);
                }
            },
            None => {
                assert forall|k: int| 0 <= k < front.len() implies path_resolve::normal(
                    (#[trigger] docs[k]).path,
                ) != path by {
                    assert(front[k] == docs[k]);
                }
                assert(docs[docs.len() - 1] == docs.last());
            },
        }
    }
}

} // verus!
