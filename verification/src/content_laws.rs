//! What becomes of the content of a file: its text, whether it is binary, its lines.

use crate::commit_laws;
use crate::encoding;
use crate::error::IndexError;
use crate::mem_index;
use crate::overlay::OverlayDocView;
use crate::path_laws;
use crate::path_resolve;
use crate::paths::PathMap;
use crate::references;
use crate::search;
use crate::snapshot::IndexSnapshot;
use std::sync::Arc;
use vstd::prelude::*;

verus! {

/// Content is indexed as it is, but for a byte order mark: that of UTF-8 is dropped, and
/// only content with one of UTF-16 is transcoded.
pub proof fn law_content_is_kept(b: Seq<u8>)
    ensures
        encoding::normalized(seq![0xEFu8, 0xBB, 0xBF] + b) == b,
        !(b.len() >= 3 && b[0] == 0xEF && b[1] == 0xBB && b[2] == 0xBF) && !(b.len() >= 2 && b[0]
            == 0xFF && b[1] == 0xFE) && !(b.len() >= 2 && b[0] == 0xFE && b[1] == 0xFF)
            ==> encoding::normalized(b) == b,
{
    let marked = seq![0xEFu8, 0xBB, 0xBF] + b;
    assert(marked[0] == 0xEF && marked[1] == 0xBB && marked[2] == 0xBF);
    assert(marked.skip(3) =~= b);
}

/// Content is binary exactly if one of its first 8192 bytes is zero; what follows them
/// makes no difference.
pub proof fn law_binary_content_has_an_early_zero(b: Seq<u8>, more: Seq<u8>)
    ensures
        encoding::binary(b) <==> exists|i: int| 0 <= i < b.len() && i < 8192 && b[i] == 0,
        b.len() >= 8192 ==> encoding::binary(b + more) == encoding::binary(b),
        b.len() <= 8192 ==> (encoding::binary(b) <==> b.contains(0)),
{
    let all = b + more;
    if b.len() >= 8192 {
        if encoding::binary(b) {
            let i = choose|i: int| 0 <= i < b.len() && i < encoding::BINARY_PROBE && b[i] == 0;
            assert(all[i] == 0);
        }
        if encoding::binary(all) {
            let i = choose|i: int| 0 <= i < all.len() && i < encoding::BINARY_PROBE && all[i] == 0;
            assert(b[i] == 0);
        }
    }
}

/// A line ends at a newline, without it and without one carriage return before it; what
/// follows is split in the same way. What follows the last newline is a line as it is,
/// unless it is empty.
pub proof fn law_lines_end_at_newlines(line: Seq<u8>, rest: Seq<u8>)
    requires
        forall|i: int| 0 <= i < line.len() ==> line[i] != 0x0A,
    ensures
        search::lines_of(line + seq![0x0Au8] + rest) == seq![
            if line.len() > 0 && line.last() == 0x0D {
                line.drop_last()
            } else {
                line
            },
        ] + search::lines_of(rest),
        line.len() > 0 ==> search::lines_of(line) == seq![line],
        search::lines_of(Seq::<u8>::empty()) == Seq::<Seq<u8>>::empty(),
{
    let all = line + seq![0x0Au8] + rest;
    search::lemma_line_len_is(all, line.len());
    assert(all.take(line.len() as int) =~= line);
    assert(all.skip(line.len() as int + 1) =~= rest);
    search::lemma_line_len_is(line, line.len());
}

/// A pattern for names matches one of them: that of two lists is that of the first, a
/// bar, and that of the second; and that of a single name is the name with its special
/// characters escaped.
pub proof fn law_patterns_are_alternatives(a: Seq<Seq<char>>, b: Seq<Seq<char>>, name: Seq<char>)
    requires
        a.len() > 0,
        b.len() > 0,
    ensures
        references::alternation(a + b) == references::alternation(a) + "|"@
            + references::alternation(b),
        references::alternation(seq![name]) == references::escaped(name),
    decreases b.len(),
{
    let all = a + b;
    assert(all.drop_last() =~= a + b.drop_last());
    assert(all.last() == b.last());
    if b.len() == 1 {
        assert(a + b.drop_last() =~= a);
        assert(b[0] == b.last());
    } else {
        law_patterns_are_alternatives(a, b.drop_last(), name);
        assert(references::alternation(all) =~= references::alternation(a) + "|"@
            + references::alternation(b));
    }
}

/// An id of a document in memory is valid exactly if it is a plain path that does not
/// lead out of the index.
pub proof fn law_valid_ids_are_plain_paths(id: Seq<u8>)
    ensures
        path_laws::plain(id) ==> (mem_index::valid_id(id) <==> !path_resolve::components(
            id,
        ).contains(seq![0x2Eu8, 0x2Eu8])),
        mem_index::valid_id(id) ==> id.len() > 0 && id[0] != 0x2F && id.last() != 0x2F
            && path_resolve::normal(id) == id,
{
    let ns = path_resolve::names(id);
    let up = seq![0x2Eu8, 0x2Eu8];
    assert(path_resolve::dot_dot() =~= up);
    if path_laws::plain(id) {
        path_laws::lemma_plain_joined(id);
        path_laws::lemma_plain_names(id);
        if ns.contains(up) {
            let i = choose|i: int| 0 <= i < ns.len() && ns[i] == up;
            assert(ns[i] == path_resolve::dot_dot());
        }
        assert forall|i: int| 0 <= i < ns.len() implies !path_resolve::is_void(#[trigger] ns[i])
            && (ns[i] == path_resolve::dot_dot() ==> ns.contains(up)) by {}
    }
    if mem_index::valid_id(id) {
        path_resolve::lemma_names_are_components(id);
        path_laws::lemma_valid_text(id);
    }
}

/// How many of the first `n` files are text.
pub open spec fn texts_among(contents: Seq<Arc<Vec<u8>>>, n: int) -> nat
    decreases n,
{
    if n <= 0 {
        0
    } else {
        texts_among(contents, n - 1) + if encoding::binary(
            encoding::normalized(contents[n - 1]@),
        ) {
            0nat
        } else {
            1
        }
    }
}

/// An index in memory has one document for each file that is text, in the order of the
/// files, with its id, its text and all its grams, and no other document.
pub proof fn law_memory_holds_every_text(
    keys: Seq<Seq<u8>>,
    contents: Seq<Arc<Vec<u8>>>,
    grams: Seq<Vec<u64>>,
    n: nat,
    i: int,
)
    requires
        n <= keys.len(),
        keys.len() == contents.len(),
        keys.len() == grams.len(),
        n <= u32::MAX,
    ensures
        ({
            let docs = mem_index::mem_documents(keys, contents, grams, n);
            let at = texts_among(contents, i);
            let text = encoding::normalized(contents[i]@);
            &&& docs.len() == texts_among(contents, n as int)
            &&& 0 <= i < n && !encoding::binary(text) ==> at < docs.len() && docs[at as int] == (
            OverlayDocView { doc_id: at as u32, path: keys[i], content: text, grams: grams[i]@ })
        }),
    decreases n,
{
    if n > 0 {
        law_memory_holds_every_text(keys, contents, grams, (n - 1) as nat, i);
    }
}

/// An index in memory shows every file that is text, under its id, with its text, and
/// listed under exactly its grams; and it shows as many documents as there are texts.
pub proof fn law_memory_shows_every_text(
    s: IndexSnapshot,
    files: PathMap<Arc<Vec<u8>>>,
    grams: Seq<Vec<u64>>,
    i: int,
)
    requires
        mem_index::is_overlay_snapshot(Ok::<IndexSnapshot, IndexError>(s), files, grams),
        files.values@.len() == files.keys.seq().len(),
        grams.len() == files.values@.len(),
        files.keys.seq().len() <= u32::MAX,
        0 <= i < files.values@.len(),
        !encoding::binary(encoding::normalized(files.values@[i]@)),
    ensures
        commit_laws::holds(
            s.overlay,
            texts_among(files.values@, i) as int,
            files.keys.seq()[i],
            encoding::normalized(files.values@[i]@),
            grams[i]@,
        ),
        s.overlay.docs@.len() == texts_among(files.values@, files.values@.len() as int),
        s.segs().len() == 0,
        forall|d: u32| !s.deleted().contains(d),
{
    let keys = files.keys.seq();
    let docs = mem_index::mem_documents(keys, files.values@, grams, keys.len());
    law_memory_holds_every_text(keys, files.values@, grams, keys.len(), i);
    let k = texts_among(files.values@, i) as int;
    let d = s.overlay.docs@[k];
    assert(s.overlay.documents().len() == s.overlay.docs@.len());
    assert(docs[k] == d@);
    assert(mem_index::valid_id(keys[i]));
    law_valid_ids_are_plain_paths(keys[i]);
    assert forall|g: u64| #[trigger] commit_laws::lists(s.overlay, g, d.doc_id) <==> grams[i]@.contains(
        g,
    ) by {
        commit_laws::law_overlay_lists_every_gram(s.overlay, g, d.doc_id);
    }
}

} // verus!
