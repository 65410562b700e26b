//! What a reader gets back of a written segment.

use crate::bitmap;
use crate::error::Corruption;
use crate::hash;
use crate::le;
use crate::order;
use crate::posting;
use crate::posting::PostingList;
use crate::segment::layout;
use crate::segment::layout::{
    DictEntry, DocView, DICT_ENTRY_SIZE, DOC_RECORD_FIXED, FOOTER_SIZE, FORMAT_VERSION,
    HEADER_SIZE, MAX_POSTING_BYTES, POSTING_HEADER, POST_MAGIC_SIZE,
};
use crate::segment::reader;
use crate::segment::reader::{DictVerify, MmapSegment, PostVerify, PostingsBacking, SegmentLayout};
use crate::segment::writer;
use crate::segment::writer::SegmentError;
use vstd::prelude::*;

verus! {

/// The part of `a + b + c` that comes from `b`.
proof fn lemma_middle(a: Seq<u8>, b: Seq<u8>, c: Seq<u8>, i: int, j: int)
    requires
        0 <= i <= j <= b.len(),
    ensures
        (a + b + c).subrange(a.len() + i, a.len() + j) == b.subrange(i, j),
{
    assert((a + b + c).subrange(a.len() + i, a.len() + j) =~= b.subrange(i, j));
}

proof fn lemma_table_len(docs: Seq<DocView>, k: nat)
    ensures
        layout::doc_table(docs, k).len() == 8 * k,
    decreases k,
{
    broadcast use le::group_le_len;

    if k > 0 {
        lemma_table_len(docs, (k - 1) as nat);
    }
}

proof fn lemma_table_row(docs: Seq<DocView>, k: nat, i: int)
    requires
        0 <= i < k,
    ensures
        layout::doc_table(docs, k).len() == 8 * k,
        layout::doc_table(docs, k).subrange(8 * i, 8 * i + 8) == le::le64(
            layout::doc_offset(docs, i) as u64,
        ),
    decreases k,
{
    broadcast use le::group_le_len;

    lemma_table_len(docs, k);
    lemma_table_len(docs, (k - 1) as nat);
    let t = layout::doc_table(docs, k);
    let head = layout::doc_table(docs, (k - 1) as nat);
    if i < k - 1 {
        lemma_table_row(docs, (k - 1) as nat, i);
        assert(t.subrange(8 * i, 8 * i + 8) =~= head.subrange(8 * i, 8 * i + 8));
    } else {
        assert(t.subrange(8 * i, 8 * i + 8) =~= le::le64(layout::doc_offset(docs, i) as u64));
    }
}

proof fn lemma_record_at(docs: Seq<DocView>, i: int)
    requires
        0 <= i < docs.len(),
    ensures
        ({
            let at = layout::doc_records(docs.take(i)).len() as int;
            let n = layout::doc_record(docs[i]).len() as int;
            at + n <= layout::doc_records(docs).len() && layout::doc_records(docs).subrange(
                at,
                at + n,
            ) == layout::doc_record(docs[i])
        }),
    decreases docs.len(),
{
    let all = layout::doc_records(docs);
    let head = docs.drop_last();
    let at = layout::doc_records(docs.take(i)).len() as int;
    let n = layout::doc_record(docs[i]).len() as int;
    if i < docs.len() - 1 {
        lemma_record_at(head, i);
        assert(head.take(i) =~= docs.take(i));
        assert(all.subrange(at, at + n) =~= layout::doc_records(head).subrange(at, at + n));
    } else {
        assert(docs.take(i) =~= head);
        assert(all.subrange(at, at + n) =~= layout::doc_record(docs[i]));
    }
}

proof fn lemma_dict_row(es: Seq<DictEntry>, i: int)
    requires
        0 <= i < es.len(),
    ensures
        layout::dict_records(es).len() == DICT_ENTRY_SIZE * es.len(),
        layout::dict_records(es).subrange(DICT_ENTRY_SIZE * i, DICT_ENTRY_SIZE * i + 20)
            == layout::dict_record(es[i]),
    decreases es.len(),
{
    broadcast use le::group_le_len;

    lemma_dict_len(es);
    let head = es.drop_last();
    lemma_dict_len(head);
    let all = layout::dict_records(es);
    if i < es.len() - 1 {
        lemma_dict_row(head, i);
        assert(all.subrange(20 * i, 20 * i + 20) =~= layout::dict_records(head).subrange(
            20 * i,
            20 * i + 20,
        ));
    } else {
        assert(all.subrange(20 * i, 20 * i + 20) =~= layout::dict_record(es[i]));
    }
}

proof fn lemma_dict_len(es: Seq<DictEntry>)
    ensures
        layout::dict_records(es).len() == DICT_ENTRY_SIZE * es.len(),
    decreases es.len(),
{
    broadcast use le::group_le_len;

    if es.len() > 0 {
        lemma_dict_len(es.drop_last());
    }
}

proof fn lemma_concat_at(rs: Seq<Seq<u8>>, i: int)
    requires
        0 <= i < rs.len(),
    ensures
        ({
            let at = layout::concat_all(rs.take(i)).len() as int;
            let n = rs[i].len() as int;
            at + n <= layout::concat_all(rs).len() && layout::concat_all(rs).subrange(at, at + n)
                == rs[i]
        }),
    decreases rs.len(),
{
    let all = layout::concat_all(rs);
    let head = rs.drop_last();
    let at = layout::concat_all(rs.take(i)).len() as int;
    let n = rs[i].len() as int;
    if i < rs.len() - 1 {
        lemma_concat_at(head, i);
        assert(head.take(i) =~= rs.take(i));
        assert(all.subrange(at, at + n) =~= layout::concat_all(head).subrange(at, at + n));
    } else {
        assert(rs.take(i) =~= head);
        assert(all.subrange(at, at + n) =~= rs[i]);
    }
}

/// The sizes of the parts of a dictionary file.
proof fn lemma_content_len(docs: Seq<DocView>, es: Seq<DictEntry>)
    ensures
        layout::header(docs, es).len() == HEADER_SIZE,
        layout::dict_content(docs, es).len() == layout::dict_start(docs) + DICT_ENTRY_SIZE
            * es.len(),
        layout::footer(docs, es).len() == FOOTER_SIZE,
        layout::docs_end(docs) <= layout::dict_start(docs),
{
    broadcast use le::group_le_len;

    lemma_table_len(docs, docs.len());
    lemma_dict_len(es);
}

/// The fields of a written footer.
proof fn lemma_footer_fields(docs: Seq<DocView>, es: Seq<DictEntry>)
    requires
        layout::dict_start(docs) <= u64::MAX,
        docs.len() <= u32::MAX,
        es.len() <= u32::MAX,
    ensures
        ({
            let b = layout::dict_image(docs, es);
            let foot = b.len() - FOOTER_SIZE;
            &&& b.len() >= HEADER_SIZE + FOOTER_SIZE
            &&& foot == layout::dict_start(docs) + DICT_ENTRY_SIZE * es.len()
            &&& le::u64_at(b, foot) == HEADER_SIZE
            &&& le::u64_at(b, foot + 16) == layout::dict_start(docs)
            &&& le::u32_at(b, foot + 24) == docs.len()
            &&& le::u32_at(b, foot + 28) == es.len()
            &&& le::u32_at(b, foot + 40) == FORMAT_VERSION
            &&& reader::checksum_ok(b)
            &&& b.subrange(foot + 44, foot + 48) == layout::magic()
            &&& b.take(4) == layout::magic()
        }),
{
    broadcast use le::group_le_len;

    reveal(layout::dict_image);
    lemma_content_len(docs, es);
    let b = layout::dict_image(docs, es);
    let content = layout::dict_content(docs, es);
    let f = layout::footer(docs, es);
    let foot = content.len() as int;
    let dict = layout::dict_start(docs) as u64;
    let sum = hash::xxh64_of(content, 0);
    assert(b.subrange(foot, foot + 8) =~= le::le64(HEADER_SIZE as u64));
    le::lemma_u64_at(b, foot, HEADER_SIZE as u64);
    assert(b.subrange(foot + 16, foot + 24) =~= le::le64(dict));
    le::lemma_u64_at(b, foot + 16, dict);
    assert(b.subrange(foot + 24, foot + 28) =~= le::le32(docs.len() as u32));
    le::lemma_u32_at(b, foot + 24, docs.len() as u32);
    assert(b.subrange(foot + 28, foot + 32) =~= le::le32(es.len() as u32));
    le::lemma_u32_at(b, foot + 28, es.len() as u32);
    assert(b.subrange(foot + 32, foot + 40) =~= le::le64(sum));
    le::lemma_u64_at(b, foot + 32, sum);
    assert(b.subrange(foot + 40, foot + 44) =~= le::le32(FORMAT_VERSION));
    le::lemma_u32_at(b, foot + 40, FORMAT_VERSION);
    assert(b.subrange(foot + 44, foot + 48) =~= layout::magic());
    assert(b.take(b.len() - FOOTER_SIZE) =~= content);
    assert(layout::header(docs, es).take(4) =~= layout::magic());
    assert(b.take(4) =~= layout::header(docs, es).take(4));
}

/// Document record `i` where the document table says it is.
proof fn lemma_doc_in_image(docs: Seq<DocView>, es: Seq<DictEntry>, i: u32)
    requires
        i < docs.len(),
        docs.len() <= u32::MAX,
        layout::dict_start(docs) <= u64::MAX,
        docs[i as int].path.len() <= u16::MAX,
    ensures
        reader::doc_in(
            layout::dict_image(docs, es),
            HEADER_SIZE as int,
            layout::dict_start(docs),
            i,
        ) == Some(docs[i as int]),
{
    broadcast use le::group_le_len;

    reveal(layout::dict_image);
    lemma_content_len(docs, es);
    lemma_table_row(docs, docs.len(), i as int);
    lemma_record_at(docs, i as int);
    let b = layout::dict_image(docs, es);
    let head = layout::header(docs, es);
    let table = layout::doc_table(docs, docs.len());
    let records = layout::doc_records(docs);
    let rest = layout::zeros(layout::padding(layout::docs_end(docs))) + layout::dict_records(es)
        + layout::footer(docs, es);
    assert(b =~= head + table + (records + rest));
    lemma_middle(head, table, records + rest, 8 * i, 8 * i + 8);
    let off = layout::doc_offset(docs, i as int);
    le::lemma_u64_at(b, HEADER_SIZE + 8 * i, off as u64);

    let d = docs[i as int];
    let rec = layout::doc_record(d);
    let at = layout::doc_records(docs.take(i as int)).len() as int;
    let n = rec.len() as int;
    assert(b =~= (head + table) + records + rest);
    lemma_middle(head + table, records, rest, at, at + n);
    assert(b.subrange(off, off + n) == rec);
    assert(n == DOC_RECORD_FIXED + d.path.len());
    assert(b.subrange(off, off + 4) =~= rec.subrange(0, 4));
    assert(rec.subrange(0, 4) =~= le::le32(d.doc_id));
    le::lemma_u32_at(b, off, d.doc_id);
    assert(b.subrange(off + 4, off + 12) =~= rec.subrange(4, 12));
    assert(rec.subrange(4, 12) =~= le::le64(d.content_hash));
    le::lemma_u64_at(b, off + 4, d.content_hash);
    assert(b.subrange(off + 12, off + 20) =~= rec.subrange(12, 20));
    assert(rec.subrange(12, 20) =~= le::le64(d.size_bytes));
    le::lemma_u64_at(b, off + 12, d.size_bytes);
    assert(b.subrange(off + 20, off + 22) =~= rec.subrange(20, 22));
    assert(rec.subrange(20, 22) =~= le::le16(d.path.len() as u16));
    le::lemma_u16_at(b, off + 20, d.path.len() as u16);
    assert(b.subrange(off + 22, off + n) =~= rec.subrange(22, n));
    assert(rec.subrange(22, n) =~= d.path);
}

/// Dictionary entry `i` where the layout says it is.
proof fn lemma_entry_in_image(docs: Seq<DocView>, es: Seq<DictEntry>, i: int)
    requires
        0 <= i < es.len(),
    ensures
        ({
            let b = layout::dict_image(docs, es);
            let at = layout::dict_start(docs) + DICT_ENTRY_SIZE * i;
            &&& at + DICT_ENTRY_SIZE <= b.len()
            &&& le::u64_at(b, at) == es[i].gram
            &&& le::u64_at(b, at + 8) == es[i].offset
            &&& le::u32_at(b, at + 16) == es[i].count
        }),
{
    broadcast use le::group_le_len;

    reveal(layout::dict_image);
    lemma_content_len(docs, es);
    lemma_table_len(docs, docs.len());
    lemma_dict_row(es, i);
    let b = layout::dict_image(docs, es);
    let front = layout::header(docs, es) + layout::doc_table(docs, docs.len())
        + layout::doc_records(docs) + layout::zeros(layout::padding(layout::docs_end(docs)));
    let dict = layout::dict_records(es);
    let foot = layout::footer(docs, es);
    assert(b =~= front + dict + foot);
    let at = layout::dict_start(docs) + DICT_ENTRY_SIZE * i;
    lemma_middle(front, dict, foot, 20 * i, 20 * i + 20);
    let e = es[i];
    let rec = layout::dict_record(e);
    assert(b.subrange(at, at + 20) == rec);
    assert(b.subrange(at, at + 8) =~= rec.subrange(0, 8));
    assert(rec.subrange(0, 8) =~= le::le64(e.gram));
    le::lemma_u64_at(b, at, e.gram);
    assert(b.subrange(at + 8, at + 16) =~= rec.subrange(8, 16));
    assert(rec.subrange(8, 16) =~= le::le64(e.offset));
    le::lemma_u64_at(b, at + 8, e.offset);
    assert(b.subrange(at + 16, at + 20) =~= rec.subrange(16, 20));
    assert(rec.subrange(16, 20) =~= le::le32(e.count));
    le::lemma_u32_at(b, at + 16, e.count);
}

/// A posting record read where it was written.
proof fn lemma_record_in_post(rs: Seq<Seq<u8>>, i: int, ids: Seq<u32>)
    requires
        0 <= i < rs.len(),
        layout::posting_record(rs[i], ids),
    ensures
        reader::raw_record(
            layout::post_image(rs),
            layout::concat_all(rs.take(i)).len() + POST_MAGIC_SIZE,
        ) == Some(
            (
                if ids.len() >= posting::ROARING_THRESHOLD {
                    1u8
                } else {
                    0u8
                },
                rs[i].skip(POSTING_HEADER as int),
            ),
        ),
{
    broadcast use le::group_le_len;

    reveal(layout::posting_record);
    reveal(layout::post_image);
    lemma_concat_at(rs, i);
    let p = layout::post_image(rs);
    let all = layout::concat_all(rs);
    let tail = le::le64(hash::xxh64_of(all, 0));
    let at = layout::concat_all(rs.take(i)).len() as int;
    let rec = rs[i];
    let n = rec.len() as int;
    assert(p =~= layout::post_magic() + all + tail);
    lemma_middle(layout::post_magic(), all, tail, at, at + n);
    let off = at + POST_MAGIC_SIZE;
    assert(p.subrange(off, off + n) == rec);
    let data = rec.skip(POSTING_HEADER as int);
    assert(p[off] == p.subrange(off, off + n)[0]);
    assert(p.subrange(off + 5, off + 9) =~= rec.subrange(5, 9));
    assert(rec.subrange(5, 9) =~= le::le32(data.len() as u32));
    le::lemma_u32_at(p, off + 5, data.len() as u32);
    assert(p.subrange(off + 9, off + n) =~= data);
}

/// The pairs of the groups, by group.
pub proof fn lemma_all_pairs(gs: Seq<(u64, Seq<u32>)>, g: u64, d: u32)
    ensures
        layout::all_pairs(gs).contains((g, d)) <==> exists|i: int|
            0 <= i < gs.len() && (#[trigger] gs[i]).0 == g && gs[i].1.contains(d),
    decreases gs.len(),
{
    if gs.len() > 0 {
        let head = gs.drop_last();
        let last = gs.last();
        lemma_all_pairs(head, g, d);
        let a = layout::all_pairs(head);
        let b = layout::group_pairs(last);
        let all = layout::all_pairs(gs);
        if all.contains((g, d)) {
            let k = choose|k: int| 0 <= k < all.len() && all[k] == (g, d);
            if k < a.len() {
                assert(a[k] == (g, d));
                let i = choose|i: int|
                    0 <= i < head.len() && (#[trigger] head[i]).0 == g && head[i].1.contains(d);
                assert(gs[i] == head[i]);
            } else {
                assert(b[k - a.len()] == (g, d));
                assert(last.1[k - a.len()] == d);
                assert(gs[gs.len() - 1].0 == g && gs[gs.len() - 1].1.contains(d));
            }
        }
        if exists|i: int| 0 <= i < gs.len() && (#[trigger] gs[i]).0 == g && gs[i].1.contains(d) {
            let i = choose|i: int|
                0 <= i < gs.len() && (#[trigger] gs[i]).0 == g && gs[i].1.contains(d);
            if i < gs.len() - 1 {
                assert(head[i] == gs[i]);
                assert(a.contains((g, d)));
                let k = choose|k: int| 0 <= k < a.len() && a[k] == (g, d);
                assert(all[k] == (g, d));
            } else {
                let k = choose|k: int| 0 <= k < last.1.len() && last.1[k] == d;
                assert(b[k] == (g, d));
                assert(all[a.len() + k] == (g, d));
            }
        }
    }
}

/// A written postings file passes its checks.
proof fn lemma_post_accepted(rs: Seq<Seq<u8>>)
    ensures
        reader::post_verdict(layout::post_image(rs), PostVerify::Full) is Ok,
{
    broadcast use le::group_le_len;

    reveal(layout::post_image);
    let post = layout::post_image(rs);
    let all = layout::concat_all(rs);
    let sum = hash::xxh64_of(all, 0);
    assert(post.take(8) =~= layout::post_magic());
    assert(post.subrange(8, post.len() - 8) =~= all);
    assert(post.subrange(post.len() - 8, post.len() as int) =~= le::le64(sum));
    le::lemma_u64_at(post, post.len() - 8, sum);
}

/// The size of a dictionary file.
proof fn lemma_image_len(docs: Seq<DocView>, es: Seq<DictEntry>)
    ensures
        layout::dict_image(docs, es).len() == layout::dict_start(docs) + DICT_ENTRY_SIZE * es.len()
            + FOOTER_SIZE,
        layout::docs_end(docs) <= layout::dict_start(docs),
{
    reveal(layout::dict_image);
    lemma_content_len(docs, es);
}

/// A written segment passes every check of a reader that takes its version,
/// and the layout it finds counts the documents.
pub proof fn law_written_segment_is_accepted(
    dict: Seq<u8>,
    post: Seq<u8>,
    docs: Seq<DocView>,
    postings: Seq<(u64, u32)>,
    versions: Seq<u32>,
    verify: DictVerify,
)
    requires
        layout::is_segment(dict, post, docs, postings),
        dict.len() <= usize::MAX,
        versions.contains(FORMAT_VERSION),
    ensures
        reader::layout_of(dict, versions, verify) is Ok,
        (reader::layout_of(dict, versions, verify)->Ok_0).doc_count == docs.len(),
        reader::checksum_ok(dict),
        reader::post_verdict(post, PostVerify::Full) is Ok,
{
    broadcast use le::group_le_len;

    let (sorted, gs, rs, es) = choose|
        sorted: Seq<DocView>,
        gs: Seq<(u64, Seq<u32>)>,
        rs: Seq<Seq<u8>>,
        es: Seq<DictEntry>,
    |
        #![trigger layout::segment_parts(dict, post, sorted, gs, rs, es)]
        layout::segment_parts(dict, post, sorted, gs, rs, es) && order::rearranged(docs, sorted) && (
        forall|x: (u64, u32)| layout::all_pairs(gs).contains(x) <==> postings.contains(x));
    order::lemma_rearranged_contains(docs, sorted);
    lemma_image_len(sorted, es);
    lemma_footer_fields(sorted, es);
    lemma_post_accepted(rs);
}

/// The documents of a written segment, read one by one, are the documents that
/// were handed to the writer, each once, in ascending order of their ids.
pub proof fn law_documents_read_back(
    dict: Seq<u8>,
    post: Seq<u8>,
    docs: Seq<DocView>,
    postings: Seq<(u64, u32)>,
    versions: Seq<u32>,
    verify: DictVerify,
    l: SegmentLayout,
) -> (sorted: Seq<DocView>)
    requires
        layout::is_segment(dict, post, docs, postings),
        dict.len() <= usize::MAX,
        reader::layout_of(dict, versions, verify) == Ok::<SegmentLayout, Corruption>(l),
    ensures
        sorted.len() == l.doc_count,
        order::rearranged(docs, sorted),
        layout::ids_ascending(sorted),
        forall|i: u32|
            i < l.doc_count ==> #[trigger] reader::doc_in(
                dict,
                l.doc_table_offset as int,
                l.dict_offset as int,
                i,
            ) == Some(sorted[i as int]),
{
    let (sorted, gs, rs, es) = choose|
        sorted: Seq<DocView>,
        gs: Seq<(u64, Seq<u32>)>,
        rs: Seq<Seq<u8>>,
        es: Seq<DictEntry>,
    |
        #![trigger layout::segment_parts(dict, post, sorted, gs, rs, es)]
        layout::segment_parts(dict, post, sorted, gs, rs, es) && order::rearranged(docs, sorted) && (
        forall|x: (u64, u32)| layout::all_pairs(gs).contains(x) <==> postings.contains(x));
    lemma_image_len(sorted, es);
    lemma_footer_fields(sorted, es);
    assert forall|i: u32| i < l.doc_count implies #[trigger] reader::doc_in(
        dict,
        l.doc_table_offset as int,
        l.dict_offset as int,
        i,
    ) == Some(sorted[i as int]) by {
        assert(sorted[i as int].path.len() <= u16::MAX);
        lemma_doc_in_image(sorted, es, i);
    }
    sorted
}

/// Where the ids handed to the writer fill a range without gaps, the document
/// at position `i` is the one with the `i`-th id of the range.
pub proof fn law_contiguous_ids_are_positions(
    docs: Seq<DocView>,
    sorted: Seq<DocView>,
    base: u32,
    i: int,
)
    requires
        order::rearranged(docs, sorted),
        layout::ids_ascending(sorted),
        forall|k: int|
            0 <= k < docs.len() ==> base <= (#[trigger] docs[k]).doc_id < base + docs.len(),
        0 <= i < docs.len(),
    ensures
        sorted[i].doc_id == base + i,
{
    order::lemma_rearranged_contains(docs, sorted);
    assert forall|k: int| 0 <= k < sorted.len() implies base <= (#[trigger] sorted[k]).doc_id < base
        + docs.len() by {
        assert(docs.contains(sorted[k]));
    }
    lemma_ids_at_least(sorted, base, i);
    lemma_ids_at_most(sorted, base, i);
}

proof fn lemma_ids_at_least(sorted: Seq<DocView>, base: u32, i: int)
    requires
        layout::ids_ascending(sorted),
        0 <= i < sorted.len(),
        base <= sorted[0].doc_id,
    ensures
        base + i <= sorted[i].doc_id,
    decreases i,
{
    if i > 0 {
        lemma_ids_at_least(sorted, base, i - 1);
        assert(sorted[i - 1].doc_id < sorted[i].doc_id);
    }
}

proof fn lemma_ids_at_most(sorted: Seq<DocView>, base: u32, i: int)
    requires
        layout::ids_ascending(sorted),
        0 <= i < sorted.len(),
        sorted[sorted.len() - 1].doc_id < base + sorted.len(),
    ensures
        sorted[i].doc_id <= base + i,
    decreases sorted.len() - i,
{
    if i < sorted.len() - 1 {
        lemma_ids_at_most(sorted, base, i + 1);
        assert(sorted[i].doc_id < sorted[i + 1].doc_id);
    }
}

/// `ids` are the documents that the postings list for a gram, ascending.
pub open spec fn ids_of_gram(postings: Seq<(u64, u32)>, gram: u64, ids: Seq<u32>) -> bool {
    &&& bitmap::strictly_ascending(ids)
    &&& forall|d: u32| ids.contains(d) <==> postings.contains((gram, d))
}

/// The segment was opened over `dict` and `post`, its postings in a file of
/// their own.
pub open spec fn opened_over(
    s: MmapSegment,
    dict: Seq<u8>,
    post: Seq<u8>,
    versions: Seq<u32>,
    verify: DictVerify,
    l: SegmentLayout,
) -> bool {
    &&& reader::layout_of(dict, versions, verify) == Ok::<SegmentLayout, Corruption>(l)
    &&& s.has_layout(dict, l)
    &&& match s.backing() {
        PostingsBacking::V2Mmap => false,
        PostingsBacking::V3File(p) => p@ == post,
        PostingsBacking::InMemory(p) => p@ == post,
    }
}

/// The payload that a gram's entry points to is one that the segment reads: a
/// postings file is read record by record up to [`MAX_POSTING_BYTES`].
pub open spec fn payload_readable(s: MmapSegment, gram: u64) -> bool {
    s.backing() matches PostingsBacking::V3File(p) ==> forall|i: int| #[trigger]
        s.is_entry(gram, i) ==> (reader::raw_record(
            p@,
            s.offset_at(i) + POST_MAGIC_SIZE,
        ) matches Some((_kind, data)) ==> data.len() <= MAX_POSTING_BYTES)
}

/// What the dictionary of an opened segment says of group `i` that was written.
proof fn lemma_opened_entry(
    s: MmapSegment,
    dict: Seq<u8>,
    post: Seq<u8>,
    sorted: Seq<DocView>,
    gs: Seq<(u64, Seq<u32>)>,
    rs: Seq<Seq<u8>>,
    es: Seq<DictEntry>,
    i: int,
)
    requires
        s.wf(),
        s.bytes() == dict,
        s.dict() == layout::dict_start(sorted),
        s.gram_count == es.len(),
        layout::segment_parts(dict, post, sorted, gs, rs, es),
        0 <= i < es.len(),
    ensures
        s.gram_at(i) == gs[i].0,
        s.is_entry(gs[i].0, i),
        s.count_at(i) == gs[i].1.len(),
        layout::posting_record(rs[i], gs[i].1),
        reader::raw_record(post, s.offset_at(i) + POST_MAGIC_SIZE) == Some(
            (
                if gs[i].1.len() >= posting::ROARING_THRESHOLD {
                    1u8
                } else {
                    0u8
                },
                rs[i].skip(POSTING_HEADER as int),
            ),
        ),
{
    lemma_entry_in_image(sorted, es, i);
    assert(es[i].gram == gs[i].0);
    lemma_record_in_post(rs, i, gs[i].1);
}

/// Looking up a gram in a written segment gives the documents that were listed
/// for it, ascending, and their number; a gram without postings is not found.
pub proof fn law_postings_read_back(
    s: MmapSegment,
    dict: Seq<u8>,
    post: Seq<u8>,
    docs: Seq<DocView>,
    postings: Seq<(u64, u32)>,
    versions: Seq<u32>,
    verify: DictVerify,
    l: SegmentLayout,
    gram: u64,
    r: Option<PostingList>,
) -> (ids: Seq<u32>)
    requires
        layout::is_segment(dict, post, docs, postings),
        dict.len() <= usize::MAX,
        opened_over(s, dict, post, versions, verify, l),
        reader::list_of(r, s.record_of(gram)),
        payload_readable(s, gram),
    ensures
        s.dict_sorted(),
        ids_of_gram(postings, gram, ids),
        ids.len() == 0 ==> r is None,
        ids.len() > 0 ==> (r matches Some(list) && posting::posting_ids(list, ids)),
        forall|i: int| #[trigger] s.is_entry(gram, i) ==> s.count_at(i) == ids.len(),
{
    let (sorted, gs, rs, es) = choose|
        sorted: Seq<DocView>,
        gs: Seq<(u64, Seq<u32>)>,
        rs: Seq<Seq<u8>>,
        es: Seq<DictEntry>,
    |
        #![trigger layout::segment_parts(dict, post, sorted, gs, rs, es)]
        layout::segment_parts(dict, post, sorted, gs, rs, es) && order::rearranged(docs, sorted) && (
        forall|x: (u64, u32)| layout::all_pairs(gs).contains(x) <==> postings.contains(x));
    lemma_image_len(sorted, es);
    lemma_footer_fields(sorted, es);
    assert(s.dict() == layout::dict_start(sorted));
    assert(s.dict_sorted()) by {
        assert forall|i: int, j: int| 0 <= i < j < s.gram_count implies #[trigger] s.gram_at(i)
            < #[trigger] s.gram_at(j) by {
            lemma_opened_entry(s, dict, post, sorted, gs, rs, es, i);
            lemma_opened_entry(s, dict, post, sorted, gs, rs, es, j);
            assert(gs[i].0 < gs[j].0);
        }
    }
    s.lemma_find(gram);
    assert forall|i: int| #[trigger] s.is_entry(gram, i) implies 0 <= i < gs.len() && gs[i].0
        == gram && s.count_at(i) == gs[i].1.len() by {
        lemma_opened_entry(s, dict, post, sorted, gs, rs, es, i);
    }
    if exists|j: int| 0 <= j < gs.len() && (#[trigger] gs[j]).0 == gram {
        let j = choose|j: int| 0 <= j < gs.len() && (#[trigger] gs[j]).0 == gram;
        let ids = gs[j].1;
        lemma_opened_entry(s, dict, post, sorted, gs, rs, es, j);
        assert(s.is_entry(gram, j));
        let data = rs[j].skip(POSTING_HEADER as int);
        reveal(layout::posting_record);
        assert(reader::list_of(r, s.raw_at(s.offset_at(j))));
        if ids.len() < posting::ROARING_THRESHOLD {
            posting::lemma_varint_round_trip(ids, 0);
        }
        assert forall|d: u32| ids.contains(d) <==> postings.contains((gram, d)) by {
            lemma_all_pairs(gs, gram, d);
            if postings.contains((gram, d)) {
                let k = choose|k: int|
                    0 <= k < gs.len() && (#[trigger] gs[k]).0 == gram && gs[k].1.contains(d);
                if k < j {
                    assert(gs[k].0 < gs[j].0);
                } else if j < k {
                    assert(gs[j].0 < gs[k].0);
                }
            }
        }
        assert forall|i: int| #[trigger] s.is_entry(gram, i) implies s.count_at(i) == ids.len() by {
            if i < j {
                assert(gs[i].0 < gs[j].0);
            } else if j < i {
                assert(gs[j].0 < gs[i].0);
            }
        }
        ids
    } else {
        let ids = Seq::<u32>::empty();
        assert forall|i: int| !s.is_entry(gram, i) by {
            if s.is_entry(gram, i) {
                assert(gs[i].0 == gram);
            }
        }
        assert forall|d: u32| ids.contains(d) <==> postings.contains((gram, d)) by {
            lemma_all_pairs(gs, gram, d);
        }
        ids
    }
}

/// Two sequences with the same items, each in ascending order of a key, are equal.
proof fn lemma_ascending_unique<T>(a: Seq<T>, b: Seq<T>, key: spec_fn(T) -> int)
    requires
        forall|i: int, j: int| 0 <= i < j < a.len() ==> key(a[i]) < key(a[j]),
        forall|i: int, j: int| 0 <= i < j < b.len() ==> key(b[i]) < key(b[j]),
        forall|x: T| #[trigger] a.contains(x) <==> b.contains(x),
    ensures
        a == b,
    decreases a.len(),
{
    if a.len() == 0 {
        if b.len() > 0 {
            assert(a.contains(b[0]));
        }
        assert(a =~= b);
    } else {
        assert(a.contains(a.last()));
        let j = choose|j: int| 0 <= j < b.len() && b[j] == a.last();
        assert(b.contains(b.last()));
        assert(a.contains(b.last()));
        let i = choose|i: int| 0 <= i < a.len() && a[i] == b.last();
        if j < b.len() - 1 {
            assert(key(b[j]) < key(b[b.len() - 1]));
            if i < a.len() - 1 {
                assert(key(a[i]) < key(a[a.len() - 1]));
            }
        }
        let ta = a.drop_last();
        let tb = b.drop_last();
        assert forall|x: T| #[trigger] ta.contains(x) <==> tb.contains(x) by {
            if ta.contains(x) {
                let k = choose|k: int| 0 <= k < ta.len() && ta[k] == x;
                assert(a[k] == x);
                assert(a.contains(x));
                assert(b.contains(x));
                let m = choose|m: int| 0 <= m < b.len() && b[m] == x;
                assert(key(a[k]) < key(a[a.len() - 1]));
                assert(tb[m] == x);
            }
            if tb.contains(x) {
                let k = choose|k: int| 0 <= k < tb.len() && tb[k] == x;
                assert(b[k] == x);
                assert(a.contains(x));
                let m = choose|m: int| 0 <= m < a.len() && a[m] == x;
                assert(key(b[k]) < key(b[b.len() - 1]));
                assert(ta[m] == x);
            }
        }
        lemma_ascending_unique(ta, tb, key);
        assert(a =~= ta.push(a.last()));
        assert(b =~= tb.push(b.last()));
    }
}

/// A group of one grouping is a group of every grouping of the same pairs.
proof fn lemma_same_group(gs: Seq<(u64, Seq<u32>)>, hs: Seq<(u64, Seq<u32>)>, i: int)
    requires
        layout::groups_ok(gs),
        layout::groups_ok(hs),
        forall|x: (u64, u32)|
            layout::all_pairs(gs).contains(x) <==> layout::all_pairs(hs).contains(x),
        0 <= i < gs.len(),
    ensures
        hs.contains(gs[i]),
{
    let (g, ids) = gs[i];
    assert(ids.contains(ids[0]));
    lemma_all_pairs(gs, g, ids[0]);
    lemma_all_pairs(hs, g, ids[0]);
    let k = choose|k: int|
        0 <= k < hs.len() && (#[trigger] hs[k]).0 == g && hs[k].1.contains(ids[0]);
    let other = hs[k].1;
    assert forall|d: u32| #[trigger] ids.contains(d) <==> other.contains(d) by {
        lemma_all_pairs(gs, g, d);
        lemma_all_pairs(hs, g, d);
        if ids.contains(d) {
            let m = choose|m: int|
                0 <= m < hs.len() && (#[trigger] hs[m]).0 == g && hs[m].1.contains(d);
            if m < k {
                assert(hs[m].0 < hs[k].0);
            } else if k < m {
                assert(hs[k].0 < hs[m].0);
            }
        }
        if other.contains(d) {
            let m = choose|m: int|
                0 <= m < gs.len() && (#[trigger] gs[m]).0 == g && gs[m].1.contains(d);
            if m < i {
                assert(gs[m].0 < gs[i].0);
            } else if i < m {
                assert(gs[i].0 < gs[m].0);
            }
        }
    }
    lemma_ascending_unique(ids, other, |d: u32| d as int);
    assert(hs[k] == gs[i]);
}

/// What a segment contains determines its files: equal documents and equal
/// postings, added in whatever order and with whatever repetition of the
/// postings, give the same bytes and the same counts.
pub proof fn law_equal_contents_give_equal_files(
    dict: Seq<u8>,
    post: Seq<u8>,
    docs: Seq<DocView>,
    postings: Seq<(u64, u32)>,
    dict2: Seq<u8>,
    post2: Seq<u8>,
    docs2: Seq<DocView>,
    postings2: Seq<(u64, u32)>,
)
    requires
        layout::is_segment(dict, post, docs, postings),
        layout::is_segment(dict2, post2, docs2, postings2),
        forall|d: DocView| #[trigger] docs.contains(d) <==> docs2.contains(d),
        forall|x: (u64, u32)| #[trigger] postings.contains(x) <==> postings2.contains(x),
    ensures
        dict == dict2,
        post == post2,
        docs.len() == docs2.len(),
        writer::grams_of(postings) == writer::grams_of(postings2),
{
    let (sorted, gs, rs, es) = choose|
        sorted: Seq<DocView>,
        gs: Seq<(u64, Seq<u32>)>,
        rs: Seq<Seq<u8>>,
        es: Seq<DictEntry>,
    |
        #![trigger layout::segment_parts(dict, post, sorted, gs, rs, es)]
        layout::segment_parts(dict, post, sorted, gs, rs, es) && order::rearranged(docs, sorted)
            && (forall|x: (u64, u32)|
            layout::all_pairs(gs).contains(x) <==> postings.contains(x));
    let (sorted2, gs2, rs2, es2) = choose|
        sorted2: Seq<DocView>,
        gs2: Seq<(u64, Seq<u32>)>,
        rs2: Seq<Seq<u8>>,
        es2: Seq<DictEntry>,
    |
        #![trigger layout::segment_parts(dict2, post2, sorted2, gs2, rs2, es2)]
        layout::segment_parts(dict2, post2, sorted2, gs2, rs2, es2) && order::rearranged(
            docs2,
            sorted2,
        ) && (forall|x: (u64, u32)|
            layout::all_pairs(gs2).contains(x) <==> postings2.contains(x));
    order::lemma_rearranged_contains(docs, sorted);
    order::lemma_rearranged_contains(docs2, sorted2);
    assert(sorted == sorted2) by {
        assert forall|d: DocView| #[trigger] sorted.contains(d) <==> sorted2.contains(d) by {
            assert(docs.contains(d) <==> docs2.contains(d));
        }
        lemma_ascending_unique(sorted, sorted2, |d: DocView| d.doc_id as int);
    }
    assert(gs == gs2) by {
        assert forall|x: (u64, u32)|
            layout::all_pairs(gs).contains(x) <==> layout::all_pairs(gs2).contains(x) by {
            assert(postings.contains(x) <==> postings2.contains(x));
        }
        assert forall|g: (u64, Seq<u32>)| #[trigger] gs.contains(g) <==> gs2.contains(g) by {
            if gs.contains(g) {
                let i = choose|i: int| 0 <= i < gs.len() && gs[i] == g;
                lemma_same_group(gs, gs2, i);
            }
            if gs2.contains(g) {
                let i = choose|i: int| 0 <= i < gs2.len() && gs2[i] == g;
                lemma_same_group(gs2, gs, i);
            }
        }
        lemma_ascending_unique(gs, gs2, |g: (u64, Seq<u32>)| g.0 as int);
    }
    assert(rs == rs2) by {
        reveal(layout::posting_record);
        assert forall|i: int| 0 <= i < gs.len() implies #[trigger] rs[i] == rs2[i] by {
            assert(layout::posting_record(rs[i], gs[i].1));
            assert(layout::posting_record(rs2[i], gs2[i].1));
        }
        assert(rs =~= rs2);
    }
    assert(es == es2) by {
        assert forall|i: int| 0 <= i < gs.len() implies #[trigger] es[i] == es2[i] by {
            assert(gs[i] == gs2[i]);
        }
        assert(es =~= es2);
    }
    assert(docs.len() == sorted.len());
    assert(docs2.len() == sorted2.len());
    assert(writer::grams_of(postings) =~= writer::grams_of(postings2)) by {
        assert forall|g: u64| writer::grams_of(postings).contains(g)
            <==> writer::grams_of(postings2).contains(g) by {
            if writer::grams_of(postings).contains(g) {
                let d = choose|d: u32| #[trigger] postings.contains((g, d));
                assert(postings2.contains((g, d)));
            }
            if writer::grams_of(postings2).contains(g) {
                let d = choose|d: u32| #[trigger] postings2.contains((g, d));
                assert(postings.contains((g, d)));
            }
        }
    }
}

/// Documents and postings that fit in the counters and length prefixes, with no
/// gram in enough documents for a bitmap, are never refused.
pub proof fn law_short_lists_are_written(docs: Seq<DocView>, postings: Seq<(u64, u32)>)
    requires
        writer::acceptable(docs, postings),
        forall|g: u64| #[trigger]
            writer::docs_with(postings, g).len() < posting::ROARING_THRESHOLD,
    ensures
        forall|e: SegmentError| !#[trigger] writer::refused(docs, postings, e),
{
    assert forall|e: SegmentError| !#[trigger] writer::refused(docs, postings, e) by {
        if writer::refused(docs, postings, e) {
            match e {
                SegmentError::DuplicateDocId { doc_id } => {
                    let (i, j) = choose|i: int, j: int|
                        #![trigger docs[i], docs[j]]
                        0 <= i < docs.len() && 0 <= j < docs.len() && i != j && docs[i].doc_id
                            == doc_id && docs[j].doc_id == doc_id;
                    if i < j {
                        assert(docs[i].doc_id != docs[j].doc_id);
                    } else {
                        assert(docs[j].doc_id != docs[i].doc_id);
                    }
                },
                SegmentError::PostingTooLarge { gram } => {
                    assert(writer::docs_with(postings, gram).len() < posting::ROARING_THRESHOLD);
                },
                _ => {},
            }
        }
    }
}

/// There are no more documents of a gram, and no more grams, than postings.
proof fn lemma_counts_below_postings(postings: Seq<(u64, u32)>, gram: u64)
    ensures
        writer::docs_with(postings, gram).len() <= postings.len(),
        writer::grams_of(postings).len() <= postings.len(),
{
    let ids = Seq::new(postings.len(), |i: int| postings[i].1);
    let with = writer::docs_with(postings, gram);
    assert forall|d: u32| with.contains(d) implies ids.to_set().contains(d) by {
        let k = choose|k: int| 0 <= k < postings.len() && postings[k] == (gram, d);
        assert(ids[k] == d);
    }
    vstd::seq_lib::seq_to_set_is_finite(ids);
    vstd::set_lib::lemma_len_subset(with, ids.to_set());
    ids.lemma_cardinality_of_set();
    let grams = Seq::new(postings.len(), |i: int| postings[i].0);
    let all = writer::grams_of(postings);
    assert forall|g: u64| all.contains(g) implies grams.to_set().contains(g) by {
        let d = choose|d: u32| #[trigger] postings.contains((g, d));
        let k = choose|k: int| 0 <= k < postings.len() && postings[k] == (g, d);
        assert(grams[k] == g);
    }
    vstd::seq_lib::seq_to_set_is_finite(grams);
    vstd::set_lib::lemma_len_subset(all, grams.to_set());
    grams.lemma_cardinality_of_set();
}

/// Fewer postings than a bitmap needs are never refused, whatever they are.
pub proof fn law_few_postings_are_written(docs: Seq<DocView>, postings: Seq<(u64, u32)>)
    requires
        writer::docs_acceptable(docs),
        postings.len() < posting::ROARING_THRESHOLD,
    ensures
        forall|e: SegmentError| !#[trigger] writer::refused(docs, postings, e),
{
    assert forall|g: u64| #[trigger] writer::docs_with(postings, g).len()
        < posting::ROARING_THRESHOLD by {
        lemma_counts_below_postings(postings, g);
    }
    lemma_counts_below_postings(postings, 0);
    law_short_lists_are_written(docs, postings);
}

/// A dictionary file whose content was changed under its footer does not pass a full
/// check, wherever the checksums differ.
pub proof fn law_changed_segments_are_refused(
    dict: Seq<u8>,
    post: Seq<u8>,
    docs: Seq<DocView>,
    postings: Seq<(u64, u32)>,
    versions: Seq<u32>,
    other: Seq<u8>,
)
    requires
        layout::is_segment(dict, post, docs, postings),
        dict.len() <= usize::MAX,
        other.len() == dict.len() - 48,
        hash::xxh64_of(other, 0) != hash::xxh64_of(dict.take(dict.len() - 48), 0),
    ensures
        reader::layout_of(other + dict.skip(dict.len() - 48), versions, DictVerify::Full) is Err,
        !reader::checksum_ok(other + dict.skip(dict.len() - 48)),
{
    let all = seq![FORMAT_VERSION];
    assert(all[0] == FORMAT_VERSION);
    law_written_segment_is_accepted(dict, post, docs, postings, all, DictVerify::Full);
    let n = dict.len() as int;
    let changed = other + dict.skip(n - 48);
    assert(changed.len() == n);
    assert(changed.take(n - 48) =~= other);
    assert(changed.subrange(n - 16, n - 8) =~= dict.subrange(n - 16, n - 8));
}

/// A postings file whose records were changed does not pass a full check, wherever the
/// checksums differ.
pub proof fn law_changed_postings_are_refused(
    dict: Seq<u8>,
    post: Seq<u8>,
    docs: Seq<DocView>,
    postings: Seq<(u64, u32)>,
    other: Seq<u8>,
)
    requires
        layout::is_segment(dict, post, docs, postings),
        dict.len() <= usize::MAX,
        post.len() >= 16,
        other.len() == post.len() - 16,
        hash::xxh64_of(other, 0) != hash::xxh64_of(post.subrange(8, post.len() - 8), 0),
    ensures
        reader::post_verdict(
            post.take(8) + other + post.skip(post.len() - 8),
            PostVerify::Full,
        ) is Err,
{
    let all = seq![FORMAT_VERSION];
    assert(all[0] == FORMAT_VERSION);
    law_written_segment_is_accepted(dict, post, docs, postings, all, DictVerify::Full);
    let n = post.len() as int;
    let changed = post.take(8) + other + post.skip(n - 8);
    assert(changed.len() == n);
    assert(changed.subrange(8, n - 8) =~= other);
    assert(changed.subrange(n - 8, n) =~= post.subrange(n - 8, n));
}

} // verus!
