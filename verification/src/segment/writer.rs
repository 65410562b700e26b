//! Accumulates documents and postings and lays them out as a segment.

use crate::bitmap;
use crate::files;
use crate::hash;
use crate::le;
use crate::order;
use crate::path_resolve;
use crate::posting;
use crate::segment::layout;
use crate::segment::layout::{
    DictEntry, DocEntry, DocView, FORMAT_VERSION, HEADER_SIZE, PAGE_SIZE, POSTING_HEADER,
};
use crate::text;
use vstd::prelude::*;

verus! {

/// Why a segment could not be written.
#[derive(Debug, Clone, Copy, PartialEq, Eq, Structural)]
pub enum SegmentError {
    /// More documents or postings than 32-bit counters can hold.
    TooLarge,
    /// Two documents have the same id.
    DuplicateDocId { doc_id: u32 },
    /// A path does not fit in its 16-bit length prefix.
    PathTooLong { doc_id: u32, bytes: usize },
    /// A posting payload does not fit in its 32-bit length prefix.
    PostingTooLarge { gram: u64 },
}

/// The bytes of a segment.
pub struct SegmentImage {
    pub dict: Vec<u8>,
    pub post: Vec<u8>,
    pub doc_count: u32,
    pub gram_count: u32,
}

/// What the manifest records of a written segment.
pub struct SegmentMeta {
    /// UUID of the segment.
    pub segment_id: Vec<u8>,
    /// Combined file; empty for split segments.
    pub filename: Vec<u8>,
    /// Dictionary file.
    pub dict_filename: Vec<u8>,
    /// Postings file.
    pub post_filename: Vec<u8>,
    /// Number of documents.
    pub doc_count: u32,
    /// Number of distinct grams.
    pub gram_count: u32,
    /// Size of the postings file.
    pub post_len: u64,
    /// Sum of the document sizes.
    pub doc_bytes: u64,
}

/// Collects the documents and postings of one segment.
pub struct SegmentWriter {
    docs: Vec<DocEntry>,
    postings: Vec<(u64, u32)>,
}

/// Documents sorted by id, repetitions allowed.
pub open spec fn ids_sorted(docs: Seq<DocEntry>) -> bool {
    forall|i: int, j: int| 0 <= i < j < docs.len() ==> docs[i].doc_id <= docs[j].doc_id
}

/// No two documents have the same id.
pub open spec fn ids_distinct(docs: Seq<DocView>) -> bool {
    forall|i: int, j: int| 0 <= i < j < docs.len() ==> docs[i].doc_id != docs[j].doc_id
}

/// The grams of a list of postings.
pub open spec fn grams_of(pairs: Seq<(u64, u32)>) -> Set<u64> {
    Set::new(|g: u64| exists|d: u32| #[trigger] pairs.contains((g, d)))
}

/// The sizes of all documents.
pub open spec fn size_total(docs: Seq<DocView>) -> nat
    decreases docs.len(),
{
    if docs.len() == 0 {
        0
    } else {
        size_total(docs.drop_last()) + docs.last().size_bytes as nat
    }
}

/// `n`, or the largest 64-bit number if `n` is larger.
pub open spec fn clamp64(n: nat) -> u64 {
    if n > u64::MAX {
        u64::MAX
    } else {
        n as u64
    }
}

/// `doc_id` is the lowest id that two documents have.
pub open spec fn lowest_repeated_id(docs: Seq<DocView>, doc_id: u32) -> bool {
    has_repeated_id(docs, doc_id) && forall|d: u32| #[trigger]
        has_repeated_id(docs, d) ==> doc_id <= d
}

/// Two documents have the id `doc_id`.
pub open spec fn has_repeated_id(docs: Seq<DocView>, doc_id: u32) -> bool {
    exists|i: int, j: int|
        #![trigger docs[i], docs[j]]
        0 <= i < docs.len() && 0 <= j < docs.len() && i != j && docs[i].doc_id == doc_id
            && docs[j].doc_id == doc_id
}

/// Document `i` has a long path, `e` says so, and no document before it has.
spec fn long_path_at(docs: Seq<DocEntry>, e: SegmentError, i: int) -> bool {
    &&& 0 <= i < docs.len()
    &&& docs[i].path@.len() > u16::MAX
    &&& e matches SegmentError::PathTooLong { doc_id, bytes } && doc_id == docs[i].doc_id && bytes
        == docs[i].path@.len()
    &&& forall|j: int| 0 <= j < i ==> (#[trigger] docs[j]).path@.len() <= u16::MAX
}

/// `e` names the first document with a long path.
spec fn first_long_path(docs: Seq<DocEntry>, e: SegmentError) -> bool {
    exists|i: int| #[trigger] long_path_at(docs, e, i)
}

/// `e` names the document of the lowest id among those with a long path.
pub open spec fn lowest_long_path(docs: Seq<DocView>, e: SegmentError) -> bool {
    &&& e is PathTooLong
    &&& exists|i: int|
        #![trigger docs[i]]
        0 <= i < docs.len() && docs[i].doc_id == e->PathTooLong_doc_id && docs[i].path.len()
            == e->bytes && docs[i].path.len() > u16::MAX
    &&& forall|i: int|
        0 <= i < docs.len() && (#[trigger] docs[i]).path.len() > u16::MAX
            ==> e->PathTooLong_doc_id <= docs[i].doc_id
}

/// No path is longer than its length prefix can say.
pub open spec fn paths_fit(docs: Seq<DocView>) -> bool {
    forall|i: int| 0 <= i < docs.len() ==> (#[trigger] docs[i]).path.len() <= u16::MAX
}

/// The documents can be counted in 32 bits, their ids are distinct and their
/// paths short enough.
pub open spec fn docs_acceptable(docs: Seq<DocView>) -> bool {
    &&& docs.len() <= u32::MAX
    &&& ids_distinct(docs)
    &&& paths_fit(docs)
}

/// The grams, and the documents of each gram, can be counted in 32 bits. A
/// posting that repeats counts once.
pub open spec fn counts_fit(postings: Seq<(u64, u32)>) -> bool {
    &&& grams_of(postings).len() <= u32::MAX
    &&& forall|g: u64| #[trigger] docs_with(postings, g).len() <= u32::MAX
}

/// Documents and postings that the counters and length prefixes can hold.
pub open spec fn acceptable(docs: Seq<DocView>, postings: Seq<(u64, u32)>) -> bool {
    docs_acceptable(docs) && counts_fit(postings)
}

/// `e` is a reason not to write these documents and postings. The documents come
/// first: their number, their ids, their paths; then the posting lists.
pub open spec fn refused(
    docs: Seq<DocView>,
    postings: Seq<(u64, u32)>,
    e: SegmentError,
) -> bool {
    match e {
        SegmentError::TooLarge => docs.len() > u32::MAX || (docs_acceptable(docs) && !counts_fit(
            postings,
        )),
        SegmentError::DuplicateDocId { doc_id } => docs.len() <= u32::MAX && lowest_repeated_id(
            docs,
            doc_id,
        ),
        SegmentError::PathTooLong { .. } => docs.len() <= u32::MAX && ids_distinct(docs)
            && lowest_long_path(docs, e),
        SegmentError::PostingTooLarge { gram } => docs_acceptable(docs) && has_large_list(
            postings,
            gram,
        ),
    }
}

/// The metadata is that of a segment of these documents and postings.
pub open spec fn describes(
    meta: SegmentMeta,
    image: SegmentImage,
    docs: Seq<DocView>,
    postings: Seq<(u64, u32)>,
) -> bool {
    &&& meta.filename@ == Seq::<u8>::empty()
    &&& meta.doc_count == docs.len()
    &&& meta.gram_count == grams_of(postings).len()
    &&& meta.post_len == image.post@.len()
    &&& meta.doc_bytes == clamp64(size_total(docs))
}

/// `<[T]>::sort_by_key` with the document id as key: the same entries, ordered
/// by id.
#[verifier::external_body]
fn sort_by_doc_id(v: &mut Vec<DocEntry>)
    ensures
        order::rearranged(old(v)@, final(v)@),
        ids_sorted(final(v)@),
{
    v.sort_by_key(|d| d.doc_id)
}

fn push_magic(v: &mut Vec<u8>)
    ensures
        final(v)@ == old(v)@ + layout::magic(),
{
    let ghost before = v@;
    v.push(0x53);
    v.push(0x4E);
    v.push(0x54);
    v.push(0x58);
    assert(v@ =~= before + layout::magic());
}

/// The documents that hold a gram.
pub open spec fn docs_with(pairs: Seq<(u64, u32)>, gram: u64) -> Set<u32> {
    Set::new(|d: u32| pairs.contains((gram, d)))
}

/// These ids are stored as a bitmap, and it does not fit in a 32-bit length
/// prefix.
pub open spec fn too_large(ids: Set<u32>) -> bool {
    ids.len() >= posting::ROARING_THRESHOLD && exists|s: Seq<u32>|
        bitmap::strictly_ascending(s) && s.to_set() == ids && #[trigger] bitmap::collected_image(
            s,
        ).len() > u32::MAX
}

/// The bitmap of the documents that hold a gram does not fit in a 32-bit length
/// prefix.
pub open spec fn has_large_list(pairs: Seq<(u64, u32)>, gram: u64) -> bool {
    too_large(docs_with(pairs, gram))
}

/// Stores one posting list.
fn encode_posting(gram: u64, ids: &Vec<u32>) -> (r: Result<Vec<u8>, SegmentError>)
    requires
        bitmap::strictly_ascending(ids@),
        ids@.len() <= u32::MAX,
    ensures
        match r {
            Ok(rec) => layout::posting_record(rec@, ids@),
            Err(e) => e == (SegmentError::PostingTooLarge { gram }) && too_large(ids@.to_set()),
        },
{
    broadcast use le::group_le_len;

    let mut rec: Vec<u8> = Vec::new();
    let data: Vec<u8>;
    if ids.len() >= posting::ROARING_THRESHOLD {
        let bm = bitmap::collect(ids.as_slice());
        data = bitmap::serialize(&bm);
        if data.len() > 0xFFFF_FFFF {
            proof {
                assert(ids@.no_duplicates());
                ids@.unique_seq_to_set();
            }
            return Err(SegmentError::PostingTooLarge { gram });
        }
        rec.push(1);
    } else {
        match posting::varint_encode(ids.as_slice()) {
            Ok(d) => {
                data = d;
            },
            Err(_) => {
                assert(false);
                return Err(SegmentError::PostingTooLarge { gram });
            },
        }
        proof {
            posting::lemma_varint_list_len(ids@, 0);
        }
        rec.push(0);
    }
    let ghost kind = rec@[0];
    le::push_u32(&mut rec, ids.len() as u32);
    le::push_u32(&mut rec, data.len() as u32);
    le::push_bytes(&mut rec, data.as_slice());
    assert(rec@ =~= layout::record(kind, ids@.len() as u32, data@));
    assert(rec@.skip(POSTING_HEADER as int) =~= data@);
    reveal(layout::posting_record);
    Ok(rec)
}

/// A further group with its record and its dictionary entry.
proof fn lemma_push_group(
    gs: Seq<(u64, Seq<u32>)>,
    rs: Seq<Seq<u8>>,
    es: Seq<DictEntry>,
    group: (u64, Seq<u32>),
    rec: Seq<u8>,
    e: DictEntry,
)
    requires
        layout::post_parts(gs, rs, es),
        group.1.len() > 0,
        bitmap::strictly_ascending(group.1),
        gs.len() > 0 ==> gs.last().0 < group.0,
        layout::posting_record(rec, group.1),
        e.gram == group.0,
        e.offset == layout::concat_all(rs).len(),
        e.count == group.1.len(),
    ensures
        layout::post_parts(gs.push(group), rs.push(rec), es.push(e)),
        layout::all_pairs(gs.push(group)) == layout::all_pairs(gs) + layout::group_pairs(group),
        layout::concat_all(rs.push(rec)) == layout::concat_all(rs) + rec,
{
    let gs2 = gs.push(group);
    let rs2 = rs.push(rec);
    let es2 = es.push(e);
    assert(gs2.drop_last() =~= gs);
    assert(rs2.drop_last() =~= rs);
    assert forall|a: int, b: int| 0 <= a < b < gs2.len() implies gs2[a].0 < gs2[b].0 by {
        if b == gs.len() && a < gs.len() - 1 {
            assert(gs[a].0 < gs[gs.len() - 1].0);
        }
    }
    assert forall|i: int| #![trigger gs2[i]] 0 <= i < gs2.len() implies gs2[i].1.len() > 0
        && bitmap::strictly_ascending(gs2[i].1) by {
        if i < gs.len() {
            assert(gs2[i] == gs[i]);
        }
    }
    assert(layout::groups_ok(gs2));
    assert forall|i: int|
        #![trigger gs2[i]]
        #![trigger rs2[i]]
        #![trigger es2[i]]
        0 <= i < gs2.len() implies {
        &&& layout::posting_record(rs2[i], gs2[i].1)
        &&& es2[i].gram == gs2[i].0
        &&& es2[i].offset == layout::concat_all(rs2.take(i)).len()
        &&& es2[i].count == gs2[i].1.len()
    } by {
        if i < gs.len() {
            assert(rs2.take(i) =~= rs.take(i));
            assert(gs2[i] == gs[i] && rs2[i] == rs[i] && es2[i] == es[i]);
        } else {
            assert(rs2.take(i) =~= rs);
        }
    }
}

/// A group of sorted pairs holds every document of its gram.
proof fn lemma_group_docs(pairs: Seq<(u64, u32)>, start: int, end: int, group: (u64, Seq<u32>))
    requires
        order::pairs_ascending(pairs),
        0 <= start < end <= pairs.len(),
        layout::group_pairs(group) == pairs.subrange(start, end),
        bitmap::strictly_ascending(group.1),
        start > 0 ==> pairs[start - 1].0 < group.0,
        end < pairs.len() ==> group.0 < pairs[end].0,
    ensures
        group.1.to_set() == docs_with(pairs, group.0),
        docs_with(pairs, group.0).len() == group.1.len(),
{
    let (gram, ids) = group;
    assert(layout::group_pairs(group).len() == ids.len());
    assert forall|k: int| 0 <= k < ids.len() implies #[trigger] pairs[start + k] == (
        gram,
        ids[k],
    ) by {
        assert(layout::group_pairs(group)[k] == pairs.subrange(start, end)[k]);
    }
    assert forall|d: u32| ids.to_set().contains(d) <==> docs_with(pairs, gram).contains(d) by {
        if ids.contains(d) {
            let k = choose|k: int| 0 <= k < ids.len() && ids[k] == d;
            assert(pairs[start + k] == (gram, d));
        }
        if pairs.contains((gram, d)) {
            let k = choose|k: int| 0 <= k < pairs.len() && pairs[k] == (gram, d);
            if k < start - 1 {
                assert(order::pair_lt(pairs[k], pairs[start - 1]));
            }
            if k > end {
                assert(order::pair_lt(pairs[end], pairs[k]));
            }
            assert(start <= k < end);
            assert(pairs[start + (k - start)] == (gram, ids[k - start]));
        }
    }
    assert(ids.to_set() =~= docs_with(pairs, gram));
    assert(ids.no_duplicates());
    ids.unique_seq_to_set();
}

/// The grams of a list of pairs, as the set of their first components.
proof fn lemma_grams_finite(pairs: Seq<(u64, u32)>)
    ensures
        grams_of(pairs).finite(),
{
    let firsts = Seq::new(pairs.len(), |i: int| pairs[i].0);
    assert forall|g: u64| grams_of(pairs).contains(g) implies firsts.to_set().contains(g) by {
        let d = choose|d: u32| #[trigger] pairs.contains((g, d));
        let k = choose|k: int| 0 <= k < pairs.len() && pairs[k] == (g, d);
        assert(firsts[k] == g);
    }
    assert(grams_of(pairs).subset_of(firsts.to_set()));
    vstd::set_lib::lemma_len_subset(grams_of(pairs), firsts.to_set());
}

/// With a gram after all grouped ones, there are more grams than groups.
proof fn lemma_further_gram(
    gs: Seq<(u64, Seq<u32>)>,
    pairs: Seq<(u64, u32)>,
    start: int,
    gram: u64,
)
    requires
        layout::groups_ok(gs),
        0 <= start < pairs.len(),
        layout::all_pairs(gs) == pairs.take(start),
        pairs[start].0 == gram,
        gs.len() > 0 ==> gs.last().0 < gram,
    ensures
        grams_of(pairs).len() > gs.len(),
{
    let keys = Seq::new(gs.len() + 1, |i: int| if i < gs.len() { gs[i].0 } else { gram });
    assert forall|i: int, j: int| 0 <= i < keys.len() && 0 <= j < keys.len() && i != j implies keys[i]
        != keys[j] by {
        let (lo, hi) = if i < j { (i, j) } else { (j, i) };
        if hi < gs.len() {
            assert(gs[lo].0 < gs[hi].0);
        } else if lo < gs.len() - 1 {
            assert(gs[lo].0 < gs[gs.len() - 1].0);
        }
    }
    keys.unique_seq_to_set();
    assert forall|g: u64| keys.to_set().contains(g) implies grams_of(pairs).contains(g) by {
        let i = choose|i: int| 0 <= i < keys.len() && keys[i] == g;
        if i < gs.len() {
            let d = gs[i].1[0];
            assert(gs[i].1.contains(d));
            crate::segment::laws::lemma_all_pairs(gs, g, d);
            let k = choose|k: int| 0 <= k < pairs.take(start).len() && pairs.take(start)[k] == (g, d);
            assert(pairs[k] == (g, d));
            assert(pairs.contains((g, d)));
        } else {
            assert(pairs[start] == (g, pairs[start].1));
            assert(pairs.contains((g, pairs[start].1)));
        }
    }
    lemma_grams_finite(pairs);
    vstd::set_lib::lemma_len_subset(keys.to_set(), grams_of(pairs));
}

/// Groups the postings by gram, stores each group, and lists the dictionary.
fn encode_postings(pairs: &Vec<(u64, u32)>) -> (r: Result<
    (Vec<u8>, Vec<DictEntry>, Ghost<Seq<(u64, Seq<u32>)>>, Ghost<Seq<Seq<u8>>>),
    SegmentError,
>)
    requires
        order::pairs_ascending(pairs@),
    ensures
        match r {
            Ok((data, es, gs, rs)) => {
                &&& layout::post_parts(gs@, rs@, es@)
                &&& layout::all_pairs(gs@) == pairs@
                &&& data@ == layout::concat_all(rs@)
                &&& es@.len() <= u32::MAX
            },
            Err(SegmentError::PostingTooLarge { gram }) => has_large_list(pairs@, gram),
            Err(e) => e is TooLarge && !counts_fit(pairs@),
        },
{
    let mut data: Vec<u8> = Vec::new();
    let mut es: Vec<DictEntry> = Vec::new();
    let ghost mut gs: Seq<(u64, Seq<u32>)> = Seq::empty();
    let ghost mut rs: Seq<Seq<u8>> = Seq::empty();
    let mut i: usize = 0;
    assert(layout::all_pairs(gs) =~= pairs@.take(0));
    while i < pairs.len()
        invariant
            i <= pairs@.len(),
            order::pairs_ascending(pairs@),
            layout::post_parts(gs, rs, es@),
            layout::all_pairs(gs) == pairs@.take(i as int),
            data@ == layout::concat_all(rs),
            es@.len() <= u32::MAX,
            i > 0 ==> gs.len() > 0 && gs.last().0 == pairs@[i - 1].0,
            0 < i < pairs@.len() ==> pairs@[i - 1].0 < pairs@[i as int].0,
        decreases pairs@.len() - i,
    {
        let gram: u64 = pairs[i].0;
        let start: usize = i;
        let mut ids: Vec<u32> = Vec::new();
        while i < pairs.len() && pairs[i].0 == gram
            invariant
                start <= i <= pairs@.len(),
                start < pairs@.len(),
                gram == pairs@[start as int].0,
                order::pairs_ascending(pairs@),
                ids@.len() == i - start,
                forall|k: int| start <= k < i ==> #[trigger] pairs@[k] == (gram, ids@[k - start]),
            ensures
                start < i,
                i < pairs@.len() ==> pairs@[i as int].0 != gram,
            decreases pairs@.len() - i,
        {
            ids.push(pairs[i].1);
            i = i + 1;
        }
        let ghost group = (gram, ids@);
        proof {
            assert forall|a: int, b: int| 0 <= a < b < ids@.len() implies ids@[a] < ids@[b] by {
                assert(pairs@[start + a] == (gram, ids@[a]));
                assert(pairs@[start + b] == (gram, ids@[b]));
                assert(order::pair_lt(pairs@[start + a], pairs@[start + b]));
            }
            assert(layout::group_pairs(group) =~= pairs@.subrange(start as int, i as int)) by {
                assert forall|k: int| 0 <= k < ids@.len() implies #[trigger] layout::group_pairs(
                    group,
                )[k] == pairs@[start + k] by {}
            }
            assert(pairs@.take(start as int) + pairs@.subrange(start as int, i as int)
                =~= pairs@.take(i as int));
            if i < pairs@.len() {
                assert(order::pair_lt(pairs@[i - 1], pairs@[i as int]));
            }
        }
        proof {
            lemma_group_docs(pairs@, start as int, i as int, group);
        }
        if ids.len() > 0xFFFF_FFFF {
            assert(docs_with(pairs@, gram).len() > u32::MAX);
            return Err(SegmentError::TooLarge);
        }
        if es.len() >= 0xFFFF_FFFF {
            proof {
                lemma_further_gram(gs, pairs@, start as int, gram);
            }
            return Err(SegmentError::TooLarge);
        }
        let mut rec: Vec<u8>;
        match encode_posting(gram, &ids) {
            Ok(r) => {
                rec = r;
            },
            Err(e) => {
                return Err(e);
            },
        }
        let e = DictEntry { gram, offset: data.len() as u64, count: ids.len() as u32 };
        proof {
            lemma_push_group(gs, rs, es@, group, rec@, e);
            gs = gs.push(group);
            rs = rs.push(rec@);
        }
        data.append(&mut rec);
        es.push(e);
    }
    assert(pairs@.take(i as int) =~= pairs@);
    Ok((data, es, Ghost(gs), Ghost(rs)))
}

/// A document record, appended.
fn push_doc_record(v: &mut Vec<u8>, d: &DocEntry)
    requires
        d.path@.len() <= u16::MAX,
    ensures
        final(v)@ == old(v)@ + layout::doc_record(d@),
        layout::doc_record(d@).len() == 22 + d.path@.len(),
{
    broadcast use le::group_le_len;

    let ghost before = v@;
    le::push_u32(v, d.doc_id);
    le::push_u64(v, d.content_hash);
    le::push_u64(v, d.size_bytes);
    le::push_u16(v, d.path.len() as u16);
    le::push_bytes(v, d.path.as_slice());
    assert(v@ =~= before + layout::doc_record(d@));
}

/// The offsets and the records of `docs`, or the first path that is too long.
fn encode_docs(docs: &Vec<DocEntry>) -> (r: Result<(Vec<u8>, Vec<u8>), SegmentError>)
    requires
        docs@.len() <= u32::MAX,
    ensures
        match r {
            Ok((table, records)) => {
                let views = layout::doc_views(docs@);
                &&& table@ == layout::doc_table(views, views.len())
                &&& table@.len() == 8 * docs@.len()
                &&& records@ == layout::doc_records(views)
                &&& records@.len() <= docs@.len() * 65557
                &&& forall|i: int|
                    #![trigger docs@[i]]
                    0 <= i < docs@.len() ==> docs@[i].path@.len() <= u16::MAX
            },
            Err(e) => first_long_path(docs@, e),
        },
{
    broadcast use le::group_le_len;

    let n: u64 = docs.len() as u64;
    let ghost views = layout::doc_views(docs@);
    let mut table: Vec<u8> = Vec::new();
    let mut records: Vec<u8> = Vec::new();
    let mut off: u64 = HEADER_SIZE as u64 + 8 * n;
    let mut i: usize = 0;
    assert(views.take(0) =~= Seq::<DocView>::empty());
    while i < docs.len()
        invariant
            i <= docs@.len() <= u32::MAX,
            n == docs@.len(),
            views == layout::doc_views(docs@),
            table@ == layout::doc_table(views, i as nat),
            table@.len() == 8 * i,
            records@ == layout::doc_records(views.take(i as int)),
            records@.len() <= i * 65557,
            off == 40 + 8 * n + records@.len(),
            forall|j: int|
                #![trigger docs@[j]]
                0 <= j < i ==> docs@[j].path@.len() <= u16::MAX,
        decreases docs@.len() - i,
    {
        let d: &DocEntry = &docs[i];
        if d.path.len() > 65535 {
            let e = SegmentError::PathTooLong { doc_id: d.doc_id, bytes: d.path.len() };
            assert(long_path_at(docs@, e, i as int));
            return Err(e);
        }
        assert(layout::doc_offset(views, i as int) == off);
        le::push_u64(&mut table, off);
        proof {
            le::lemma_le64_len(off);
        }
        push_doc_record(&mut records, d);
        proof {
            let next = views.take(i + 1);
            assert(next.drop_last() =~= views.take(i as int));
            assert(next.last() == docs@[i as int]@);
        }
        off = off + 22 + d.path.len() as u64;
        i = i + 1;
    }
    assert(views.take(i as int) =~= views);
    Ok((table, records))
}

/// The dictionary file for sorted documents and a dictionary.
fn encode_dict(table: Vec<u8>, records: Vec<u8>, docs: &Vec<DocEntry>, es: &Vec<DictEntry>) -> (r:
    Vec<u8>)
    requires
        docs@.len() <= u32::MAX,
        es@.len() <= u32::MAX,
        table@ == layout::doc_table(layout::doc_views(docs@), docs@.len()),
        table@.len() == 8 * docs@.len(),
        records@ == layout::doc_records(layout::doc_views(docs@)),
        records@.len() <= docs@.len() * 65557,
    ensures
        r@ == layout::dict_image(layout::doc_views(docs@), es@),
{
    broadcast use le::group_le_len;

    let ghost views = layout::doc_views(docs@);
    let mut table = table;
    let mut records = records;
    let doc_count: u32 = docs.len() as u32;
    let gram_count: u32 = es.len() as u32;
    let end: u64 = HEADER_SIZE as u64 + 8 * (doc_count as u64) + records.len() as u64;
    let page: u64 = PAGE_SIZE as u64;
    let pad: u64 = (page - end % page) % page;
    let dict_offset: u64 = end + pad;
    assert(end == layout::docs_end(views));
    assert(pad == layout::padding(layout::docs_end(views)));
    assert(dict_offset == layout::dict_start(views));

    let mut buf: Vec<u8> = Vec::new();
    push_magic(&mut buf);
    le::push_u32(&mut buf, FORMAT_VERSION);
    le::push_u32(&mut buf, doc_count);
    le::push_u32(&mut buf, gram_count);
    le::push_u64(&mut buf, HEADER_SIZE as u64);
    le::push_u64(&mut buf, 0);
    le::push_u64(&mut buf, dict_offset);
    assert(buf@ =~= layout::header(views, es@));
    buf.append(&mut table);
    buf.append(&mut records);
    let ghost before_pad = buf@;
    let mut k: u64 = 0;
    assert(buf@ =~= before_pad + layout::zeros(0));
    while k < pad
        invariant
            k <= pad,
            buf@ == before_pad + layout::zeros(k as int),
        decreases pad - k,
    {
        buf.push(0);
        k = k + 1;
        assert(buf@ =~= before_pad + layout::zeros(k as int));
    }
    let ghost before_dict = buf@;
    let mut i: usize = 0;
    assert(es@.take(0) =~= Seq::<DictEntry>::empty());
    assert(buf@ =~= before_dict + layout::dict_records(es@.take(0)));
    while i < es.len()
        invariant
            i <= es@.len(),
            buf@ == before_dict + layout::dict_records(es@.take(i as int)),
        decreases es@.len() - i,
    {
        let e: DictEntry = es[i];
        le::push_u64(&mut buf, e.gram);
        le::push_u64(&mut buf, e.offset);
        le::push_u32(&mut buf, e.count);
        proof {
            let next = es@.take(i + 1);
            assert(next.drop_last() =~= es@.take(i as int));
            assert(buf@ =~= before_dict + layout::dict_records(next));
        }
        i = i + 1;
    }
    assert(es@.take(i as int) =~= es@);
    assert(buf@ =~= layout::dict_content(views, es@));
    let checksum: u64 = hash::xxh64(buf.as_slice(), 0);
    let ghost content = buf@;
    le::push_u64(&mut buf, HEADER_SIZE as u64);
    le::push_u64(&mut buf, 0);
    le::push_u64(&mut buf, dict_offset);
    le::push_u32(&mut buf, doc_count);
    le::push_u32(&mut buf, gram_count);
    le::push_u64(&mut buf, checksum);
    le::push_u32(&mut buf, FORMAT_VERSION);
    push_magic(&mut buf);
    assert(buf@ =~= content + layout::footer(views, es@));
    reveal(layout::dict_image);
    buf
}

/// The postings file for the posting records.
fn encode_post(data: Vec<u8>, Ghost(rs): Ghost<Seq<Seq<u8>>>) -> (r: Vec<u8>)
    requires
        data@ == layout::concat_all(rs),
    ensures
        r@ == layout::post_image(rs),
{
    let mut data = data;
    let checksum: u64 = hash::xxh64(data.as_slice(), 0);
    let mut r: Vec<u8> = Vec::new();
    push_magic(&mut r);
    r.push(0x50);
    r.push(0x4F);
    r.push(0x53);
    r.push(0x54);
    assert(r@ =~= layout::post_magic());
    r.append(&mut data);
    le::push_u64(&mut r, checksum);
    reveal(layout::post_image);
    r
}

/// Sorting entries sorts their views.
proof fn lemma_view_arrangement(a: Seq<DocEntry>, b: Seq<DocEntry>)
    requires
        order::rearranged(a, b),
    ensures
        order::rearranged(layout::doc_views(a), layout::doc_views(b)),
{
    let p = choose|p: Seq<int>| order::arranged(a, b, p);
    assert(order::arranged(layout::doc_views(a), layout::doc_views(b), p)) by {
        let va = layout::doc_views(a);
        let vb = layout::doc_views(b);
        assert forall|i: int| 0 <= i < vb.len() implies #[trigger] vb[i] == va[p[i]] by {
            assert(b[i] == a[p[i]]);
        }
    }
}

/// Ids that repeat after sorting repeat before it, and the other way round.
proof fn lemma_distinct_arrangement(a: Seq<DocEntry>, b: Seq<DocEntry>)
    requires
        order::rearranged(a, b),
    ensures
        ids_distinct(layout::doc_views(a)) <==> ids_distinct(layout::doc_views(b)),
{
    let va = layout::doc_views(a);
    let vb = layout::doc_views(b);
    lemma_view_arrangement(a, b);
    let p = choose|p: Seq<int>| order::arranged(va, vb, p);
    if ids_distinct(va) {
        assert forall|i: int, j: int| 0 <= i < j < vb.len() implies vb[i].doc_id
            != vb[j].doc_id by {
            assert(vb[i] == va[p[i]] && vb[j] == va[p[j]]);
            assert(p[i] != p[j]);
            if p[i] < p[j] {
                assert(va[p[i]].doc_id != va[p[j]].doc_id);
            } else {
                assert(va[p[j]].doc_id != va[p[i]].doc_id);
            }
        }
    }
    if ids_distinct(vb) {
        assert forall|i: int, j: int| 0 <= i < j < va.len() implies va[i].doc_id
            != va[j].doc_id by {
            assert(p.contains(i) && p.contains(j));
            let x = choose|x: int| 0 <= x < p.len() && p[x] == i;
            let y = choose|y: int| 0 <= y < p.len() && p[y] == j;
            assert(vb[x] == va[p[x]] && vb[y] == va[p[y]]);
            if x < y {
                assert(vb[x].doc_id != vb[y].doc_id);
            } else {
                assert(vb[y].doc_id != vb[x].doc_id);
            }
        }
    }
}

/// Sorts the documents by id; refuses a repeated id.
fn sort_docs(docs: Vec<DocEntry>) -> (r: Result<Vec<DocEntry>, SegmentError>)
    ensures
        match r {
            Ok(d) => {
                &&& order::rearranged(layout::doc_views(docs@), layout::doc_views(d@))
                &&& layout::ids_ascending(layout::doc_views(d@))
                &&& ids_distinct(layout::doc_views(docs@))
                &&& d@.len() == docs@.len()
            },
            Err(e) => e is DuplicateDocId && lowest_repeated_id(
                layout::doc_views(docs@),
                e->DuplicateDocId_doc_id,
            ),
        },
{
    let ghost docs0 = docs@;
    let ghost views0 = layout::doc_views(docs0);
    let mut v = docs;
    sort_by_doc_id(&mut v);
    proof {
        lemma_view_arrangement(docs0, v@);
        lemma_distinct_arrangement(docs0, v@);
    }
    let mut i: usize = 1;
    while i < v.len()
        invariant
            1 <= i,
            v@.len() > 0 ==> i <= v@.len(),
            ids_sorted(v@),
            order::rearranged(docs0, v@),
            docs0 == docs@,
            views0 == layout::doc_views(docs0),
            forall|a: int, b: int|
                0 <= a < b < i && b < v@.len() ==> v@[a].doc_id < v@[b].doc_id,
        decreases v@.len() - i,
    {
        if v[i - 1].doc_id >= v[i].doc_id {
            let doc_id: u32 = v[i].doc_id;
            proof {
                let p = choose|p: Seq<int>| order::arranged(docs0, v@, p);
                let x = p[i - 1];
                let y = p[i as int];
                assert(v@[i - 1] == docs0[x] && v@[i as int] == docs0[y]);
                assert(v@[i - 1].doc_id <= v@[i as int].doc_id);
                assert(x != y);
                assert(views0[x].doc_id == doc_id && views0[y].doc_id == doc_id);
                assert forall|d: u32| #[trigger] has_repeated_id(views0, d) implies doc_id <= d by {
                    let (m, n) = choose|m: int, n: int|
                        #![trigger views0[m], views0[n]]
                        0 <= m < views0.len() && 0 <= n < views0.len() && m != n
                            && views0[m].doc_id == d && views0[n].doc_id == d;
                    assert(p.contains(m) && p.contains(n));
                    let a = choose|a: int| 0 <= a < p.len() && p[a] == m;
                    let b = choose|b: int| 0 <= b < p.len() && p[b] == n;
                    assert(v@[a] == docs0[m] && v@[b] == docs0[n]);
                    let (lo, hi) = if a < b {
                        (a, b)
                    } else {
                        (b, a)
                    };
                    if d < doc_id {
                        if hi >= i {
                            assert(v@[i as int].doc_id <= v@[hi].doc_id);
                        } else {
                            assert(v@[lo].doc_id < v@[hi].doc_id);
                        }
                    }
                }
            }
            return Err(SegmentError::DuplicateDocId { doc_id });
        }
        assert forall|a: int, b: int| 0 <= a < b < i + 1 && b < v@.len() implies v@[a].doc_id
            < v@[b].doc_id by {
            if b == i && a < i - 1 {
                assert(v@[a].doc_id < v@[i - 1].doc_id);
            }
        }
        i = i + 1;
    }
    assert(layout::ids_ascending(layout::doc_views(v@)));
    Ok(v)
}

/// Sorts the postings and drops repetitions.
fn sort_postings(postings: Vec<(u64, u32)>) -> (r: Vec<(u64, u32)>)
    ensures
        order::pairs_ascending(r@),
        forall|x: (u64, u32)| r@.contains(x) <==> postings@.contains(x),
{
    let mut postings = postings;
    let ghost before = postings@;
    order::sort_pairs(&mut postings);
    proof {
        order::lemma_rearranged_contains(before, postings@);
    }
    order::dedup_pairs(&postings)
}

/// The first long path in the order of ids is the long path of the lowest id.
proof fn lemma_long_path(docs: Seq<DocView>, sorted: Seq<DocEntry>, e: SegmentError)
    requires
        order::rearranged(docs, layout::doc_views(sorted)),
        layout::ids_ascending(layout::doc_views(sorted)),
        first_long_path(sorted, e),
    ensures
        lowest_long_path(docs, e),
{
    let views = layout::doc_views(sorted);
    order::lemma_rearranged_contains(docs, views);
    let i = choose|i: int| #[trigger] long_path_at(sorted, e, i);
    assert(views.contains(views[i]));
    assert(docs.contains(views[i]));
    assert forall|k: int| 0 <= k < docs.len() && (#[trigger] docs[k]).path.len()
        > u16::MAX implies e->PathTooLong_doc_id <= docs[k].doc_id by {
        assert(docs.contains(docs[k]));
        let j = choose|j: int| 0 <= j < views.len() && views[j] == docs[k];
        assert(sorted[j].path@.len() > u16::MAX);
        assert(i <= j);
        if i < j {
            assert(views[i].doc_id < views[j].doc_id);
        }
    }
}

/// There are as many groups as distinct grams.
proof fn lemma_gram_count(gs: Seq<(u64, Seq<u32>)>, postings: Seq<(u64, u32)>)
    requires
        layout::groups_ok(gs),
        forall|x: (u64, u32)| layout::all_pairs(gs).contains(x) <==> postings.contains(x),
    ensures
        grams_of(postings).len() == gs.len(),
{
    let keys = Seq::new(gs.len(), |i: int| gs[i].0);
    assert forall|i: int, j: int| 0 <= i < keys.len() && 0 <= j < keys.len() && i != j implies keys[i]
        != keys[j] by {
        if i < j {
            assert(gs[i].0 < gs[j].0);
        } else {
            assert(gs[j].0 < gs[i].0);
        }
    }
    keys.unique_seq_to_set();
    assert forall|g: u64| keys.to_set().contains(g) <==> grams_of(postings).contains(g) by {
        if keys.contains(g) {
            let i = choose|i: int| 0 <= i < keys.len() && keys[i] == g;
            assert(gs[i].1.len() > 0);
            let d = gs[i].1[0];
            assert(gs[i].1.contains(d));
            crate::segment::laws::lemma_all_pairs(gs, g, d);
            assert(postings.contains((g, d)));
        }
        if grams_of(postings).contains(g) {
            let d = choose|d: u32| #[trigger] postings.contains((g, d));
            crate::segment::laws::lemma_all_pairs(gs, g, d);
            assert(layout::all_pairs(gs).contains((g, d)));
            let i = choose|i: int|
                0 <= i < gs.len() && (#[trigger] gs[i]).0 == g && gs[i].1.contains(d);
            assert(keys[i] == g);
        }
    }
    assert(keys.to_set() =~= grams_of(postings));
}

/// Groups that fit in their counters.
proof fn lemma_counts_fit(gs: Seq<(u64, Seq<u32>)>, postings: Seq<(u64, u32)>)
    requires
        layout::groups_ok(gs),
        gs.len() <= u32::MAX,
        forall|i: int| #![trigger gs[i]] 0 <= i < gs.len() ==> gs[i].1.len() <= u32::MAX,
        forall|x: (u64, u32)| layout::all_pairs(gs).contains(x) <==> postings.contains(x),
    ensures
        counts_fit(postings),
{
    lemma_gram_count(gs, postings);
    assert forall|g: u64| #[trigger] docs_with(postings, g).len() <= u32::MAX by {
        if exists|d: u32| postings.contains((g, d)) {
            let d = choose|d: u32| postings.contains((g, d));
            crate::segment::laws::lemma_all_pairs(gs, g, d);
            assert(layout::all_pairs(gs).contains((g, d)));
            let i = choose|i: int|
                0 <= i < gs.len() && (#[trigger] gs[i]).0 == g && gs[i].1.contains(d);
            assert forall|x: u32| docs_with(postings, g).contains(x) implies gs[i].1.to_set().contains(
                x,
            ) by {
                crate::segment::laws::lemma_all_pairs(gs, g, x);
                assert(layout::all_pairs(gs).contains((g, x)));
                let k = choose|k: int|
                    0 <= k < gs.len() && (#[trigger] gs[k]).0 == g && gs[k].1.contains(x);
                if k < i {
                    assert(gs[k].0 < gs[i].0);
                } else if i < k {
                    assert(gs[i].0 < gs[k].0);
                }
            }
            assert(docs_with(postings, g).subset_of(gs[i].1.to_set()));
            vstd::set_lib::lemma_len_subset(docs_with(postings, g), gs[i].1.to_set());
            vstd::seq_lib::seq_to_set_is_finite(gs[i].1);
            gs[i].1.lemma_cardinality_of_set();
        } else {
            assert(docs_with(postings, g) =~= Set::<u32>::empty());
        }
    }
}

/// The sum of the document sizes, clamped to 64 bits.
fn sum_sizes(docs: &Vec<DocEntry>) -> (n: u64)
    ensures
        n == clamp64(size_total(layout::doc_views(docs@))),
{
    let ghost views = layout::doc_views(docs@);
    let mut n: u64 = 0;
    let mut i: usize = 0;
    while i < docs.len()
        invariant
            i <= docs@.len(),
            views == layout::doc_views(docs@),
            n == clamp64(size_total(views.take(i as int))),
        decreases docs@.len() - i,
    {
        n = n.saturating_add(docs[i].size_bytes);
        proof {
            assert(views.take(i + 1).drop_last() =~= views.take(i as int));
        }
        i = i + 1;
    }
    assert(views.take(i as int) =~= views);
    n
}

/// `.dict`.
pub open spec fn dict_suffix() -> Seq<u8> {
    seq![0x2Eu8, 0x64, 0x69, 0x63, 0x74]
}

/// `.post`.
pub open spec fn post_suffix() -> Seq<u8> {
    seq![0x2Eu8, 0x70, 0x6F, 0x73, 0x74]
}

/// Where the last dot of a name is, or -1.
pub open spec fn last_dot(name: Seq<u8>) -> int
    decreases name.len(),
{
    if name.len() == 0 || name.last() == path_resolve::DOT {
        name.len() - 1
    } else {
        last_dot(name.drop_last())
    }
}

/// A file name without its extension. A dot at the start begins no extension.
pub open spec fn stem(name: Seq<u8>) -> Seq<u8> {
    if last_dot(name) <= 0 {
        name
    } else {
        name.take(last_dot(name))
    }
}

/// `segment`.
pub open spec fn default_stem() -> Seq<u8> {
    seq![0x73u8, 0x65, 0x67, 0x6D, 0x65, 0x6E, 0x74]
}

/// The stem of the file that a path names; a fixed one where it names none, or
/// where the stem is no text.
pub open spec fn stem_of(path: Seq<u8>) -> Seq<u8> {
    let cs = path_resolve::components(path);
    if path_resolve::has_file_name(cs) && vstd::utf8::valid_utf8(stem(cs.last())) {
        stem(cs.last())
    } else {
        default_stem()
    }
}

/// The stem of the segment files beside a path.
fn segment_stem(path: &[u8]) -> (r: Vec<u8>)
    ensures
        r@ == stem_of(path@),
{
    let fixed: [u8; 7] = [0x73, 0x65, 0x67, 0x6D, 0x65, 0x6E, 0x74];
    assert(fixed@ =~= default_stem());
    let cs = path_resolve::split_components(path);
    if !path_resolve::names_file(&cs) {
        return le::bytes_clone(&fixed);
    }
    let name: &[u8] = cs[cs.len() - 1].as_slice();
    assert(name@ == path_resolve::components(path@).last());
    let mut end: usize = name.len();
    assert(name@.take(end as int) =~= name@);
    while end > 0 && name[end - 1] != path_resolve::DOT
        invariant
            end <= name@.len(),
            last_dot(name@) == last_dot(name@.take(end as int)),
        decreases end,
    {
        assert(name@.take(end as int).drop_last() =~= name@.take(end - 1));
        end = end - 1;
    }
    assert(last_dot(name@) == end - 1);
    let cut: usize = if end <= 1 {
        name.len()
    } else {
        end - 1
    };
    let r = le::copy_range(name, 0, cut);
    assert(r@ =~= stem(name@));
    if text::is_utf8(r.as_slice()) {
        r
    } else {
        le::bytes_clone(&fixed)
    }
}

fn dict_name_of(stem: &[u8]) -> (r: Vec<u8>)
    ensures
        r@ == stem@ + dict_suffix(),
{
    let suffix: [u8; 5] = [0x2E, 0x64, 0x69, 0x63, 0x74];
    let mut r = le::bytes_clone(stem);
    le::push_bytes(&mut r, &suffix);
    assert(suffix@ =~= dict_suffix());
    r
}

fn post_name_of(stem: &[u8]) -> (r: Vec<u8>)
    ensures
        r@ == stem@ + post_suffix(),
{
    let suffix: [u8; 5] = [0x2E, 0x70, 0x6F, 0x73, 0x74];
    let mut r = le::bytes_clone(stem);
    le::push_bytes(&mut r, &suffix);
    assert(suffix@ =~= post_suffix());
    r
}

/// Metadata and contents of a segment with the given file names.
fn with_names(
    writer: SegmentWriter,
    segment_id: Vec<u8>,
    dict_filename: Vec<u8>,
    post_filename: Vec<u8>,
) -> (r: Result<(SegmentMeta, SegmentImage), SegmentError>)
    ensures
        match r {
            Ok((meta, image)) => {
                &&& layout::is_segment(image.dict@, image.post@, writer.docs(), writer.postings())
                &&& meta.segment_id@ == segment_id@
                &&& meta.dict_filename@ == dict_filename@
                &&& meta.post_filename@ == post_filename@
                &&& describes(meta, image, writer.docs(), writer.postings())
            },
            Err(e) => refused(writer.docs(), writer.postings(), e),
        },
        r is Ok ==> acceptable(writer.docs(), writer.postings()),
{
    let doc_bytes: u64 = sum_sizes(&writer.docs);
    match writer.serialize() {
        Err(e) => Err(e),
        Ok(image) => {
            let meta = SegmentMeta {
                segment_id,
                filename: Vec::new(),
                dict_filename,
                post_filename,
                doc_count: image.doc_count,
                gram_count: image.gram_count,
                post_len: image.post.len() as u64,
                doc_bytes,
            };
            Ok((meta, image))
        },
    }
}

impl SegmentWriter {
    /// The documents added so far, in the order they were added.
    pub closed spec fn docs(self) -> Seq<DocView> {
        layout::doc_views(self.docs@)
    }

    /// The postings added so far, in the order they were added.
    pub closed spec fn postings(self) -> Seq<(u64, u32)> {
        self.postings@
    }

    /// An empty writer.
    pub fn new() -> (w: Self)
        ensures
            w.docs() == Seq::<DocView>::empty(),
            w.postings() == Seq::<(u64, u32)>::empty(),
    {
        let w = SegmentWriter { docs: Vec::new(), postings: Vec::new() };
        assert(w.docs() =~= Seq::<DocView>::empty());
        w
    }

    /// An empty writer with room for `doc_hint` documents of
    /// `grams_per_doc_hint` grams each. The hint is no limit.
    pub fn with_capacity(doc_hint: usize, grams_per_doc_hint: usize) -> (w: Self)
        requires
            doc_hint * 48 <= isize::MAX,
            doc_hint * grams_per_doc_hint * 16 <= isize::MAX,
        ensures
            w.docs() == Seq::<DocView>::empty(),
            w.postings() == Seq::<(u64, u32)>::empty(),
    {
        let w = SegmentWriter {
            docs: Vec::with_capacity(doc_hint),
            postings: Vec::with_capacity(doc_hint * grams_per_doc_hint),
        };
        assert(w.docs() =~= Seq::<DocView>::empty());
        w
    }

    /// How many documents were added.
    pub fn doc_count(&self) -> (n: usize)
        ensures
            n == self.docs().len(),
    {
        self.docs.len()
    }

    /// Adds a document.
    pub fn add_document(&mut self, doc_id: u32, path: &[u8], content_hash: u64, size_bytes: u64)
        ensures
            final(self).docs() == old(self).docs().push(
                DocView { doc_id, content_hash, size_bytes, path: path@ },
            ),
            final(self).postings() == old(self).postings(),
    {
        let ghost before = self.docs();
        let path = le::bytes_clone(path);
        self.docs.push(DocEntry { doc_id, content_hash, size_bytes, path });
        assert(self.docs() =~= before.push(
            DocView { doc_id, content_hash, size_bytes, path: path@ },
        ));
    }

    /// Records that a document holds a gram.
    pub fn add_gram_posting(&mut self, gram_hash: u64, doc_id: u32)
        ensures
            final(self).docs() == old(self).docs(),
            final(self).postings() == old(self).postings().push((gram_hash, doc_id)),
    {
        self.postings.push((gram_hash, doc_id));
    }

    /// Lays the collected documents and postings out as a segment.
    ///
    /// Refused, in this order: more documents than a 32-bit counter holds; two
    /// documents with the same id; a path above 65535 bytes, the one of the lowest
    /// id. After these, in the order of the grams: more documents of one gram, or
    /// more grams, than a 32-bit counter holds; a bitmap above 4 GiB.
    pub fn serialize(self) -> (r: Result<SegmentImage, SegmentError>)
        ensures
            match r {
                Ok(image) => {
                    &&& layout::is_segment(
                        image.dict@,
                        image.post@,
                        self.docs(),
                        self.postings(),
                    )
                    &&& image.doc_count == self.docs().len()
                    &&& image.gram_count == grams_of(self.postings()).len()
                },
                Err(e) => refused(self.docs(), self.postings(), e),
            },
            r is Ok ==> acceptable(self.docs(), self.postings()),
    {
        let SegmentWriter { docs, postings } = self;
        if docs.len() > 0xFFFF_FFFF {
            return Err(SegmentError::TooLarge);
        }
        let ghost docs0 = docs@;
        let sorted = match sort_docs(docs) {
            Ok(d) => d,
            Err(e) => {
                return Err(e);
            },
        };
        let ghost views = layout::doc_views(sorted@);
        let pairs = sort_postings(postings);
        let (table, records) = match encode_docs(&sorted) {
            Ok(r) => r,
            Err(e) => {
                proof {
                    lemma_long_path(self.docs(), sorted@, e);
                }
                return Err(e);
            },
        };
        proof {
            order::lemma_rearranged_contains(self.docs(), views);
            assert forall|k: int| 0 <= k < self.docs().len() implies (
            #[trigger] self.docs()[k]).path.len() <= u16::MAX by {
                assert(self.docs().contains(self.docs()[k]));
                let j = choose|j: int| 0 <= j < views.len() && views[j] == self.docs()[k];
                assert(sorted@[j].path@.len() <= u16::MAX);
            }
        }
        proof {
            assert(grams_of(self.postings()) =~= grams_of(pairs@));
            assert forall|g: u64| #[trigger] docs_with(self.postings(), g) == docs_with(
                pairs@,
                g,
            ) by {
                assert(docs_with(self.postings(), g) =~= docs_with(pairs@, g));
            }
            assert forall|g: u64| #[trigger] docs_with(pairs@, g) == docs_with(
                self.postings(),
                g,
            ) by {
                assert(docs_with(self.postings(), g) =~= docs_with(pairs@, g));
            }
        }
        let (data, es, gs, rs) = match encode_postings(&pairs) {
            Ok(r) => r,
            Err(e) => {
                return Err(e);
            },
        };
        let doc_count: u32 = sorted.len() as u32;
        let gram_count: u32 = es.len() as u32;
        let dict = encode_dict(table, records, &sorted, &es);
        let post = encode_post(data, rs);
        proof {
            lemma_gram_count(gs@, self.postings());
            lemma_counts_fit(gs@, self.postings());
            assert forall|k: int| 0 <= k < views.len() implies (#[trigger] views[k]).path.len()
                <= u16::MAX by {
                assert(sorted@[k].path@.len() <= u16::MAX);
            }
            assert(layout::segment_parts(dict@, post@, views, gs@, rs@, es@));
            assert(layout::is_segment(dict@, post@, self.docs(), self.postings()));
        }
        Ok(SegmentImage { dict, post, doc_count, gram_count })
    }

    /// The segment as two files named after a fresh UUID.
    pub fn write_to_dir(self) -> (r: Result<(SegmentMeta, SegmentImage), SegmentError>)
        ensures
            match r {
                Ok((meta, image)) => {
                    &&& layout::is_segment(image.dict@, image.post@, self.docs(), self.postings())
                    &&& describes(meta, image, self.docs(), self.postings())
                    &&& files::hyphenated(meta.segment_id@)
                    &&& meta.dict_filename@ == meta.segment_id@ + dict_suffix()
                    &&& meta.post_filename@ == meta.segment_id@ + post_suffix()
                },
                Err(e) => refused(self.docs(), self.postings(), e),
            },
            r is Ok ==> acceptable(self.docs(), self.postings()),
    {
        let id = files::new_uuid();
        let dict_name = dict_name_of(id.as_slice());
        let post_name = post_name_of(id.as_slice());
        with_names(self, id, dict_name, post_name)
    }

    /// The segment as two files named after the file that a path names, with their
    /// own extensions, under a fresh UUID.
    pub fn write_to_file(self, path: &[u8]) -> (r: Result<
        (SegmentMeta, SegmentImage),
        SegmentError,
    >)
        ensures
            match r {
                Ok((meta, image)) => {
                    &&& layout::is_segment(image.dict@, image.post@, self.docs(), self.postings())
                    &&& describes(meta, image, self.docs(), self.postings())
                    &&& files::hyphenated(meta.segment_id@)
                    &&& meta.dict_filename@ == stem_of(path@) + dict_suffix()
                    &&& meta.post_filename@ == stem_of(path@) + post_suffix()
                },
                Err(e) => refused(self.docs(), self.postings(), e),
            },
            r is Ok ==> acceptable(self.docs(), self.postings()),
    {
        let id = files::new_uuid();
        let stem = segment_stem(path);
        let dict_name = dict_name_of(stem.as_slice());
        let post_name = post_name_of(stem.as_slice());
        with_names(self, id, dict_name, post_name)
    }
}

impl Default for SegmentWriter {
    fn default() -> (w: Self)
        ensures
            w.docs() == Seq::<DocView>::empty(),
            w.postings() == Seq::<(u64, u32)>::empty(),
    {
        SegmentWriter::new()
    }
}

} // verus!
