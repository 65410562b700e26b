//! Posting lists: the documents that hold a gram.
//!
//! Short lists are delta-coded variable-length integers, long ones are
//! compressed bitmaps.

use crate::bitmap;
use roaring::RoaringBitmap;
use vstd::prelude::*;

verus! {

/// Lists with at least this many ids are stored as bitmaps.
pub const ROARING_THRESHOLD: usize = 8192;

/// A posting list as it is stored.
pub enum PostingList {
    /// Delta-coded ids.
    Small(Vec<u8>),
    /// A bitmap of ids.
    Large(RoaringBitmap),
}

/// Why a posting list could not be coded or decoded.
#[derive(Debug, Clone, Copy, PartialEq, Eq, Structural)]
pub enum VarintError {
    /// The ids to encode are not strictly ascending.
    NotAscending,
    /// The bytes end inside an integer, an integer takes more than five bytes,
    /// or an id leaves the 32-bit range.
    Malformed,
}

/// Seven bits per byte, low bits first, the top bit set on all but the last.
pub open spec fn varint(x: nat) -> Seq<u8>
    decreases x,
{
    if x < 128 {
        seq![x as u8]
    } else {
        seq![(x % 128 + 128) as u8] + varint(x / 128)
    }
}

/// The ids as differences, the first from `prev`.
pub open spec fn varint_list(ids: Seq<u32>, prev: u32) -> Seq<u8>
    decreases ids.len(),
{
    if ids.len() == 0 {
        Seq::empty()
    } else {
        varint((ids[0] - prev) as nat) + varint_list(ids.drop_first(), ids[0])
    }
}

/// The integer at the front of `s` and its width, looking at `left` bytes at
/// most.
pub open spec fn read_varint(s: Seq<u8>, left: nat) -> Option<(nat, nat)>
    decreases left,
{
    if left == 0 || s.len() == 0 {
        None
    } else if s[0] < 128 {
        Some((s[0] as nat, 1))
    } else {
        match read_varint(s.drop_first(), (left - 1) as nat) {
            Some((v, n)) => Some(((s[0] - 128 + 128 * v) as nat, n + 1)),
            None => None,
        }
    }
}

/// The ids that `s` encodes as differences from `prev`.
pub open spec fn decoded(s: Seq<u8>, prev: u32) -> Option<Seq<u32>>
    decreases s.len(),
{
    if s.len() == 0 {
        Some(Seq::empty())
    } else {
        match read_varint(s, 5) {
            None => None,
            Some((v, n)) => if prev + v > u32::MAX || n > s.len() || n == 0 {
                None
            } else {
                match decoded(s.skip(n as int), (prev + v) as u32) {
                    None => None,
                    Some(rest) => Some(seq![(prev + v) as u32] + rest),
                }
            },
        }
    }
}

/// The largest value that fits in `left` bytes, plus one.
pub open spec fn varint_bound(left: nat) -> nat {
    if left <= 1 {
        0x80
    } else if left == 2 {
        0x4000
    } else if left == 3 {
        0x20_0000
    } else if left == 4 {
        0x1000_0000
    } else {
        0x8_0000_0000
    }
}

fn read_varint_at(b: &[u8], pos: usize, left: u8) -> (r: Option<(u64, usize)>)
    requires
        pos <= b@.len(),
        left <= 5,
    ensures
        match r {
            Some((v, n)) => read_varint(b@.skip(pos as int), left as nat) == Some(
                (v as nat, n as nat),
            ) && v < varint_bound(left as nat) && 1 <= n && pos + n <= b@.len(),
            None => read_varint(b@.skip(pos as int), left as nat) == None::<(nat, nat)>,
        },
    decreases left,
{
    if left == 0 || pos >= b.len() {
        return None;
    }
    let x: u8 = b[pos];
    assert(b@.skip(pos as int)[0] == x);
    if x < 128 {
        return Some((x as u64, 1));
    }
    assert(b@.skip(pos as int).drop_first() =~= b@.skip(pos + 1));
    match read_varint_at(b, pos + 1, left - 1) {
        Some((v, n)) => {
            assert(left >= 2);
            Some(((x - 128) as u64 + 128 * v, n + 1))
        },
        None => None,
    }
}

/// Decodes a short posting list.
pub fn varint_decode(b: &[u8]) -> (r: Result<Vec<u32>, VarintError>)
    ensures
        match r {
            Ok(v) => decoded(b@, 0) == Some(v@),
            Err(e) => decoded(b@, 0) == None::<Seq<u32>> && e == VarintError::Malformed,
        },
{
    let mut out: Vec<u32> = Vec::new();
    let mut pos: usize = 0;
    let mut prev: u32 = 0;
    assert(b@.skip(0) =~= b@);
    assert(match decoded(b@.skip(0), 0) {
        Some(rest) => Some(out@ + rest) == Some(rest),
        None => true,
    }) by {
        match decoded(b@, 0) {
            Some(rest) => {
                assert(out@ + rest =~= rest);
            },
            None => {},
        }
    }
    while pos < b.len()
        invariant
            pos <= b@.len(),
            match decoded(b@.skip(pos as int), prev) {
                Some(rest) => decoded(b@, 0) == Some(out@ + rest),
                None => decoded(b@, 0) == None::<Seq<u32>>,
            },
        decreases b@.len() - pos,
    {
        let ghost tail = b@.skip(pos as int);
        match read_varint_at(b, pos, 5) {
            None => {
                return Err(VarintError::Malformed);
            },
            Some((v, n)) => {
                if v > (u32::MAX - prev) as u64 {
                    return Err(VarintError::Malformed);
                }
                let id: u32 = prev + v as u32;
                assert(tail.skip(n as int) =~= b@.skip(pos + n));
                proof {
                    match decoded(tail.skip(n as int), id) {
                        Some(rest) => {
                            assert(out@ + (seq![id] + rest) =~= out@.push(id) + rest);
                        },
                        None => {},
                    }
                }
                out.push(id);
                prev = id;
                pos = pos + n;
            },
        }
    }
    assert(b@.skip(pos as int).len() == 0);
    assert(out@ + Seq::<u32>::empty() =~= out@);
    Ok(out)
}

fn push_varint(out: &mut Vec<u8>, x: u32)
    ensures
        final(out)@ == old(out)@ + varint(x as nat),
{
    let ghost before = out@;
    let mut rest: u32 = x;
    assert(out@ + varint(rest as nat) =~= before + varint(x as nat));
    while rest >= 128
        invariant
            out@ + varint(rest as nat) == before + varint(x as nat),
        decreases rest,
    {
        let ghost prior = out@;
        let b: u8 = (rest % 128) as u8 + 128;
        out.push(b);
        proof {
            assert(varint(rest as nat) == seq![b] + varint((rest / 128) as nat));
            assert(prior + (seq![b] + varint((rest / 128) as nat)) =~= prior.push(b) + varint(
                (rest / 128) as nat,
            ));
        }
        rest = rest / 128;
    }
    let ghost prior = out@;
    out.push(rest as u8);
    assert(prior + seq![rest as u8] =~= prior.push(rest as u8));
}

/// Encodes a short posting list; refuses ids that are not strictly ascending.
pub fn varint_encode(ids: &[u32]) -> (r: Result<Vec<u8>, VarintError>)
    ensures
        match r {
            Ok(b) => bitmap::strictly_ascending(ids@) && b@ == varint_list(ids@, 0),
            Err(e) => !bitmap::strictly_ascending(ids@) && e == VarintError::NotAscending,
        },
{
    let mut out: Vec<u8> = Vec::new();
    let mut prev: u32 = 0;
    let mut i: usize = 0;
    assert(ids@.skip(0) =~= ids@);
    assert(out@ + varint_list(ids@, 0) =~= varint_list(ids@, 0));
    while i < ids.len()
        invariant
            i <= ids@.len(),
            bitmap::strictly_ascending(ids@.take(i as int)),
            i == 0 ==> prev == 0,
            i > 0 ==> prev == ids@[i - 1],
            out@ + varint_list(ids@.skip(i as int), prev) == varint_list(ids@, 0),
        decreases ids@.len() - i,
    {
        if i > 0 && ids[i] <= prev {
            assert(!(ids@[i - 1] < ids@[i as int]));
            return Err(VarintError::NotAscending);
        }
        let ghost before = out@;
        let ghost tail = ids@.skip(i as int);
        let d: u32 = ids[i] - prev;
        push_varint(&mut out, d);
        proof {
            assert(tail.drop_first() =~= ids@.skip(i + 1));
            assert(tail[0] == ids@[i as int]);
            assert(before + (varint(d as nat) + varint_list(ids@.skip(i + 1), ids@[i as int]))
                =~= out@ + varint_list(ids@.skip(i + 1), ids@[i as int]));
            let next = ids@.take(i + 1);
            assert forall|a: int, b: int| 0 <= a < b < next.len() implies next[a] < next[b] by {
                if b < i {
                    assert(ids@.take(i as int)[a] < ids@.take(i as int)[b]);
                } else if a < i - 1 {
                    assert(ids@.take(i as int)[a] < ids@.take(i as int)[i - 1]);
                }
            }
        }
        prev = ids[i];
        i = i + 1;
    }
    assert(ids@.take(i as int) =~= ids@);
    assert(ids@.skip(i as int).len() == 0);
    assert(out@ + Seq::<u8>::empty() =~= out@);
    Ok(out)
}

/// The ids of a stored list, ascending, or `None` where it is malformed.
pub open spec fn posting_ids(p: PostingList, ids: Seq<u32>) -> bool {
    match p {
        PostingList::Small(b) => decoded(b@, 0) == Some(ids),
        PostingList::Large(b) => bitmap::strictly_ascending(ids) && ids.to_set() == bitmap::values(b),
    }
}

impl PostingList {
    /// The ids of the list, in ascending order.
    pub fn to_vec(&self) -> (r: Result<Vec<u32>, VarintError>)
        ensures
            match r {
                Ok(v) => posting_ids(*self, v@),
                Err(e) => e == VarintError::Malformed && (*self matches PostingList::Small(b)
                    && decoded(b@, 0) == None::<Seq<u32>>),
            },
    {
        match self {
            PostingList::Small(b) => varint_decode(b.as_slice()),
            PostingList::Large(b) => Ok(bitmap::to_vec(b)),
        }
    }
}

/// An encoded integer has at most five bytes, and reading it gives it back.
pub proof fn lemma_varint_read(x: nat, rest: Seq<u8>, left: nat)
    requires
        1 <= left <= 5,
        x < varint_bound(left),
    ensures
        1 <= varint(x).len() <= left,
        read_varint(varint(x) + rest, left) == Some((x, varint(x).len())),
    decreases left,
{
    let s = varint(x) + rest;
    if x < 128 {
        assert(s[0] == x as u8);
    } else {
        assert(left >= 2);
        lemma_varint_read(x / 128, rest, (left - 1) as nat);
        assert(s[0] == (x % 128 + 128) as u8);
        assert(s.drop_first() =~= varint(x / 128) + rest);
    }
}

/// Decoding what was encoded gives the ids back.
pub proof fn lemma_varint_round_trip(ids: Seq<u32>, prev: u32)
    requires
        bitmap::strictly_ascending(ids),
        ids.len() > 0 ==> prev <= ids[0],
    ensures
        decoded(varint_list(ids, prev), prev) == Some(ids),
    decreases ids.len(),
{
    if ids.len() > 0 {
        let d = (ids[0] - prev) as nat;
        let tail = ids.drop_first();
        let rest = varint_list(tail, ids[0]);
        lemma_varint_read(d, rest, 5);
        let s = varint_list(ids, prev);
        assert(s.skip(varint(d).len() as int) =~= rest);
        assert(bitmap::strictly_ascending(tail)) by {
            assert forall|a: int, b: int| 0 <= a < b < tail.len() implies tail[a] < tail[b] by {
                assert(ids[a + 1] < ids[b + 1]);
            }
        }
        if tail.len() > 0 {
            assert(ids[0] < ids[1]);
        }
        lemma_varint_round_trip(tail, ids[0]);
        assert(seq![ids[0]] + tail =~= ids);
    }
}

/// The encoding of a list takes at most five bytes per id.
pub proof fn lemma_varint_list_len(ids: Seq<u32>, prev: u32)
    requires
        bitmap::strictly_ascending(ids),
        ids.len() > 0 ==> prev <= ids[0],
    ensures
        varint_list(ids, prev).len() <= 5 * ids.len(),
    decreases ids.len(),
{
    if ids.len() > 0 {
        lemma_varint_read((ids[0] - prev) as nat, Seq::empty(), 5);
        let tail = ids.drop_first();
        assert(bitmap::strictly_ascending(tail)) by {
            assert forall|a: int, b: int| 0 <= a < b < tail.len() implies tail[a] < tail[b] by {
                assert(ids[a + 1] < ids[b + 1]);
            }
        }
        if tail.len() > 0 {
            assert(ids[0] < ids[1]);
        }
        lemma_varint_list_len(tail, ids[0]);
    }
}

} // verus!
