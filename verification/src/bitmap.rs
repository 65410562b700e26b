//! Compressed sets of document ids.

use roaring::RoaringBitmap;
use vstd::prelude::*;

verus! {

#[verifier::external_type_specification]
#[verifier::external_body]
pub struct ExRoaringBitmap(RoaringBitmap);

/// The integers that a bitmap holds.
pub uninterp spec fn values(b: RoaringBitmap) -> Set<u32>;

/// The bytes that `RoaringBitmap::serialize_into` writes for a bitmap.
pub uninterp spec fn image(b: RoaringBitmap) -> Seq<u8>;

/// What `RoaringBitmap::deserialize_from` makes of a byte string: the integers
/// of the bitmap it returns, or `None` where it fails.
pub uninterp spec fn parsed(bytes: Seq<u8>) -> Option<Set<u32>>;

/// The bytes that `RoaringBitmap::serialize_into` writes for the bitmap collected
/// from a list of integers.
pub uninterp spec fn collected_image(ids: Seq<u32>) -> Seq<u8>;

/// `ids` in ascending order without repetition.
pub open spec fn strictly_ascending(ids: Seq<u32>) -> bool {
    forall|i: int, j: int| 0 <= i < j < ids.len() ==> ids[i] < ids[j]
}

/// `RoaringBitmap::new`: a bitmap that holds nothing.
#[verifier::external_body]
pub(crate) fn new() -> (b: RoaringBitmap)
    ensures
        values(b) == Set::<u32>::empty(),
{
    RoaringBitmap::new()
}

/// `RoaringBitmap::insert`: adds one integer, and says whether it was absent.
#[verifier::external_body]
pub(crate) fn insert(b: &mut RoaringBitmap, value: u32) -> (fresh: bool)
    ensures
        values(*final(b)) == values(*old(b)).insert(value),
        fresh == !values(*old(b)).contains(value),
{
    b.insert(value)
}

/// `RoaringBitmap::contains`: membership.
#[verifier::external_body]
pub(crate) fn contains(b: &RoaringBitmap, value: u32) -> (r: bool)
    ensures
        r == values(*b).contains(value),
{
    b.contains(value)
}

/// `RoaringBitmap::is_empty`: whether nothing is held.
#[verifier::external_body]
pub(crate) fn is_empty(b: &RoaringBitmap) -> (r: bool)
    ensures
        r == (values(*b) == Set::<u32>::empty()),
{
    b.is_empty()
}

/// `RoaringBitmap::iter`, collected: the integers held, ascending, each once.
#[verifier::external_body]
pub(crate) fn to_vec(b: &RoaringBitmap) -> (r: Vec<u32>)
    ensures
        strictly_ascending(r@),
        r@.to_set() == values(*b),
{
    b.iter().collect()
}

/// `RoaringBitmap::min`: the least integer held.
#[verifier::external_body]
pub(crate) fn min(b: &RoaringBitmap) -> (r: Option<u32>)
    ensures
        match r {
            Some(x) => values(*b).contains(x) && forall|y: u32|
                #[trigger] values(*b).contains(y) ==> x <= y,
            None => values(*b) == Set::<u32>::empty(),
        },
{
    b.min()
}

/// `RoaringBitmap::clone`: a bitmap that holds the same integers.
#[verifier::external_body]
pub(crate) fn clone(b: &RoaringBitmap) -> (r: RoaringBitmap)
    ensures
        values(r) == values(*b),
{
    b.clone()
}

/// `RoaringBitmap::serialized_size`: how many bytes `serialize_into` writes.
#[verifier::external_body]
pub(crate) fn serialized_size(b: &RoaringBitmap) -> (n: usize)
    ensures
        n == image(*b).len(),
{
    b.serialized_size()
}

/// `RoaringBitmap::serialize_into` a fresh vector, which cannot fail to be
/// written to. Reading the bytes back gives the same integers.
#[verifier::external_body]
pub(crate) fn serialize(b: &RoaringBitmap) -> (r: Vec<u8>)
    ensures
        r@ == image(*b),
        parsed(r@) == Some(values(*b)),
{
    let mut out = Vec::with_capacity(b.serialized_size());
    b.serialize_into(&mut out).expect("writing to a vector");
    out
}

/// `RoaringBitmap::deserialize_from` a byte string.
#[verifier::external_body]
pub(crate) fn deserialize(bytes: &[u8]) -> (r: Option<RoaringBitmap>)
    ensures
        match r {
            Some(b) => parsed(bytes@) == Some(values(b)),
            None => parsed(bytes@) == None::<Set<u32>>,
        },
{
    RoaringBitmap::deserialize_from(bytes).ok()
}

/// `RoaringBitmap` collected from an iterator over a slice: the bitmap that holds
/// the listed integers. How it stores them, and so what it serializes to, follows
/// from the list.
#[verifier::external_body]
pub(crate) fn collect(ids: &[u32]) -> (b: RoaringBitmap)
    ensures
        values(b) == ids@.to_set(),
        image(b) == collected_image(ids@),
{
    ids.iter().copied().collect()
}

} // verus!
