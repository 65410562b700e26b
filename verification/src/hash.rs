//! The 64-bit content and file checksum.

use vstd::prelude::*;

verus! {

/// What `xxhash_rust::xxh64::xxh64` returns for an input and a seed.
pub uninterp spec fn xxh64_of(input: Seq<u8>, seed: u64) -> u64;

/// Calls `xxhash_rust::xxh64::xxh64`. The result is a function of the input
/// bytes and the seed alone; nothing else is said of it.
#[verifier::external_body]
pub(crate) fn xxh64(input: &[u8], seed: u64) -> (h: u64)
    ensures
        h == xxh64_of(input@, seed),
{
    xxhash_rust::xxh64::xxh64(input, seed)
}

} // verus!
