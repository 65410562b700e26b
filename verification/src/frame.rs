//! The frame shared by the sidecar files.
//!
//! Magic (4 bytes), version (4 bytes), checksum of the body (8 bytes), body.

use crate::hash;
use crate::le;
use vstd::prelude::*;
use vstd::slice::slice_subrange;

verus! {

/// Magic, version and checksum.
pub const HEADER_LEN: usize = 16;

/// The version of every sidecar.
pub const FORMAT_VERSION: u32 = 1;

/// Why a frame was refused.
#[derive(Debug, Clone, Copy, PartialEq, Eq, Structural)]
pub enum FrameError {
    /// Shorter than the header.
    TooShort,
    /// Other magic bytes.
    BadMagic,
    /// A version other than [`FORMAT_VERSION`].
    UnsupportedVersion(u32),
    /// The checksum is not that of the body.
    ChecksumMismatch,
}

/// A body in its frame.
pub open spec fn framed(magic: Seq<u8>, body: Seq<u8>) -> Seq<u8> {
    magic + le::le32(FORMAT_VERSION) + le::le64(hash::xxh64_of(body, 0)) + body
}

/// The body of a frame, or why it is refused.
pub open spec fn unframed(magic: Seq<u8>, b: Seq<u8>) -> Result<Seq<u8>, FrameError> {
    let body = b.skip(HEADER_LEN as int);
    if b.len() < HEADER_LEN {
        Err(FrameError::TooShort)
    } else if b.take(4) != magic {
        Err(FrameError::BadMagic)
    } else if le::u32_at(b, 4) != FORMAT_VERSION {
        Err(FrameError::UnsupportedVersion(le::u32_at(b, 4)))
    } else if hash::xxh64_of(body, 0) != le::u64_at(b, 8) {
        Err(FrameError::ChecksumMismatch)
    } else {
        Ok(body)
    }
}

/// Takes the body out of a frame.
pub fn open_frame<'a>(magic: &[u8], bytes: &'a [u8]) -> (r: Result<&'a [u8], FrameError>)
    requires
        magic@.len() == 4,
    ensures
        match unframed(magic@, bytes@) {
            Ok(body) => r matches Ok(s) && s@ == body,
            Err(e) => r == Err::<&[u8], FrameError>(e),
        },
{
    let len: usize = bytes.len();
    if len < HEADER_LEN {
        return Err(FrameError::TooShort);
    }
    let head = slice_subrange(bytes, 0, 4);
    assert(head@ =~= bytes@.take(4));
    if !le::bytes_eq(head, magic) {
        return Err(FrameError::BadMagic);
    }
    let version: u32 = le::read_u32_at(bytes, 4);
    if version != FORMAT_VERSION {
        return Err(FrameError::UnsupportedVersion(version));
    }
    let checksum: u64 = le::read_u64_at(bytes, 8);
    let body = slice_subrange(bytes, HEADER_LEN, len);
    assert(body@ =~= bytes@.skip(HEADER_LEN as int));
    if hash::xxh64(body, 0) != checksum {
        return Err(FrameError::ChecksumMismatch);
    }
    Ok(body)
}

/// Puts a body into a frame.
pub fn close_frame(magic: &[u8], body: &[u8]) -> (r: Vec<u8>)
    requires
        magic@.len() == 4,
    ensures
        r@ == framed(magic@, body@),
        unframed(magic@, r@) == Ok::<Seq<u8>, FrameError>(body@),
{
    let checksum: u64 = hash::xxh64(body, 0);
    let mut out: Vec<u8> = Vec::new();
    le::push_bytes(&mut out, magic);
    le::push_u32(&mut out, FORMAT_VERSION);
    le::push_u64(&mut out, checksum);
    le::push_bytes(&mut out, body);
    proof {
        assert(out@ =~= framed(magic@, body@));
        law_unframe_of_frame(magic@, body@);
    }
    out
}

/// A body comes out of its frame as it went in.
pub proof fn law_unframe_of_frame(magic: Seq<u8>, body: Seq<u8>)
    requires
        magic.len() == 4,
    ensures
        unframed(magic, framed(magic, body)) == Ok::<Seq<u8>, FrameError>(body),
{
    broadcast use le::group_le_len;

    let b = framed(magic, body);
    let sum = hash::xxh64_of(body, 0);
    assert(b.take(4) =~= magic);
    assert(b.subrange(4, 8) =~= le::le32(FORMAT_VERSION));
    le::lemma_u32_at(b, 4, FORMAT_VERSION);
    assert(b.subrange(8, 16) =~= le::le64(sum));
    le::lemma_u64_at(b, 8, sum);
    assert(b.skip(HEADER_LEN as int) =~= body);
}

/// A frame whose body was exchanged is refused wherever the checksums differ.
pub proof fn law_exchanged_body_is_refused(magic: Seq<u8>, body: Seq<u8>, other: Seq<u8>)
    requires
        magic.len() == 4,
        hash::xxh64_of(body, 0) != hash::xxh64_of(other, 0),
    ensures
        unframed(magic, framed(magic, body).take(HEADER_LEN as int) + other) == Err::<
            Seq<u8>,
            FrameError,
        >(FrameError::ChecksumMismatch),
{
    broadcast use le::group_le_len;

    let f = framed(magic, body);
    let b = f.take(HEADER_LEN as int) + other;
    let sum = hash::xxh64_of(body, 0);
    assert(b.take(4) =~= magic);
    assert(b.subrange(4, 8) =~= le::le32(FORMAT_VERSION));
    le::lemma_u32_at(b, 4, FORMAT_VERSION);
    assert(b.subrange(8, 16) =~= le::le64(sum));
    le::lemma_u64_at(b, 8, sum);
    assert(b.skip(HEADER_LEN as int) =~= other);
}

/// A frame is the magic bytes, the version, the checksum and the body, in this order; a
/// frame of another kind, or one that is cut short, is refused.
pub proof fn law_frames_tell_their_kind(magic: Seq<u8>, other: Seq<u8>, body: Seq<u8>, n: int)
    requires
        magic.len() == 4,
        other.len() == 4,
        0 <= n < 16,
    ensures
        framed(magic, body).take(4) == magic,
        framed(magic, body).skip(16) == body,
        le::u32_at(framed(magic, body), 4) == 1,
        le::u64_at(framed(magic, body), 8) == hash::xxh64_of(body, 0),
        other != magic ==> unframed(other, framed(magic, body)) is Err,
        unframed(magic, framed(magic, body).take(n)) is Err,
{
    law_unframe_of_frame(magic, body);
    let f = framed(magic, body);
    assert(f.take(4) =~= magic);
    assert(f.take(n).len() <= n);
}

} // verus!
