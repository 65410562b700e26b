//! The delete-set sidecar, `deletes-<uuid>.idx`.
//!
//! It is a source of truth, not a cache: a base document is hidden from search
//! results by the delete set alone, so every reader fails closed.
//!
//! The body of the frame is the serialized bitmap.

use crate::bitmap;
use crate::files;
use crate::frame;
use crate::frame::FrameError;
use roaring::RoaringBitmap;
use vstd::prelude::*;

verus! {

/// Larger sidecars are refused unread: 1 GiB.
pub const MAX_SIDECAR_SIZE: u64 = 1_073_741_824;

/// Why a delete-set sidecar was refused.
#[derive(Debug, Clone, Copy, PartialEq, Eq, Structural)]
pub enum SidecarError {
    /// The file is larger than [`MAX_SIDECAR_SIZE`].
    TooLarge(u64),
    /// The frame is not sound.
    Frame(FrameError),
    /// The name is not a plain file name.
    BadFilename,
    /// The body is not a bitmap.
    Bitmap,
}

/// `STDL`.
pub open spec fn magic() -> Seq<u8> {
    seq![0x53u8, 0x54, 0x44, 0x4C]
}

/// What a sidecar holds, or why it is refused.
pub open spec fn decoded(b: Seq<u8>) -> Result<Set<u32>, SidecarError> {
    match frame::unframed(magic(), b) {
        Err(e) => Err(SidecarError::Frame(e)),
        Ok(body) => match bitmap::parsed(body) {
            None => Err(SidecarError::Bitmap),
            Some(ids) => Ok(ids),
        },
    }
}

/// `r` is a bitmap with the ids of `d`, or the error of `d`.
pub open spec fn same_outcome(
    r: Result<RoaringBitmap, SidecarError>,
    d: Result<Set<u32>, SidecarError>,
) -> bool {
    match d {
        Err(e) => r == Err::<RoaringBitmap, SidecarError>(e),
        Ok(ids) => r matches Ok(b) && bitmap::values(b) == ids,
    }
}

/// `deletes-`.
pub open spec fn name_prefix() -> Seq<u8> {
    seq![0x64u8, 0x65, 0x6C, 0x65, 0x74, 0x65, 0x73, 0x2D]
}

/// `.idx`.
pub open spec fn name_suffix() -> Seq<u8> {
    seq![0x2Eu8, 0x69, 0x64, 0x78]
}

/// A fresh sidecar name.
pub fn new_filename() -> (r: Vec<u8>)
    ensures
        files::is_generated(r@, name_prefix(), name_suffix()),
        files::plain(r@),
{
    let prefix: [u8; 8] = [0x64, 0x65, 0x6C, 0x65, 0x74, 0x65, 0x73, 0x2D];
    let suffix: [u8; 4] = [0x2E, 0x69, 0x64, 0x78];
    let r = files::generate_name(&prefix, &suffix);
    proof {
        assert(prefix@ =~= name_prefix());
        assert(suffix@ =~= name_suffix());
        files::lemma_generated_is_plain(r@, prefix@, suffix@);
    }
    r
}

/// Why a sidecar of this name and size is not read at all, if it is not.
pub fn screen(name: &[u8], size: u64) -> (r: Result<(), SidecarError>)
    ensures
        r == (if !files::plain(name@) {
            Err::<(), SidecarError>(SidecarError::BadFilename)
        } else if size > MAX_SIDECAR_SIZE {
            Err::<(), SidecarError>(SidecarError::TooLarge(size))
        } else {
            Ok::<(), SidecarError>(())
        }),
{
    if !files::is_plain_filename(name) {
        return Err(SidecarError::BadFilename);
    }
    if size > MAX_SIDECAR_SIZE {
        return Err(SidecarError::TooLarge(size));
    }
    Ok(())
}

/// Reads the delete set out of the named sidecar's bytes.
pub fn read_deletes_idx(name: &[u8], bytes: &[u8]) -> (r: Result<RoaringBitmap, SidecarError>)
    ensures
        if !files::plain(name@) {
            r == Err::<RoaringBitmap, SidecarError>(SidecarError::BadFilename)
        } else if bytes@.len() > MAX_SIDECAR_SIZE {
            r == Err::<RoaringBitmap, SidecarError>(SidecarError::TooLarge(bytes@.len() as u64))
        } else {
            same_outcome(r, decoded(bytes@))
        },
{
    match screen(name, bytes.len() as u64) {
        Err(e) => Err(e),
        Ok(_) => decode(bytes),
    }
}

/// Decodes a sidecar.
pub fn decode(bytes: &[u8]) -> (r: Result<RoaringBitmap, SidecarError>)
    ensures
        same_outcome(r, decoded(bytes@)),
{
    let m: [u8; 4] = [0x53, 0x54, 0x44, 0x4C];
    assert(m@ =~= magic());
    match frame::open_frame(&m, bytes) {
        Err(e) => Err(SidecarError::Frame(e)),
        Ok(body) => match bitmap::deserialize(body) {
            Some(b) => Ok(b),
            None => Err(SidecarError::Bitmap),
        },
    }
}

/// Encodes a delete set. Decoding gives it back.
pub fn encode(b: &RoaringBitmap) -> (r: Vec<u8>)
    ensures
        r@ == frame::framed(magic(), bitmap::image(*b)),
        decoded(r@) == Ok::<Set<u32>, SidecarError>(bitmap::values(*b)),
{
    let m: [u8; 4] = [0x53, 0x54, 0x44, 0x4C];
    assert(m@ =~= magic());
    let body = bitmap::serialize(b);
    frame::close_frame(&m, body.as_slice())
}

/// What `write_deletes_idx` puts on disk under a plain name; another name is
/// refused.
pub fn write_deletes_idx(name: &[u8], b: &RoaringBitmap) -> (r: Result<Vec<u8>, SidecarError>)
    ensures
        match r {
            Ok(v) => files::plain(name@) && v@ == frame::framed(magic(), bitmap::image(*b))
                && decoded(v@) == Ok::<Set<u32>, SidecarError>(bitmap::values(*b)),
            Err(e) => !files::plain(name@) && e == SidecarError::BadFilename,
        },
{
    if !files::is_plain_filename(name) {
        return Err(SidecarError::BadFilename);
    }
    Ok(encode(b))
}

} // verus!
