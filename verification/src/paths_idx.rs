//! The path index sidecar, `paths.idx`.
//!
//! A cache of the sorted path list and of the bitmaps that say which files
//! have an extension or a path component. A reader that fails rebuilds the
//! path index from the segments.
//!
//! The body of the frame is a path count and that many paths (length, bytes),
//! then two tables, each a count and that many rows (key length, key, bitmap
//! length, serialized bitmap), in the order of the bytes of the keys.

use crate::bitmap;
use crate::byte_map;
use crate::byte_map::ByteMap;
use crate::frame;
use crate::frame::FrameError;
use crate::le;
use crate::order;
use crate::paths;
use roaring::RoaringBitmap;
use vstd::prelude::*;
use vstd::slice::slice_subrange;

verus! {

/// The version that the manifest records beside a sidecar.
pub const FORMAT_VERSION: u32 = frame::FORMAT_VERSION;

/// Larger sidecars are refused unread: 8 GiB.
pub const MAX_SIDECAR_SIZE: u64 = 8_589_934_592;

/// Why a path index sidecar was refused.
#[derive(Debug, Clone, Copy, PartialEq, Eq, Structural)]
pub enum SidecarError {
    /// The file is larger than [`MAX_SIDECAR_SIZE`].
    TooLarge(u64),
    /// The frame is not sound.
    Frame(FrameError),
    /// A length points past the end, or bytes follow the last row.
    Truncated,
    /// A row holds no bitmap.
    Bitmap,
}

/// Paths with the files that have each extension and each path component.
pub struct PathsIdx {
    pub paths: Vec<Vec<u8>>,
    pub extensions: ByteMap<RoaringBitmap>,
    pub components: ByteMap<RoaringBitmap>,
}

/// What a [`PathsIdx`] holds.
#[verifier::ext_equal]
pub struct PathsView {
    pub paths: Seq<Seq<u8>>,
    pub extensions: Map<Seq<u8>, Set<u32>>,
    pub components: Map<Seq<u8>, Set<u32>>,
}

/// The sets that the bitmaps of a table hold.
pub open spec fn sets_of(m: Map<Seq<u8>, RoaringBitmap>) -> Map<Seq<u8>, Set<u32>> {
    Map::new(|k: Seq<u8>| m.contains_key(k), |k: Seq<u8>| bitmap::values(m[k]))
}

impl View for PathsIdx {
    type V = PathsView;

    open spec fn view(&self) -> PathsView {
        PathsView {
            paths: paths::path_views(self.paths@),
            extensions: sets_of(self.extensions@),
            components: sets_of(self.components@),
        }
    }
}

/// `STPI`.
pub open spec fn magic() -> Seq<u8> {
    seq![0x53u8, 0x54, 0x50, 0x49]
}

/// Bytes behind their length.
pub open spec fn chunk(b: Seq<u8>) -> Seq<u8> {
    le::le32(b.len() as u32) + b
}

/// Paths one after the other.
pub open spec fn chunks(s: Seq<Seq<u8>>) -> Seq<u8>
    decreases s.len(),
{
    if s.len() == 0 {
        Seq::empty()
    } else {
        chunk(s[0]) + chunks(s.drop_first())
    }
}

/// Rows one after the other.
pub open spec fn rows(keys: Seq<Seq<u8>>, bodies: Seq<Seq<u8>>) -> Seq<u8>
    decreases keys.len(),
{
    if keys.len() == 0 {
        Seq::empty()
    } else {
        chunk(keys[0]) + chunk(bodies[0]) + rows(keys.drop_first(), bodies.drop_first())
    }
}

/// The serialized bitmaps of a table.
pub open spec fn images(v: Seq<RoaringBitmap>) -> Seq<Seq<u8>> {
    Seq::new(v.len(), |i: int| bitmap::image(v[i]))
}

/// A table behind its row count.
pub open spec fn table(m: ByteMap<RoaringBitmap>) -> Seq<u8> {
    le::le32(m.values@.len() as u32) + rows(m.seq(), images(m.values@))
}

/// The body of a sidecar.
pub open spec fn body_of(x: PathsIdx) -> Seq<u8> {
    le::le32(x.paths@.len() as u32) + chunks(paths::path_views(x.paths@)) + table(x.extensions)
        + table(x.components)
}

/// The bytes of a chunk at the front of `b`, and what follows.
pub open spec fn take_chunk(b: Seq<u8>) -> Option<(Seq<u8>, Seq<u8>)> {
    let n = le::u32_at(b, 0) as int;
    if b.len() < 4 || 4 + n > b.len() {
        None
    } else {
        Some((b.subrange(4, 4 + n), b.skip(4 + n)))
    }
}

/// `n` chunks from the front of `b`, and what follows.
pub open spec fn take_chunks(b: Seq<u8>, n: nat) -> Option<(Seq<Seq<u8>>, Seq<u8>)>
    decreases n,
{
    if n == 0 {
        Some((Seq::empty(), b))
    } else {
        match take_chunk(b) {
            None => None,
            Some((c, rest)) => match take_chunks(rest, (n - 1) as nat) {
                None => None,
                Some((cs, end)) => Some((seq![c] + cs, end)),
            },
        }
    }
}

/// `n` rows from the front of `b` put into `m`, and what follows.
pub open spec fn take_rows(b: Seq<u8>, n: nat, m: Map<Seq<u8>, Set<u32>>) -> Result<
    (Map<Seq<u8>, Set<u32>>, Seq<u8>),
    SidecarError,
>
    decreases n,
{
    if n == 0 {
        Ok((m, b))
    } else {
        match take_chunk(b) {
            None => Err(SidecarError::Truncated),
            Some((key, b1)) => match take_chunk(b1) {
                None => Err(SidecarError::Truncated),
                Some((body, b2)) => match bitmap::parsed(body) {
                    None => Err(SidecarError::Bitmap),
                    Some(ids) => take_rows(b2, (n - 1) as nat, m.insert(key, ids)),
                },
            },
        }
    }
}

/// A table at the front of `b`, and what follows.
pub open spec fn take_table(b: Seq<u8>) -> Result<
    (Map<Seq<u8>, Set<u32>>, Seq<u8>),
    SidecarError,
> {
    if b.len() < 4 {
        Err(SidecarError::Truncated)
    } else {
        take_rows(b.skip(4), le::u32_at(b, 0) as nat, Map::empty())
    }
}

/// What a body holds, or why it is refused.
pub open spec fn parsed_body(b: Seq<u8>) -> Result<PathsView, SidecarError> {
    if b.len() < 4 {
        Err(SidecarError::Truncated)
    } else {
        match take_chunks(b.skip(4), le::u32_at(b, 0) as nat) {
            None => Err(SidecarError::Truncated),
            Some((list, b1)) => match take_table(b1) {
                Err(e) => Err(e),
                Ok((extensions, b2)) => match take_table(b2) {
                    Err(e) => Err(e),
                    Ok((components, b3)) => if b3.len() > 0 {
                        Err(SidecarError::Truncated)
                    } else {
                        Ok(PathsView { paths: list, extensions, components })
                    },
                },
            },
        }
    }
}

/// What a sidecar holds, or why it is refused.
pub open spec fn decoded(b: Seq<u8>) -> Result<PathsView, SidecarError> {
    match frame::unframed(magic(), b) {
        Err(e) => Err(SidecarError::Frame(e)),
        Ok(body) => parsed_body(body),
    }
}

/// `r` holds what `d` says, or is the error of `d`.
pub open spec fn same_outcome(
    r: Result<PathsIdx, SidecarError>,
    d: Result<PathsView, SidecarError>,
) -> bool {
    match d {
        Err(e) => r == Err::<PathsIdx, SidecarError>(e),
        Ok(v) => r matches Ok(x) && x.wf() && x@ == v,
    }
}

/// The lengths of a list fit in 32 bits.
pub open spec fn list_fits(s: Seq<Seq<u8>>) -> bool {
    &&& s.len() <= u32::MAX
    &&& forall|i: int| 0 <= i < s.len() ==> (#[trigger] s[i]).len() <= u32::MAX
}

/// The counts and lengths of a table fit in 32 bits.
pub open spec fn table_fits(m: ByteMap<RoaringBitmap>) -> bool {
    list_fits(m.seq()) && list_fits(images(m.values@))
}

impl PathsIdx {
    pub open spec fn wf(self) -> bool {
        self.extensions.wf() && self.components.wf()
    }

    /// The counts and lengths of the format fit.
    pub open spec fn fits(self) -> bool {
        list_fits(paths::path_views(self.paths@)) && table_fits(self.extensions) && table_fits(
            self.components,
        )
    }
}

/// The chunk at `pos`: where its bytes start and end.
fn read_chunk(body: &[u8], pos: usize) -> (r: Option<(usize, usize)>)
    requires
        pos <= body@.len(),
    ensures
        match take_chunk(body@.skip(pos as int)) {
            None => r is None,
            Some((c, rest)) => r matches Some((start, end)) && start <= end <= body@.len()
                && body@.subrange(start as int, end as int) == c && body@.skip(end as int) == rest,
        },
{
    let len: usize = body.len();
    let ghost b = body@.skip(pos as int);
    if len - pos < 4 {
        return None;
    }
    let n: u32 = le::read_u32_at(body, pos);
    assert(body@.subrange(pos as int, pos + 4) =~= b.subrange(0, 4));
    let start: usize = pos + 4;
    if n as u64 > (len - start) as u64 {
        return None;
    }
    let end: usize = start + n as usize;
    proof {
        assert(body@.subrange(start as int, end as int) =~= b.subrange(4, 4 + n as int));
        assert(body@.skip(end as int) =~= b.skip(4 + n as int));
    }
    Some((start, end))
}

/// `n` chunks from `pos` on, and where they end.
fn read_chunks(body: &[u8], pos: usize, n: u32) -> (r: Option<(Vec<Vec<u8>>, usize)>)
    requires
        pos <= body@.len(),
    ensures
        match take_chunks(body@.skip(pos as int), n as nat) {
            None => r is None,
            Some((cs, rest)) => r matches Some((v, end)) && paths::path_views(v@) == cs && end
                <= body@.len() && body@.skip(end as int) == rest,
        },
        r matches Some((v, end)) ==> v@.len() == n,
{
    let mut v: Vec<Vec<u8>> = Vec::new();
    let mut at: usize = pos;
    let mut left: u32 = n;
    let ghost whole = take_chunks(body@.skip(pos as int), n as nat);
    assert(paths::path_views(v@) =~= Seq::<Seq<u8>>::empty());
    proof {
        match whole {
            Some((cs, rest)) => {
                assert(Seq::<Seq<u8>>::empty() + cs =~= cs);
            },
            None => {},
        }
    }
    while left > 0
        invariant
            at <= body@.len(),
            whole == take_chunks(body@.skip(pos as int), n as nat),
            v@.len() + left == n,
            match take_chunks(body@.skip(at as int), left as nat) {
                None => whole is None,
                Some((cs, rest)) => whole == Some((paths::path_views(v@) + cs, rest)),
            },
        decreases left,
    {
        match read_chunk(body, at) {
            None => {
                return None;
            },
            Some((start, end)) => {
                let c = le::copy_range(body, start, end);
                let ghost shown = c@;
                let ghost before = v@;
                v.push(c);
                proof {
                    assert(paths::path_views(v@) =~= paths::path_views(before).push(shown));
                    match take_chunks(body@.skip(end as int), (left - 1) as nat) {
                        Some((cs, rest)) => {
                            assert(paths::path_views(before) + (seq![shown] + cs)
                                =~= paths::path_views(before).push(shown) + cs);
                        },
                        None => {},
                    }
                }
                at = end;
            },
        }
        left = left - 1;
    }
    assert(paths::path_views(v@) + Seq::<Seq<u8>>::empty() =~= paths::path_views(v@));
    Some((v, at))
}

/// The table at `pos`, and where it ends.
fn read_bitmap_table(body: &[u8], pos: usize) -> (r: Result<
    (ByteMap<RoaringBitmap>, usize),
    SidecarError,
>)
    requires
        pos <= body@.len(),
    ensures
        match take_table(body@.skip(pos as int)) {
            Err(e) => r == Err::<(ByteMap<RoaringBitmap>, usize), SidecarError>(e),
            Ok((sets, rest)) => r matches Ok((m, end)) && m.wf() && sets_of(m@) == sets && end
                <= body@.len() && body@.skip(end as int) == rest,
        },
{
    let len: usize = body.len();
    let ghost b = body@.skip(pos as int);
    if len - pos < 4 {
        return Err(SidecarError::Truncated);
    }
    let count: u32 = le::read_u32_at(body, pos);
    assert(body@.subrange(pos as int, pos + 4) =~= b.subrange(0, 4));
    assert(b.skip(4) =~= body@.skip(pos + 4));
    let mut m: ByteMap<RoaringBitmap> = ByteMap::new();
    assert(sets_of(m@) =~= Map::<Seq<u8>, Set<u32>>::empty());
    let mut at: usize = pos + 4;
    let mut left: u32 = count;
    while left > 0
        invariant
            m.wf(),
            at <= body@.len(),
            take_table(b) == take_rows(body@.skip(at as int), left as nat, sets_of(m@)),
            b == body@.skip(pos as int),
        decreases left,
    {
        let (ks, ke) = match read_chunk(body, at) {
            None => {
                return Err(SidecarError::Truncated);
            },
            Some(p) => p,
        };
        let (bs, be) = match read_chunk(body, ke) {
            None => {
                return Err(SidecarError::Truncated);
            },
            Some(p) => p,
        };
        match bitmap::deserialize(slice_subrange(body, bs, be)) {
            None => {
                return Err(SidecarError::Bitmap);
            },
            Some(bm) => {
                let ghost before = m@;
                let ghost ids = bitmap::values(bm);
                let key = slice_subrange(body, ks, ke);
                m.insert(key, bm);
                assert(sets_of(m@) =~= sets_of(before).insert(key@, ids));
            },
        }
        at = be;
        left = left - 1;
    }
    Ok((m, at))
}

/// Reads the path index out of the sidecar's bytes.
pub fn read_paths_idx(bytes: &[u8]) -> (r: Result<PathsIdx, SidecarError>)
    ensures
        if bytes@.len() > MAX_SIDECAR_SIZE {
            r == Err::<PathsIdx, SidecarError>(SidecarError::TooLarge(bytes@.len() as u64))
        } else {
            same_outcome(r, decoded(bytes@))
        },
        r matches Ok(x) ==> x.paths@.len() <= u32::MAX,
{
    if bytes.len() as u64 > MAX_SIDECAR_SIZE {
        return Err(SidecarError::TooLarge(bytes.len() as u64));
    }
    decode(bytes)
}

/// Decodes a sidecar.
pub fn decode(bytes: &[u8]) -> (r: Result<PathsIdx, SidecarError>)
    ensures
        same_outcome(r, decoded(bytes@)),
        r matches Ok(x) ==> x.paths@.len() <= u32::MAX,
{
    let m: [u8; 4] = [0x53, 0x54, 0x50, 0x49];
    assert(m@ =~= magic());
    let body: &[u8] = match frame::open_frame(&m, bytes) {
        Err(e) => {
            return Err(SidecarError::Frame(e));
        },
        Ok(b) => b,
    };
    let len: usize = body.len();
    if len < 4 {
        return Err(SidecarError::Truncated);
    }
    let count: u32 = le::read_u32_at(body, 0);
    let (list, p1) = match read_chunks(body, 4, count) {
        None => {
            return Err(SidecarError::Truncated);
        },
        Some(x) => x,
    };
    let (extensions, p2) = match read_bitmap_table(body, p1) {
        Err(e) => {
            return Err(e);
        },
        Ok(x) => x,
    };
    let (components, p3) = match read_bitmap_table(body, p2) {
        Err(e) => {
            return Err(e);
        },
        Ok(x) => x,
    };
    if p3 != len {
        return Err(SidecarError::Truncated);
    }
    Ok(PathsIdx { paths: list, extensions, components })
}

fn push_chunk(out: &mut Vec<u8>, b: &[u8])
    requires
        b@.len() <= u32::MAX,
    ensures
        final(out)@ == old(out)@ + chunk(b@),
{
    let ghost before = out@;
    le::push_u32(out, b.len() as u32);
    le::push_bytes(out, b);
    assert(out@ =~= before + chunk(b@));
}

/// Appends a table, unless a length does not fit.
fn write_bitmap_table(out: &mut Vec<u8>, m: &ByteMap<RoaringBitmap>) -> (ok: bool)
    requires
        m.wf(),
    ensures
        ok == table_fits(*m),
        ok ==> final(out)@ == old(out)@ + table(*m),
        ok ==> forall|i: int|
            #![trigger m.values@[i]]
            0 <= i < m.values@.len() ==> bitmap::parsed(bitmap::image(m.values@[i])) == Some(
                bitmap::values(m.values@[i]),
            ),
{
    let ghost before = out@;
    let ghost ks = m.seq();
    let ghost bs = images(m.values@);
    if m.values.len() > 0xFFFF_FFFF {
        return false;
    }
    le::push_u32(out, m.values.len() as u32);
    let mut i: usize = 0;
    assert(ks.skip(0) =~= ks && bs.skip(0) =~= bs);
    assert(out@ + rows(ks.skip(0), bs.skip(0)) =~= before + table(*m));
    while i < m.values.len()
        invariant
            m.wf(),
            m.values@.len() <= u32::MAX,
            ks == m.seq(),
            bs == images(m.values@),
            i <= bs.len(),
            out@ + rows(ks.skip(i as int), bs.skip(i as int)) == before + table(*m),
            forall|k: int| 0 <= k < i ==> (#[trigger] ks[k]).len() <= u32::MAX,
            forall|k: int| 0 <= k < i ==> (#[trigger] bs[k]).len() <= u32::MAX,
            forall|k: int|
                #![trigger m.values@[k]]
                0 <= k < i ==> bitmap::parsed(bitmap::image(m.values@[k])) == Some(
                    bitmap::values(m.values@[k]),
                ),
        decreases bs.len() - i,
    {
        let key: &[u8] = m.keys[i].as_slice();
        assert(key@ == ks[i as int]);
        let data = bitmap::serialize(&m.values[i]);
        if key.len() > 0xFFFF_FFFF || data.len() > 0xFFFF_FFFF {
            assert(ks[i as int].len() > u32::MAX || bs[i as int].len() > u32::MAX);
            return false;
        }
        let ghost start = out@;
        push_chunk(out, key);
        push_chunk(out, data.as_slice());
        proof {
            let k = ks.skip(i as int);
            let b = bs.skip(i as int);
            assert(k[0] == ks[i as int] && b[0] == bs[i as int]);
            assert(k.drop_first() =~= ks.skip(i + 1));
            assert(b.drop_first() =~= bs.skip(i + 1));
            let rest = rows(ks.skip(i + 1), bs.skip(i + 1));
            assert(start + (chunk(ks[i as int]) + chunk(bs[i as int]) + rest) =~= out@ + rest);
        }
        i = i + 1;
    }
    assert(ks.skip(i as int).len() == 0);
    assert(out@ =~= before + table(*m));
    true
}

/// Encodes a path index; nothing comes where a count or a length does not fit
/// in 32 bits. Decoding gives the path index back.
pub fn encode(index: &PathsIdx) -> (r: Option<Vec<u8>>)
    requires
        index.wf(),
    ensures
        r is Some == index.fits(),
        r matches Some(v) ==> v@ == frame::framed(magic(), body_of(*index)) && decoded(v@) == Ok::<
            PathsView,
            SidecarError,
        >(index@),
{
    let m: [u8; 4] = [0x53, 0x54, 0x50, 0x49];
    assert(m@ =~= magic());
    let ghost list = paths::path_views(index.paths@);
    if index.paths.len() > 0xFFFF_FFFF {
        return None;
    }
    let mut body: Vec<u8> = Vec::new();
    le::push_u32(&mut body, index.paths.len() as u32);
    let ghost head = body@;
    let mut i: usize = 0;
    assert(list.skip(0) =~= list);
    while i < index.paths.len()
        invariant
            list == paths::path_views(index.paths@),
            list.len() <= u32::MAX,
            i <= list.len(),
            body@ + chunks(list.skip(i as int)) == head + chunks(list),
            forall|k: int| 0 <= k < i ==> (#[trigger] list[k]).len() <= u32::MAX,
        decreases list.len() - i,
    {
        let p: &[u8] = index.paths[i].as_slice();
        if p.len() > 0xFFFF_FFFF {
            assert(list[i as int].len() > u32::MAX);
            return None;
        }
        let ghost start = body@;
        push_chunk(&mut body, p);
        proof {
            let s = list.skip(i as int);
            assert(s[0] == list[i as int]);
            assert(s.drop_first() =~= list.skip(i + 1));
            let rest = chunks(list.skip(i + 1));
            assert(start + (chunk(list[i as int]) + rest) =~= body@ + rest);
        }
        i = i + 1;
    }
    assert(list.skip(i as int).len() == 0);
    assert(body@ =~= head + chunks(list));
    if !write_bitmap_table(&mut body, &index.extensions) {
        return None;
    }
    if !write_bitmap_table(&mut body, &index.components) {
        return None;
    }
    proof {
        assert(body@ =~= body_of(*index));
        law_paths_round_trip(*index);
    }
    Some(frame::close_frame(&m, body.as_slice()))
}

proof fn lemma_chunk_round_trip(c: Seq<u8>, rest: Seq<u8>)
    requires
        c.len() <= u32::MAX,
    ensures
        take_chunk(chunk(c) + rest) == Some((c, rest)),
{
    broadcast use le::group_le_len;

    let b = chunk(c) + rest;
    assert(b.subrange(0, 4) =~= le::le32(c.len() as u32));
    le::lemma_u32_at(b, 0, c.len() as u32);
    assert(b.subrange(4, 4 + c.len() as int) =~= c);
    assert(b.skip(4 + c.len() as int) =~= rest);
}

proof fn lemma_chunks_round_trip(s: Seq<Seq<u8>>, rest: Seq<u8>)
    requires
        forall|i: int| 0 <= i < s.len() ==> (#[trigger] s[i]).len() <= u32::MAX,
    ensures
        take_chunks(chunks(s) + rest, s.len()) == Some((s, rest)),
    decreases s.len(),
{
    if s.len() == 0 {
        assert(chunks(s) + rest =~= rest);
        assert(s =~= Seq::<Seq<u8>>::empty());
    } else {
        let tail = s.drop_first();
        lemma_chunks_round_trip(tail, rest);
        lemma_chunk_round_trip(s[0], chunks(tail) + rest);
        assert(chunks(s) + rest =~= chunk(s[0]) + (chunks(tail) + rest));
        assert(seq![s[0]] + tail =~= s);
    }
}

/// The map that a list of keys and sets makes, later entries winning.
spec fn map_from(keys: Seq<Seq<u8>>, sets: Seq<Set<u32>>, m: Map<Seq<u8>, Set<u32>>) -> Map<
    Seq<u8>,
    Set<u32>,
>
    decreases keys.len(),
{
    if keys.len() == 0 {
        m
    } else {
        map_from(keys.drop_first(), sets.drop_first(), m.insert(keys[0], sets[0]))
    }
}

proof fn lemma_rows_round_trip(
    keys: Seq<Seq<u8>>,
    bodies: Seq<Seq<u8>>,
    sets: Seq<Set<u32>>,
    m: Map<Seq<u8>, Set<u32>>,
    rest: Seq<u8>,
)
    requires
        keys.len() == bodies.len(),
        keys.len() == sets.len(),
        forall|i: int|
            #![trigger keys[i]]
            #![trigger bodies[i]]
            0 <= i < keys.len() ==> keys[i].len() <= u32::MAX && bodies[i].len() <= u32::MAX
                && bitmap::parsed(bodies[i]) == Some(sets[i]),
    ensures
        take_rows(rows(keys, bodies) + rest, keys.len(), m) == Ok::<
            (Map<Seq<u8>, Set<u32>>, Seq<u8>),
            SidecarError,
        >((map_from(keys, sets, m), rest)),
    decreases keys.len(),
{
    if keys.len() == 0 {
        assert(rows(keys, bodies) + rest =~= rest);
    } else {
        let ks = keys.drop_first();
        let bs = bodies.drop_first();
        let ss = sets.drop_first();
        assert forall|i: int|
            #![trigger ks[i]]
            #![trigger bs[i]]
            0 <= i < ks.len() implies ks[i].len() <= u32::MAX && bs[i].len() <= u32::MAX
            && bitmap::parsed(bs[i]) == Some(ss[i]) by {
            assert(ks[i] == keys[i + 1] && bs[i] == bodies[i + 1] && ss[i] == sets[i + 1]);
        }
        let after = rows(ks, bs) + rest;
        assert(keys[0].len() <= u32::MAX);
        lemma_chunk_round_trip(bodies[0], after);
        lemma_chunk_round_trip(keys[0], chunk(bodies[0]) + after);
        assert(rows(keys, bodies) + rest =~= chunk(keys[0]) + (chunk(bodies[0]) + after));
        lemma_rows_round_trip(ks, bs, ss, m.insert(keys[0], sets[0]), rest);
    }
}

proof fn lemma_map_from(
    keys: Seq<Seq<u8>>,
    sets: Seq<Set<u32>>,
    m: Map<Seq<u8>, Set<u32>>,
    i: int,
)
    requires
        keys.len() == sets.len(),
        byte_map::ascending(keys),
    ensures
        0 <= i < keys.len() ==> map_from(keys, sets, m).contains_key(keys[i]) && map_from(
            keys,
            sets,
            m,
        )[keys[i]] == sets[i],
        forall|k: Seq<u8>|
            !keys.contains(k) ==> (#[trigger] map_from(keys, sets, m).contains_key(k)
                == m.contains_key(k)) && (m.contains_key(k) ==> map_from(keys, sets, m)[k]
                == m[k]),
    decreases keys.len(),
{
    if keys.len() > 0 {
        let ks = keys.drop_first();
        let ss = sets.drop_first();
        let m2 = m.insert(keys[0], sets[0]);
        assert(byte_map::ascending(ks)) by {
            assert forall|a: int, b: int| 0 <= a < b < ks.len() implies order::bytes_lt(
                #[trigger] ks[a],
                #[trigger] ks[b],
            ) by {
                assert(ks[a] == keys[a + 1] && ks[b] == keys[b + 1]);
            }
        }
        lemma_map_from(ks, ss, m2, i - 1);
        if 0 < i < keys.len() {
            assert(ks[i - 1] == keys[i]);
            assert(ss[i - 1] == sets[i]);
        }
        assert(!ks.contains(keys[0])) by {
            if ks.contains(keys[0]) {
                let j = choose|j: int| 0 <= j < ks.len() && ks[j] == keys[0];
                assert(keys[j + 1] == keys[0]);
                byte_map::lemma_ascending_unique(keys, 0, j + 1);
            }
        }
        assert(map_from(ks, ss, m2).contains_key(keys[0]) == m2.contains_key(keys[0]));
        assert forall|k: Seq<u8>| !keys.contains(k) implies (#[trigger] map_from(
            keys,
            sets,
            m,
        ).contains_key(k) == m.contains_key(k)) && (m.contains_key(k) ==> map_from(
            keys,
            sets,
            m,
        )[k] == m[k]) by {
            assert(keys[0] != k) by {
                assert(keys.contains(keys[0]));
            }
            assert(!ks.contains(k)) by {
                if ks.contains(k) {
                    let j = choose|j: int| 0 <= j < ks.len() && ks[j] == k;
                    assert(keys[j + 1] == k);
                }
            }
            assert(map_from(ks, ss, m2).contains_key(k) == m2.contains_key(k));
        }
    }
}

/// Every bitmap of a table is read back from its own bytes.
pub open spec fn table_parses(m: ByteMap<RoaringBitmap>) -> bool {
    forall|i: int|
        #![trigger m.values@[i]]
        0 <= i < m.values@.len() ==> bitmap::parsed(bitmap::image(m.values@[i])) == Some(
            bitmap::values(m.values@[i]),
        )
}

proof fn lemma_table_round_trip(m: ByteMap<RoaringBitmap>, rest: Seq<u8>)
    requires
        m.wf(),
        table_fits(m),
        table_parses(m),
    ensures
        take_table(table(m) + rest) == Ok::<(Map<Seq<u8>, Set<u32>>, Seq<u8>), SidecarError>(
            (sets_of(m@), rest),
        ),
{
    broadcast use le::group_le_len;

    let ks = m.seq();
    let bs = images(m.values@);
    let ss = Seq::new(m.values@.len(), |i: int| bitmap::values(m.values@[i]));
    let b = table(m) + rest;
    let n = m.values@.len() as u32;
    assert(b.subrange(0, 4) =~= le::le32(n));
    le::lemma_u32_at(b, 0, n);
    assert(b.skip(4) =~= rows(ks, bs) + rest);
    let empty = Map::<Seq<u8>, Set<u32>>::empty();
    assert forall|i: int|
        #![trigger ks[i]]
        #![trigger bs[i]]
        0 <= i < ks.len() implies ks[i].len() <= u32::MAX && bs[i].len() <= u32::MAX
        && bitmap::parsed(bs[i]) == Some(ss[i]) by {
        assert(bs[i] == bitmap::image(m.values@[i]));
    }
    lemma_rows_round_trip(ks, bs, ss, empty, rest);
    let got = map_from(ks, ss, empty);
    let want = sets_of(m@);
    assert forall|k: Seq<u8>| #[trigger] got.contains_key(k) == want.contains_key(k) && (
    got.contains_key(k) ==> got[k] == want[k]) by {
        if ks.contains(k) {
            let i = choose|i: int| 0 <= i < ks.len() && ks[i] == k;
            lemma_map_from(ks, ss, empty, i);
            m.lemma_at(i);
        } else {
            lemma_map_from(ks, ss, empty, 0);
            assert(got.contains_key(k) == empty.contains_key(k));
        }
    }
    assert(got.dom() =~= want.dom()) by {
        assert forall|k: Seq<u8>| got.dom().contains(k) == want.dom().contains(k) by {
            assert(got.contains_key(k) == want.contains_key(k));
        }
    }
    assert(got =~= want);
}

/// A path index that is written is read back as it was.
pub proof fn law_paths_round_trip(x: PathsIdx)
    requires
        x.wf(),
        x.fits(),
        table_parses(x.extensions),
        table_parses(x.components),
    ensures
        decoded(frame::framed(magic(), body_of(x))) == Ok::<PathsView, SidecarError>(x@),
{
    broadcast use le::group_le_len;

    let body = body_of(x);
    let list = paths::path_views(x.paths@);
    frame::law_unframe_of_frame(magic(), body);
    let n = x.paths@.len() as u32;
    assert(body.subrange(0, 4) =~= le::le32(n));
    le::lemma_u32_at(body, 0, n);
    let t1 = table(x.extensions);
    let t2 = table(x.components);
    assert(body.skip(4) =~= chunks(list) + (t1 + t2));
    lemma_chunks_round_trip(list, t1 + t2);
    lemma_table_round_trip(x.extensions, t2);
    assert(t2 =~= t2 + Seq::<u8>::empty());
    lemma_table_round_trip(x.components, Seq::empty());
}

} // verus!
