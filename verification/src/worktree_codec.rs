//! The working-tree anchor on disk, `worktree-<uuid>.idx`.
//!
//! The body of the frame is a count and that many entries: path length (4
//! bytes), path, kind (0 absent, 1 present), size (8), seconds (8) and
//! nanoseconds (4) of the modification time, the last three zero where the
//! path was absent. A reader that fails falls back to an empty anchor.

use crate::files;
use crate::frame;
use crate::frame::FrameError;
use crate::le;
use crate::path_resolve;
use crate::paths;
use crate::paths::PathMap;
use crate::worktree_anchor::{Observed, WorktreeAnchor};
use vstd::prelude::*;

verus! {

/// Larger sidecars are refused unread: 64 MiB.
pub const MAX_SIDECAR_SIZE: u64 = 67_108_864;

/// Bytes of an entry after its path.
pub const ENTRY_TAIL: usize = 21;

/// Why an anchor was refused.
#[derive(Debug, Clone, Copy, PartialEq, Eq, Structural)]
pub enum SidecarError {
    /// The file is larger than [`MAX_SIDECAR_SIZE`].
    TooLarge(u64),
    /// The frame is not sound.
    Frame(FrameError),
    /// The body ends inside an entry.
    TruncatedEntry,
    /// The body ends inside a path.
    TruncatedPath,
    /// An entry is neither absent nor present.
    UnknownKind,
    /// Bytes follow the last entry.
    TrailingBytes,
    /// The name is not a plain file name.
    BadFilename,
}

/// `STWT`.
pub open spec fn magic() -> Seq<u8> {
    seq![0x53u8, 0x54, 0x57, 0x54]
}

/// One entry.
pub open spec fn entry_bytes(path: Seq<u8>, o: Observed) -> Seq<u8> {
    let (kind, size, secs, nanos) = match o {
        Observed::Absent => (0u8, 0u64, 0u64, 0u32),
        Observed::Present { size, mtime_secs, mtime_nanos } => (
            1u8,
            size,
            mtime_secs as u64,
            mtime_nanos,
        ),
    };
    le::le32(path.len() as u32) + path + seq![kind] + le::le64(size) + le::le64(secs) + le::le32(
        nanos,
    )
}

/// Entries one after the other.
pub open spec fn entries_bytes(keys: Seq<Seq<u8>>, values: Seq<Observed>) -> Seq<u8>
    decreases keys.len(),
{
    if keys.len() == 0 {
        Seq::empty()
    } else {
        entry_bytes(keys[0], values[0]) + entries_bytes(keys.drop_first(), values.drop_first())
    }
}

/// The entry at the front of `b` and its size, or what is wrong with it.
pub open spec fn entry_at(b: Seq<u8>) -> Result<((Seq<u8>, Observed), nat), SidecarError> {
    let n = le::u32_at(b, 0) as int;
    let kind = b[4 + n];
    if b.len() < 4 {
        Err(SidecarError::TruncatedEntry)
    } else if 4 + n > b.len() {
        Err(SidecarError::TruncatedPath)
    } else if 4 + n + ENTRY_TAIL > b.len() {
        Err(SidecarError::TruncatedEntry)
    } else if kind == 0 {
        Ok(((b.subrange(4, 4 + n), Observed::Absent), (4 + n + ENTRY_TAIL) as nat))
    } else if kind == 1 {
        Ok(
            (
                (
                    b.subrange(4, 4 + n),
                    Observed::Present {
                        size: le::u64_at(b, 4 + n + 1),
                        mtime_secs: le::u64_at(b, 4 + n + 9) as i64,
                        mtime_nanos: le::u32_at(b, 4 + n + 17),
                    },
                ),
                (4 + n + ENTRY_TAIL) as nat,
            ),
        )
    } else {
        Err(SidecarError::UnknownKind)
    }
}

/// `n` entries from the front of `b`, put into `m` one after the other, with
/// nothing left behind them.
pub open spec fn parse_entries(b: Seq<u8>, n: nat, m: Map<Seq<u8>, Observed>) -> Result<
    Map<Seq<u8>, Observed>,
    SidecarError,
>
    decreases n,
{
    if n == 0 {
        if b.len() > 0 {
            Err(SidecarError::TrailingBytes)
        } else {
            Ok(m)
        }
    } else {
        match entry_at(b) {
            Err(e) => Err(e),
            Ok(((path, o), k)) => parse_entries(
                b.skip(k as int),
                (n - 1) as nat,
                m.insert(path_resolve::normal(path), o),
            ),
        }
    }
}

/// What an anchor file holds, or why it is refused.
pub open spec fn decoded(b: Seq<u8>) -> Result<Map<Seq<u8>, Observed>, SidecarError> {
    match frame::unframed(magic(), b) {
        Err(e) => Err(SidecarError::Frame(e)),
        Ok(body) => if body.len() < 4 {
            Err(SidecarError::TruncatedEntry)
        } else {
            parse_entries(body.skip(4), le::u32_at(body, 0) as nat, Map::empty())
        },
    }
}

/// `r` is an anchor with the entries of `d`, or the error of `d`.
pub open spec fn same_outcome(
    r: Result<WorktreeAnchor, SidecarError>,
    d: Result<Map<Seq<u8>, Observed>, SidecarError>,
) -> bool {
    match d {
        Err(e) => r == Err::<WorktreeAnchor, SidecarError>(e),
        Ok(m) => r matches Ok(a) && a.wf() && a@ == m,
    }
}

/// The body of an anchor.
pub open spec fn body_of(a: WorktreeAnchor) -> Seq<u8> {
    le::le32(a.entries.values@.len() as u32) + entries_bytes(
        a.entries.keys.seq(),
        a.entries.values@,
    )
}

/// The counts of the format fit.
pub open spec fn encodable(a: WorktreeAnchor) -> bool {
    &&& a.wf()
    &&& a.entries.values@.len() <= u32::MAX
    &&& forall|i: int|
        0 <= i < a.entries.keys.seq().len() ==> (#[trigger] a.entries.keys.seq()[i]).len()
            <= u32::MAX
}

/// `worktree-`.
pub open spec fn name_prefix() -> Seq<u8> {
    seq![0x77u8, 0x6F, 0x72, 0x6B, 0x74, 0x72, 0x65, 0x65, 0x2D]
}

/// `.idx`.
pub open spec fn name_suffix() -> Seq<u8> {
    seq![0x2Eu8, 0x69, 0x64, 0x78]
}

/// A fresh sidecar name.
pub fn new_filename() -> (r: Vec<u8>)
    ensures
        files::is_generated(r@, name_prefix(), name_suffix()),
        files::plain(r@),
{
    let prefix: [u8; 9] = [0x77, 0x6F, 0x72, 0x6B, 0x74, 0x72, 0x65, 0x65, 0x2D];
    let suffix: [u8; 4] = [0x2E, 0x69, 0x64, 0x78];
    let r = files::generate_name(&prefix, &suffix);
    proof {
        assert(prefix@ =~= name_prefix());
        assert(suffix@ =~= name_suffix());
        files::lemma_generated_is_plain(r@, prefix@, suffix@);
    }
    r
}

/// Why a sidecar of this name and size is not read at all, if it is not.
pub fn screen(name: &[u8], size: u64) -> (r: Result<(), SidecarError>)
    ensures
        r == (if !files::plain(name@) {
            Err::<(), SidecarError>(SidecarError::BadFilename)
        } else if size > MAX_SIDECAR_SIZE {
            Err::<(), SidecarError>(SidecarError::TooLarge(size))
        } else {
            Ok::<(), SidecarError>(())
        }),
{
    if !files::is_plain_filename(name) {
        return Err(SidecarError::BadFilename);
    }
    if size > MAX_SIDECAR_SIZE {
        return Err(SidecarError::TooLarge(size));
    }
    Ok(())
}

/// Reads the anchor out of the named sidecar's bytes.
pub fn read_worktree_anchor(name: &[u8], bytes: &[u8]) -> (r: Result<WorktreeAnchor, SidecarError>)
    ensures
        if !files::plain(name@) {
            r == Err::<WorktreeAnchor, SidecarError>(SidecarError::BadFilename)
        } else if bytes@.len() > MAX_SIDECAR_SIZE {
            r == Err::<WorktreeAnchor, SidecarError>(SidecarError::TooLarge(bytes@.len() as u64))
        } else {
            same_outcome(r, decoded(bytes@))
        },
{
    match screen(name, bytes.len() as u64) {
        Err(e) => Err(e),
        Ok(_) => decode(bytes),
    }
}

/// Reads the entry at `pos`.
fn read_entry(body: &[u8], pos: usize) -> (r: Result<(usize, usize, Observed), SidecarError>)
    requires
        pos <= body@.len(),
    ensures
        match entry_at(body@.skip(pos as int)) {
            Err(e) => r == Err::<(usize, usize, Observed), SidecarError>(e),
            Ok(((path, o), k)) => r matches Ok((start, end, got)) && start == pos + 4 && end <= body@.len()
                && start <= end && body@.subrange(start as int, end as int) == path && got == o && end
                + ENTRY_TAIL == pos + k && pos + k <= body@.len(),
        },
{
    let len: usize = body.len();
    let ghost b = body@.skip(pos as int);
    if len - pos < 4 {
        return Err(SidecarError::TruncatedEntry);
    }
    let n: u32 = le::read_u32_at(body, pos);
    assert(body@.subrange(pos as int, pos + 4) =~= b.subrange(0, 4));
    let start: usize = pos + 4;
    if n as u64 > (len - start) as u64 {
        return Err(SidecarError::TruncatedPath);
    }
    let end: usize = start + n as usize;
    if len - end < ENTRY_TAIL {
        return Err(SidecarError::TruncatedEntry);
    }
    let kind: u8 = body[end];
    let size: u64 = le::read_u64_at(body, end + 1);
    let secs: u64 = le::read_u64_at(body, end + 9);
    let nanos: u32 = le::read_u32_at(body, end + 17);
    proof {
        assert(b[4 + n as int] == kind);
        assert(body@.subrange(start as int, end as int) =~= b.subrange(4, 4 + n as int));
        assert(body@.subrange(end + 1, end + 9) =~= b.subrange(4 + n + 1, 4 + n + 9));
        assert(body@.subrange(end + 9, end + 17) =~= b.subrange(4 + n + 9, 4 + n + 17));
        assert(body@.subrange(end + 17, end + 21) =~= b.subrange(4 + n + 17, 4 + n + 21));
    }
    if kind == 0 {
        Ok((start, end, Observed::Absent))
    } else if kind == 1 {
        Ok(
            (
                start,
                end,
                Observed::Present { size, mtime_secs: secs as i64, mtime_nanos: nanos },
            ),
        )
    } else {
        Err(SidecarError::UnknownKind)
    }
}

/// Decodes an anchor.
pub fn decode(bytes: &[u8]) -> (r: Result<WorktreeAnchor, SidecarError>)
    ensures
        same_outcome(r, decoded(bytes@)),
{
    let m: [u8; 4] = [0x53, 0x54, 0x57, 0x54];
    assert(m@ =~= magic());
    let body: &[u8] = match frame::open_frame(&m, bytes) {
        Err(e) => {
            return Err(SidecarError::Frame(e));
        },
        Ok(b) => b,
    };
    let len: usize = body.len();
    if len < 4 {
        return Err(SidecarError::TruncatedEntry);
    }
    let count: u32 = le::read_u32_at(body, 0);
    let mut entries: PathMap<Observed> = PathMap::new();
    let mut left: u32 = count;
    let mut pos: usize = 4;
    while left > 0
        invariant
            entries.wf(),
            pos <= body@.len(),
            decoded(bytes@) == parse_entries(body@.skip(pos as int), left as nat, entries@),
        decreases left,
    {
        let _len: usize = body.len();
        match read_entry(body, pos) {
            Err(e) => {
                return Err(e);
            },
            Ok((start, end, o)) => {
                let ghost b = body@.skip(pos as int);
                entries.insert(vstd::slice::slice_subrange(body, start, end), o);
                pos = end + ENTRY_TAIL;
                proof {
                    let k = entry_at(b)->Ok_0.1;
                    assert(b.skip(k as int) =~= body@.skip(pos as int));
                }
            },
        }
        left = left - 1;
    }
    if pos != body.len() {
        return Err(SidecarError::TrailingBytes);
    }
    Ok(WorktreeAnchor::from_entries(entries))
}

fn push_entry(out: &mut Vec<u8>, path: &[u8], o: &Observed)
    requires
        path@.len() <= u32::MAX,
    ensures
        final(out)@ == old(out)@ + entry_bytes(path@, *o),
{
    let ghost before = out@;
    le::push_u32(out, path.len() as u32);
    le::push_bytes(out, path);
    match *o {
        Observed::Absent => {
            out.push(0);
            le::push_u64(out, 0);
            le::push_u64(out, 0);
            le::push_u32(out, 0);
        },
        Observed::Present { size, mtime_secs, mtime_nanos } => {
            out.push(1);
            le::push_u64(out, size);
            le::push_u64(out, mtime_secs as u64);
            le::push_u32(out, mtime_nanos);
        },
    }
    assert(out@ =~= before + entry_bytes(path@, *o));
}

/// Encodes an anchor, its entries in the order of their paths. Decoding gives
/// the anchor back.
pub fn encode(anchor: &WorktreeAnchor) -> (r: Vec<u8>)
    requires
        encodable(*anchor),
    ensures
        r@ == frame::framed(magic(), body_of(*anchor)),
        decoded(r@) == Ok::<Map<Seq<u8>, Observed>, SidecarError>(anchor@),
{
    let m: [u8; 4] = [0x53, 0x54, 0x57, 0x54];
    assert(m@ =~= magic());
    let keys = &anchor.entries.keys.paths;
    let values = &anchor.entries.values;
    let ghost ks = anchor.entries.keys.seq();
    let ghost vs = values@;
    let mut body: Vec<u8> = Vec::new();
    le::push_u32(&mut body, values.len() as u32);
    let mut i: usize = 0;
    assert(ks.skip(0) =~= ks && vs.skip(0) =~= vs);
    assert(body@ + entries_bytes(ks.skip(0), vs.skip(0)) =~= body_of(*anchor));
    while i < values.len()
        invariant
            encodable(*anchor),
            keys@ == anchor.entries.keys.paths@,
            values@ == anchor.entries.values@,
            ks == anchor.entries.keys.seq(),
            vs == values@,
            keys@.len() == values@.len(),
            i <= vs.len(),
            body@ + entries_bytes(ks.skip(i as int), vs.skip(i as int)) == body_of(*anchor),
        decreases vs.len() - i,
    {
        let ghost before = body@;
        assert(ks[i as int].len() <= u32::MAX);
        push_entry(&mut body, keys[i].as_slice(), &values[i]);
        proof {
            let k = ks.skip(i as int);
            let v = vs.skip(i as int);
            assert(k[0] == ks[i as int] && v[0] == vs[i as int]);
            assert(k.drop_first() =~= ks.skip(i + 1));
            assert(v.drop_first() =~= vs.skip(i + 1));
            let e = entry_bytes(ks[i as int], vs[i as int]);
            let rest = entries_bytes(ks.skip(i + 1), vs.skip(i + 1));
            assert(before + (e + rest) =~= body@ + rest);
        }
        i = i + 1;
    }
    proof {
        assert(ks.skip(i as int).len() == 0);
        assert(body@ =~= body_of(*anchor));
        law_anchor_round_trip(*anchor);
    }
    frame::close_frame(&m, body.as_slice())
}

/// What is put on disk under a plain name; another name is refused.
pub fn write_worktree_anchor(name: &[u8], anchor: &WorktreeAnchor) -> (r: Result<
    Vec<u8>,
    SidecarError,
>)
    requires
        encodable(*anchor),
    ensures
        match r {
            Ok(v) => files::plain(name@) && v@ == frame::framed(magic(), body_of(*anchor))
                && decoded(v@) == Ok::<Map<Seq<u8>, Observed>, SidecarError>(anchor@),
            Err(e) => !files::plain(name@) && e == SidecarError::BadFilename,
        },
{
    if !files::is_plain_filename(name) {
        return Err(SidecarError::BadFilename);
    }
    Ok(encode(anchor))
}

proof fn lemma_entry_round_trip(path: Seq<u8>, o: Observed, rest: Seq<u8>)
    requires
        path.len() <= u32::MAX,
    ensures
        entry_at(entry_bytes(path, o) + rest) == Ok::<
            ((Seq<u8>, Observed), nat),
            SidecarError,
        >(((path, o), entry_bytes(path, o).len())),
{
    broadcast use le::group_le_len;

    let e = entry_bytes(path, o);
    let b = e + rest;
    let n = path.len() as int;
    assert(b.subrange(0, 4) =~= le::le32(n as u32));
    le::lemma_u32_at(b, 0, n as u32);
    assert(e.len() == 4 + n + ENTRY_TAIL);
    assert(b.subrange(4, 4 + n) =~= path);
    match o {
        Observed::Absent => {
            assert(b[4 + n] == 0u8);
        },
        Observed::Present { size, mtime_secs, mtime_nanos } => {
            assert(b[4 + n] == 1u8);
            let secs = mtime_secs as u64;
            assert(secs as i64 == mtime_secs) by {
                assert((mtime_secs as u64) as i64 == mtime_secs) by (bit_vector);
            }
            assert(b.subrange(4 + n + 1, 4 + n + 9) =~= le::le64(size));
            le::lemma_u64_at(b, 4 + n + 1, size);
            assert(b.subrange(4 + n + 9, 4 + n + 17) =~= le::le64(secs));
            le::lemma_u64_at(b, 4 + n + 9, secs);
            assert(b.subrange(4 + n + 17, 4 + n + 21) =~= le::le32(mtime_nanos));
            le::lemma_u32_at(b, 4 + n + 17, mtime_nanos);
        },
    }
}

/// The map that a list of keys and values makes, later entries winning.
spec fn map_from(
    keys: Seq<Seq<u8>>,
    values: Seq<Observed>,
    m: Map<Seq<u8>, Observed>,
) -> Map<Seq<u8>, Observed>
    decreases keys.len(),
{
    if keys.len() == 0 {
        m
    } else {
        map_from(keys.drop_first(), values.drop_first(), m.insert(keys[0], values[0]))
    }
}

proof fn lemma_entries_round_trip(
    keys: Seq<Seq<u8>>,
    values: Seq<Observed>,
    m: Map<Seq<u8>, Observed>,
)
    requires
        keys.len() == values.len(),
        paths::all_normal(keys),
        forall|i: int| 0 <= i < keys.len() ==> (#[trigger] keys[i]).len() <= u32::MAX,
    ensures
        parse_entries(entries_bytes(keys, values), keys.len(), m) == Ok::<
            Map<Seq<u8>, Observed>,
            SidecarError,
        >(map_from(keys, values, m)),
    decreases keys.len(),
{
    if keys.len() > 0 {
        let e = entry_bytes(keys[0], values[0]);
        let rest = entries_bytes(keys.drop_first(), values.drop_first());
        lemma_entry_round_trip(keys[0], values[0], rest);
        assert((e + rest).skip(e.len() as int) =~= rest);
        assert(path_resolve::normal(keys[0]) == keys[0]);
        lemma_entries_round_trip(
            keys.drop_first(),
            values.drop_first(),
            m.insert(keys[0], values[0]),
        );
    }
}

proof fn lemma_map_from(
    keys: Seq<Seq<u8>>,
    values: Seq<Observed>,
    m: Map<Seq<u8>, Observed>,
    i: int,
)
    requires
        keys.len() == values.len(),
        paths::ascending(keys),
    ensures
        0 <= i < keys.len() ==> map_from(keys, values, m).contains_key(keys[i]) && map_from(
            keys,
            values,
            m,
        )[keys[i]] == values[i],
        forall|k: Seq<u8>|
            !keys.contains(k) ==> (#[trigger] map_from(keys, values, m).contains_key(k)
                == m.contains_key(k)) && (m.contains_key(k) ==> map_from(keys, values, m)[k]
                == m[k]),
    decreases keys.len(),
{
    if keys.len() > 0 {
        let ks = keys.drop_first();
        let vs = values.drop_first();
        let m2 = m.insert(keys[0], values[0]);
        assert(paths::ascending(ks)) by {
            assert forall|a: int, b: int| 0 <= a < b < ks.len() implies paths::path_lt(
                #[trigger] ks[a],
                #[trigger] ks[b],
            ) by {
                assert(ks[a] == keys[a + 1] && ks[b] == keys[b + 1]);
            }
        }
        lemma_map_from(ks, vs, m2, i - 1);
        if 0 < i < keys.len() {
            assert(ks[i - 1] == keys[i]);
            assert(vs[i - 1] == values[i]);
        }
        assert(!ks.contains(keys[0])) by {
            if ks.contains(keys[0]) {
                let j = choose|j: int| 0 <= j < ks.len() && ks[j] == keys[0];
                assert(keys[j + 1] == keys[0]);
                paths::lemma_ascending_unique(keys, 0, j + 1);
            }
        }
        assert(map_from(ks, vs, m2).contains_key(keys[0]) == m2.contains_key(keys[0]));
        assert forall|k: Seq<u8>| !keys.contains(k) implies (#[trigger] map_from(
            keys,
            values,
            m,
        ).contains_key(k) == m.contains_key(k)) && (m.contains_key(k) ==> map_from(
            keys,
            values,
            m,
        )[k] == m[k]) by {
            assert(keys[0] != k) by {
                assert(keys.contains(keys[0]));
            }
            assert(!ks.contains(k)) by {
                if ks.contains(k) {
                    let j = choose|j: int| 0 <= j < ks.len() && ks[j] == k;
                    assert(keys[j + 1] == k);
                }
            }
            assert(map_from(ks, vs, m2).contains_key(k) == m2.contains_key(k));
        }
    }
}

/// An anchor that is written is read back as it was.
pub proof fn law_anchor_round_trip(a: WorktreeAnchor)
    requires
        encodable(a),
    ensures
        decoded(frame::framed(magic(), body_of(a))) == Ok::<
            Map<Seq<u8>, Observed>,
            SidecarError,
        >(a@),
{
    broadcast use le::group_le_len;

    let body = body_of(a);
    let ks = a.entries.keys.seq();
    let vs = a.entries.values@;
    let empty = Map::<Seq<u8>, Observed>::empty();
    frame::law_unframe_of_frame(magic(), body);
    assert(body.subrange(0, 4) =~= le::le32(vs.len() as u32));
    le::lemma_u32_at(body, 0, vs.len() as u32);
    assert(body.skip(4) =~= entries_bytes(ks, vs));
    lemma_entries_round_trip(ks, vs, empty);
    let m = map_from(ks, vs, empty);
    assert forall|k: Seq<u8>| #[trigger] m.contains_key(k) == a@.contains_key(k) && (
    m.contains_key(k) ==> m[k] == a@[k]) by {
        if ks.contains(k) {
            let i = choose|i: int| 0 <= i < ks.len() && ks[i] == k;
            lemma_map_from(ks, vs, empty, i);
            a.entries.lemma_at(i);
        } else {
            lemma_map_from(ks, vs, empty, 0);
            assert(m.contains_key(k) == empty.contains_key(k));
        }
    }
    assert(m.dom() =~= a@.dom()) by {
        assert forall|k: Seq<u8>| m.dom().contains(k) == a@.dom().contains(k) by {
            assert(m.contains_key(k) == a@.contains_key(k));
        }
    }
    assert(m =~= a@);
}

/// Two anchors with the same entries are written alike, so the checksum of an
/// anchor does not depend on how it came about.
pub proof fn law_encoding_is_deterministic(a: WorktreeAnchor, b: WorktreeAnchor)
    requires
        a.wf(),
        b.wf(),
        a@ == b@,
    ensures
        body_of(a) == body_of(b),
{
    let ka = a.entries.keys.seq();
    let kb = b.entries.keys.seq();
    assert(a.entries.keys@ =~= a@.dom());
    assert(b.entries.keys@ =~= b@.dom());
    paths::lemma_ascending_determined(ka, kb);
    assert forall|i: int| 0 <= i < ka.len() implies a.entries.values@[i]
        == b.entries.values@[i] by {
        a.entries.lemma_at(i);
        b.entries.lemma_at(i);
    }
    assert(a.entries.values@ =~= b.entries.values@);
}

/// Entries followed by further bytes are refused.
proof fn lemma_trailing_bytes(
    keys: Seq<Seq<u8>>,
    values: Seq<Observed>,
    m: Map<Seq<u8>, Observed>,
    extra: Seq<u8>,
)
    requires
        keys.len() == values.len(),
        forall|i: int| 0 <= i < keys.len() ==> (#[trigger] keys[i]).len() <= u32::MAX,
        extra.len() > 0,
    ensures
        parse_entries(entries_bytes(keys, values) + extra, keys.len(), m) == Err::<
            Map<Seq<u8>, Observed>,
            SidecarError,
        >(SidecarError::TrailingBytes),
    decreases keys.len(),
{
    let b = entries_bytes(keys, values) + extra;
    if keys.len() == 0 {
        assert(b =~= extra);
    } else {
        let head = entry_bytes(keys[0], values[0]);
        let tail = entries_bytes(keys.drop_first(), values.drop_first());
        assert(b =~= head + (tail + extra));
        lemma_entry_round_trip(keys[0], values[0], tail + extra);
        assert(b.skip(head.len() as int) =~= tail + extra);
        lemma_trailing_bytes(
            keys.drop_first(),
            values.drop_first(),
            m.insert(path_resolve::normal(keys[0]), values[0]),
            extra,
        );
    }
}

/// An anchor file with bytes added at its end is refused: by its checksum, or
/// where that happens to agree, because the entries leave bytes behind.
pub proof fn law_appended_bytes_are_refused(a: WorktreeAnchor, extra: Seq<u8>)
    requires
        encodable(a),
        extra.len() > 0,
    ensures
        decoded(frame::framed(magic(), body_of(a)) + extra) is Err,
{
    broadcast use le::group_le_len;

    let body = body_of(a);
    let f = frame::framed(magic(), body);
    let b = f + extra;
    let n = a.entries.values@.len() as u32;
    match frame::unframed(magic(), b) {
        Err(_) => {},
        Ok(got) => {
            assert(f.len() >= frame::HEADER_LEN);
            assert(got =~= body + extra);
            assert(got.subrange(0, 4) =~= le::le32(n));
            le::lemma_u32_at(got, 0, n);
            assert(got.skip(4) =~= entries_bytes(a.entries.keys.seq(), a.entries.values@) + extra);
            lemma_trailing_bytes(
                a.entries.keys.seq(),
                a.entries.values@,
                Map::empty(),
                extra,
            );
        },
    }
}

/// A file that is shorter than the header of the frame is refused as that.
pub proof fn law_short_file_is_refused(b: Seq<u8>)
    requires
        b.len() < frame::HEADER_LEN,
    ensures
        decoded(b) == Err::<Map<Seq<u8>, Observed>, SidecarError>(
            SidecarError::Frame(FrameError::TooShort),
        ),
{
}

} // verus!
