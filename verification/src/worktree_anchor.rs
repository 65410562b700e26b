//! What the working tree looked like at the last durable flush.
//!
//! The anchor records, per flushed path, what was on disk. A path that still
//! looks the same need not be applied again. Losing the anchor costs work,
//! never correctness.
//!
//! Times are nanoseconds since the Unix epoch.

use crate::path_resolve;
use crate::paths::{PathMap, PathSet};
use vstd::prelude::*;

verus! {

/// Above this many entries no anchor is kept.
pub const MAX_ENTRIES: usize = 50_000;

/// How far a modification must precede the read to be trusted: two seconds.
/// Coarse file systems can stamp two writes alike.
pub const RACY_MARGIN_NANOS: u128 = 2_000_000_000;

/// Nanoseconds in a second.
pub const NANOS_PER_SEC: u128 = 1_000_000_000;

/// What was observed at a path.
#[derive(Debug, Clone, Copy, PartialEq, Eq, Structural)]
pub enum Observed {
    /// Nothing was there.
    Absent,
    /// A file was there, of this size and modification time.
    Present { size: u64, mtime_secs: i64, mtime_nanos: u32 },
}

/// What the file system says of a path.
#[derive(Debug, Clone, Copy)]
pub enum Status {
    /// Nothing is there.
    Missing,
    /// Whether anything is there could not be found out.
    Failed,
    /// Something is there, of this size. Its modification time is missing where
    /// it is unknown or before the epoch.
    Found { size: u64, modified: Option<u128> },
}

/// The time that seconds and nanoseconds stand for: none before the epoch, and
/// none beyond the range of 64-bit seconds.
pub open spec fn joined(secs: i64, nanos: u32) -> Option<u128> {
    if secs < 0 || secs + nanos / 1_000_000_000 > i64::MAX {
        None
    } else {
        Some((secs * NANOS_PER_SEC + nanos) as u128)
    }
}

/// A time as seconds and nanoseconds, if the seconds fit.
pub fn split_system_time(t: u128) -> (r: Option<(i64, u32)>)
    ensures
        match r {
            Some((secs, nanos)) => secs == t / NANOS_PER_SEC && nanos == t % NANOS_PER_SEC,
            None => t / NANOS_PER_SEC > i64::MAX,
        },
{
    let secs: u128 = t / NANOS_PER_SEC;
    let nanos: u128 = t % NANOS_PER_SEC;
    if secs > 0x7FFF_FFFF_FFFF_FFFF {
        return None;
    }
    Some((secs as i64, nanos as u32))
}

/// Seconds and nanoseconds as a time.
pub fn join_system_time(secs: i64, nanos: u32) -> (r: Option<u128>)
    ensures
        r == joined(secs, nanos),
{
    if secs < 0 {
        return None;
    }
    let carry: i64 = (nanos / 1_000_000_000) as i64;
    if secs > 0x7FFF_FFFF_FFFF_FFFF - carry {
        return None;
    }
    Some(secs as u128 * NANOS_PER_SEC + nanos as u128)
}

/// Splitting a time and joining it again gives the time.
pub proof fn law_split_then_join(t: u128, secs: i64, nanos: u32)
    requires
        secs == t / NANOS_PER_SEC,
        nanos == t % NANOS_PER_SEC,
    ensures
        joined(secs, nanos) == Some(t),
{
    assert(t == (t / NANOS_PER_SEC) * NANOS_PER_SEC + t % NANOS_PER_SEC) by (nonlinear_arith)
        requires
            NANOS_PER_SEC == 1_000_000_000u128,
    ;
}

impl Observed {
    /// What a look at a path observes: nothing where the look failed, which is no
    /// sign that nothing is there, or where the time does not fit.
    pub open spec fn of(status: Status) -> Option<Observed> {
        match status {
            Status::Missing => Some(Observed::Absent),
            Status::Failed => None,
            Status::Found { size, modified } => match modified {
                Some(t) if t / NANOS_PER_SEC <= i64::MAX => Some(
                    Observed::Present {
                        size,
                        mtime_secs: (t / NANOS_PER_SEC) as i64,
                        mtime_nanos: (t % NANOS_PER_SEC) as u32,
                    },
                ),
                _ => None,
            },
        }
    }

    /// What a look at a path observes.
    pub fn stat(status: Status) -> (r: Option<Self>)
        ensures
            r == Observed::of(status),
    {
        match status {
            Status::Missing => Some(Observed::Absent),
            Status::Failed => None,
            Status::Found { size, modified } => match modified {
                None => None,
                Some(t) => match split_system_time(t) {
                    None => None,
                    Some((mtime_secs, mtime_nanos)) => Some(
                        Observed::Present { size, mtime_secs, mtime_nanos },
                    ),
                },
            },
        }
    }

    /// The observation can be trusted: nothing was there, or the file was last
    /// modified in the past and well before its content was read.
    pub open spec fn settled(self, read_epoch: u128, now: u128) -> bool {
        match self {
            Observed::Absent => true,
            Observed::Present { mtime_secs, mtime_nanos, .. } => match joined(
                mtime_secs,
                mtime_nanos,
            ) {
                None => false,
                Some(mtime) => mtime <= now && mtime + RACY_MARGIN_NANOS < read_epoch,
            },
        }
    }

    /// Whether the observation can be trusted.
    pub fn is_settled(&self, read_epoch: u128, now: u128) -> (r: bool)
        ensures
            r == self.settled(read_epoch, now),
    {
        match *self {
            Observed::Absent => true,
            Observed::Present { size: _, mtime_secs, mtime_nanos } => {
                match join_system_time(mtime_secs, mtime_nanos) {
                    None => false,
                    Some(mtime) => mtime <= now && read_epoch >= RACY_MARGIN_NANOS && mtime
                        < read_epoch - RACY_MARGIN_NANOS,
                }
            },
        }
    }
}

/// The anchor.
#[derive(Debug)]
pub struct WorktreeAnchor {
    pub entries: PathMap<Observed>,
}

impl View for WorktreeAnchor {
    type V = Map<Seq<u8>, Observed>;

    open spec fn view(&self) -> Map<Seq<u8>, Observed> {
        self.entries@
    }
}

/// The entries after a flush: touched paths are recorded as observed if that
/// is settled and dropped otherwise, the others are carried.
pub open spec fn next_entries(
    prev: Map<Seq<u8>, Observed>,
    touched: Set<Seq<u8>>,
    observed: Map<Seq<u8>, Observed>,
    read_epoch: u128,
    now: u128,
) -> Map<Seq<u8>, Observed> {
    Map::new(
        |p: Seq<u8>|
            if touched.contains(p) {
                observed.contains_key(p) && observed[p].settled(read_epoch, now)
            } else {
                prev.contains_key(p)
            },
        |p: Seq<u8>|
            if touched.contains(p) {
                observed[p]
            } else {
                prev[p]
            },
    )
}

impl WorktreeAnchor {
    pub open spec fn wf(self) -> bool {
        self.entries.wf()
    }

    /// An anchor with these entries.
    pub fn from_entries(entries: PathMap<Observed>) -> (a: Self)
        requires
            entries.wf(),
        ensures
            a.wf(),
            a@ == entries@,
    {
        WorktreeAnchor { entries }
    }

    /// An anchor without entries.
    pub fn new() -> (a: Self)
        ensures
            a.wf(),
            a@ == Map::<Seq<u8>, Observed>::empty(),
    {
        WorktreeAnchor { entries: PathMap::new() }
    }

    /// Number of entries.
    pub fn len(&self) -> (n: usize)
        requires
            self.wf(),
        ensures
            n == self@.len(),
            n == self.entries.values@.len(),
    {
        self.entries.len()
    }

    /// Whether there are no entries.
    pub fn is_empty(&self) -> (r: bool)
        requires
            self.wf(),
        ensures
            r == (self@ == Map::<Seq<u8>, Observed>::empty()),
    {
        self.entries.is_empty()
    }

    /// Whether a path still is as it was recorded. `current` is what is there
    /// now, or nothing where that could not be observed.
    pub fn is_unchanged(&self, rel: &[u8], current: Option<Observed>) -> (r: bool)
        requires
            self.wf(),
        ensures
            r == (self@.contains_key(path_resolve::normal(rel@)) && current == Some(
                self@[path_resolve::normal(rel@)],
            )),
    {
        match self.entries.get(rel) {
            None => false,
            Some(recorded) => match current {
                None => false,
                Some(c) => c == *recorded,
            },
        }
    }

    /// The anchor to keep beside a flush, or nothing where it would have too
    /// many entries.
    ///
    /// `flushed` were written as documents, `non_docs` were removed or
    /// excluded, and `observed` is what is on disk at those paths, as far as
    /// it could be observed.
    pub fn build_next(
        prev: &WorktreeAnchor,
        flushed: &PathSet,
        non_docs: &PathSet,
        observed: &PathMap<Observed>,
        read_epoch: u128,
        now: u128,
    ) -> (r: Option<WorktreeAnchor>)
        requires
            prev.wf(),
            flushed.wf(),
            non_docs.wf(),
            observed.wf(),
        ensures
            ({
                let next = next_entries(
                    prev@,
                    flushed@.union(non_docs@),
                    observed@,
                    read_epoch,
                    now,
                );
                match r {
                    Some(a) => a.wf() && a@ == next && next.len() <= MAX_ENTRIES,
                    None => next.len() > MAX_ENTRIES,
                }
            }),
    {
        let mut entries = copy_entries(&prev.entries);
        record_all(&mut entries, non_docs, observed, read_epoch, now);
        record_all(&mut entries, flushed, observed, read_epoch, now);
        proof {
            let first = next_entries(prev@, non_docs@, observed@, read_epoch, now);
            assert(next_entries(first, flushed@, observed@, read_epoch, now) =~= next_entries(
                prev@,
                flushed@.union(non_docs@),
                observed@,
                read_epoch,
                now,
            ));
        }
        if entries.len() > MAX_ENTRIES {
            return None;
        }
        Some(WorktreeAnchor { entries })
    }
}

impl Default for WorktreeAnchor {
    fn default() -> (a: Self)
        ensures
            a.wf(),
            a@ == Map::<Seq<u8>, Observed>::empty(),
    {
        WorktreeAnchor::new()
    }
}

fn copy_entries(m: &PathMap<Observed>) -> (r: PathMap<Observed>)
    requires
        m.wf(),
    ensures
        r.wf(),
        r@ == m@,
{
    let keys = m.keys.copy();
    let mut values: Vec<Observed> = Vec::new();
    let mut i: usize = 0;
    while i < m.values.len()
        invariant
            i <= m.values@.len(),
            values@ == m.values@.take(i as int),
        decreases m.values@.len() - i,
    {
        values.push(m.values[i]);
        i = i + 1;
        assert(values@ =~= m.values@.take(i as int));
    }
    let r = PathMap { keys, values };
    assert(r.values@ =~= m.values@);
    assert(r@ =~= m@);
    r
}

/// Records one path as observed, or drops its entry where the observation is
/// missing or not settled.
fn record(
    entries: &mut PathMap<Observed>,
    rel: &[u8],
    observed: Option<&Observed>,
    read_epoch: u128,
    now: u128,
)
    requires
        old(entries).wf(),
    ensures
        final(entries).wf(),
        final(entries)@ == (match observed {
            Some(o) => if o.settled(read_epoch, now) {
                old(entries)@.insert(path_resolve::normal(rel@), *o)
            } else {
                old(entries)@.remove(path_resolve::normal(rel@))
            },
            None => old(entries)@.remove(path_resolve::normal(rel@)),
        }),
{
    match observed {
        Some(o) => {
            if o.is_settled(read_epoch, now) {
                entries.insert(rel, *o);
            } else {
                entries.remove(rel);
            }
        },
        None => {
            entries.remove(rel);
        },
    }
}

fn record_all(
    entries: &mut PathMap<Observed>,
    touched: &PathSet,
    observed: &PathMap<Observed>,
    read_epoch: u128,
    now: u128,
)
    requires
        old(entries).wf(),
        touched.wf(),
        observed.wf(),
    ensures
        final(entries).wf(),
        final(entries)@ == next_entries(old(entries)@, touched@, observed@, read_epoch, now),
{
    let ghost before = entries@;
    let ghost seq = touched.seq();
    let mut i: usize = 0;
    assert(entries@ =~= next_entries(
        before,
        seq.take(0).to_set(),
        observed@,
        read_epoch,
        now,
    ));
    while i < touched.paths.len()
        invariant
            entries.wf(),
            observed.wf(),
            seq == touched.seq(),
            touched.wf(),
            i <= seq.len(),
            entries@ == next_entries(
                before,
                seq.take(i as int).to_set(),
                observed@,
                read_epoch,
                now,
            ),
        decreases seq.len() - i,
    {
        let rel: &[u8] = touched.paths[i].as_slice();
        record(entries, rel, observed.get(rel), read_epoch, now);
        proof {
            crate::paths::lemma_take_to_set(seq, i as int);
            assert(path_resolve::normal(seq[i as int]) == seq[i as int]);
            assert(entries@ =~= next_entries(
                before,
                seq.take(i + 1).to_set(),
                observed@,
                read_epoch,
                now,
            ));
        }
        i = i + 1;
    }
    assert(seq.take(i as int) =~= seq);
}

/// A path whose latest observation cannot be trusted keeps no older entry.
pub proof fn law_untrusted_paths_are_dropped(
    prev: Map<Seq<u8>, Observed>,
    touched: Set<Seq<u8>>,
    observed: Map<Seq<u8>, Observed>,
    read_epoch: u128,
    now: u128,
    p: Seq<u8>,
)
    requires
        touched.contains(p),
        !observed.contains_key(p) || !observed[p].settled(read_epoch, now),
    ensures
        !next_entries(prev, touched, observed, read_epoch, now).contains_key(p),
{
}

/// A path that a flush did not touch keeps its entry.
pub proof fn law_untouched_paths_carry_forward(
    prev: Map<Seq<u8>, Observed>,
    touched: Set<Seq<u8>>,
    observed: Map<Seq<u8>, Observed>,
    read_epoch: u128,
    now: u128,
    p: Seq<u8>,
)
    requires
        !touched.contains(p),
        prev.contains_key(p),
    ensures
        next_entries(prev, touched, observed, read_epoch, now).contains_key(p),
        next_entries(prev, touched, observed, read_epoch, now)[p] == prev[p],
{
}

/// A bound that holds for an earlier read holds for a later one: what is
/// settled stays settled as time passes.
pub proof fn law_settled_is_monotone(
    o: Observed,
    read_epoch: u128,
    later_read: u128,
    now: u128,
    later_now: u128,
)
    requires
        o.settled(read_epoch, now),
        read_epoch <= later_read,
        now <= later_now,
    ensures
        o.settled(later_read, later_now),
{
}

/// What is observed at a path can be trusted exactly if nothing is there, or if the file
/// was modified at the epoch or later, not in the future, and more than two seconds
/// before its content was read.
pub proof fn law_settled_files_are_two_seconds_old(
    size: u64,
    secs: i64,
    nanos: u32,
    read_epoch: u128,
    now: u128,
)
    requires
        nanos < 1_000_000_000,
    ensures
        Observed::Absent.settled(read_epoch, now),
        (Observed::Present { size, mtime_secs: secs, mtime_nanos: nanos }).settled(read_epoch, now)
            <==> secs >= 0 && secs * 1_000_000_000 + nanos <= now && secs * 1_000_000_000 + nanos
            + 2_000_000_000 < read_epoch,
{
    assert(nanos / 1_000_000_000 == 0);
    assert(secs >= 0 ==> secs * 1_000_000_000 + nanos <= 0xFFFF_FFFF_FFFF_FFFF_FFFF_FFFFu128) by {
        assert(secs <= 0x7FFF_FFFF_FFFF_FFFF);
    }
}

/// A look at a path observes what is there: nothing, or a file with its size and its time.
/// A look that failed observes nothing at all, so that no file is taken for gone.
pub proof fn law_looks_observe_what_is_there(size: u64, t: u128)
    ensures
        Observed::of(Status::Missing) == Some(Observed::Absent),
        Observed::of(Status::Failed) is None,
        Observed::of((Status::Found { size, modified: None })) is None,
        Observed::of((Status::Found { size, modified: Some(t) })) matches Some(o) ==> (
        o matches Observed::Present { size: n, mtime_secs, mtime_nanos } && n == size && joined(
            mtime_secs,
            mtime_nanos,
        ) == Some(t)),
        t / 1_000_000_000 <= i64::MAX ==> Observed::of(
            (Status::Found { size, modified: Some(t) }),
        ) is Some,
{
    if t / NANOS_PER_SEC <= i64::MAX {
        law_split_then_join(t, (t / NANOS_PER_SEC) as i64, (t % NANOS_PER_SEC) as u32);
    }
}

/// A path that a flush touched is recorded exactly if its file was seen and can be
/// trusted, and as it was seen.
pub proof fn law_touched_paths_are_recorded_as_seen(
    prev: Map<Seq<u8>, Observed>,
    touched: Set<Seq<u8>>,
    observed: Map<Seq<u8>, Observed>,
    read_epoch: u128,
    now: u128,
    p: Seq<u8>,
)
    requires
        touched.contains(p),
    ensures
        ({
            let next = next_entries(prev, touched, observed, read_epoch, now);
            &&& next.contains_key(p) <==> observed.contains_key(p) && observed[p].settled(
                read_epoch,
                now,
            )
            &&& next.contains_key(p) ==> next[p] == observed[p]
        }),
{
}

} // verus!
