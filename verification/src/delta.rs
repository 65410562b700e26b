//! Committed changes between two commits, and whether to apply them as a delta.

use crate::config::Config;
use crate::error::IndexError;
use crate::freshness::{FreshnessError, GitFault, GitOutput};
use crate::git;
use crate::le;
use crate::manifest::Manifest;
use crate::path_resolve;
use crate::paths;
use crate::paths::PathSet;
use vstd::prelude::*;

verus! {

/// Larger change sets are answered by a full rebuild.
pub const DELTA_MAX_FILES: usize = 5000;

/// What came of applying a delta.
#[derive(Debug, Clone, Copy, PartialEq, Eq, Structural)]
pub enum DeltaOutcome {
    /// It was applied.
    Applied,
    /// A full rebuild has to do it.
    Fallback,
}

/// Changes between two commits, by kind.
#[derive(Debug)]
pub struct CommittedChanges {
    pub added: Vec<Vec<u8>>,
    pub modified: Vec<Vec<u8>>,
    pub deleted: Vec<Vec<u8>>,
}

/// What [`CommittedChanges`] hold.
#[verifier::ext_equal]
pub struct ChangesView {
    pub added: Seq<Seq<u8>>,
    pub modified: Seq<Seq<u8>>,
    pub deleted: Seq<Seq<u8>>,
}

impl View for CommittedChanges {
    type V = ChangesView;

    open spec fn view(&self) -> ChangesView {
        ChangesView {
            added: paths::path_views(self.added@),
            modified: paths::path_views(self.modified@),
            deleted: paths::path_views(self.deleted@),
        }
    }
}

impl ChangesView {
    /// Number of changes.
    pub open spec fn count(self) -> nat {
        self.added.len() + self.modified.len() + self.deleted.len()
    }

    /// The changed paths, in their normal form.
    pub open spec fn paths(self) -> Set<Seq<u8>> {
        path_resolve::normals(self.added).to_set().union(
            path_resolve::normals(self.modified).to_set(),
        ).union(path_resolve::normals(self.deleted).to_set())
    }
}

impl Default for CommittedChanges {
    fn default() -> (c: Self)
        ensures
            c@.count() == 0,
            c@ == no_changes(),
    {
        let c = CommittedChanges { added: Vec::new(), modified: Vec::new(), deleted: Vec::new() };
        assert(c@ =~= no_changes());
        c
    }
}

pub open spec fn no_changes() -> ChangesView {
    ChangesView { added: Seq::empty(), modified: Seq::empty(), deleted: Seq::empty() }
}

fn add_all(set: &mut PathSet, list: &Vec<Vec<u8>>)
    requires
        old(set).wf(),
    ensures
        final(set).wf(),
        final(set)@ == old(set)@.union(
            path_resolve::normals(paths::path_views(list@)).to_set(),
        ),
{
    let ghost before = set@;
    let ghost s = path_resolve::normals(paths::path_views(list@));
    let mut i: usize = 0;
    assert(set@ =~= before.union(s.take(0).to_set()));
    while i < list.len()
        invariant
            s == path_resolve::normals(paths::path_views(list@)),
            i <= s.len(),
            set.wf(),
            set@ == before.union(s.take(i as int).to_set()),
        decreases s.len() - i,
    {
        set.insert(list[i].as_slice());
        proof {
            paths::lemma_take_to_set(s, i as int);
            assert(set@ =~= before.union(s.take(i + 1).to_set()));
        }
        i = i + 1;
    }
    assert(s.take(i as int) =~= s);
}

impl CommittedChanges {
    /// Number of changes; all that memory can hold where it is more.
    pub fn len(&self) -> (n: usize)
        ensures
            n == (if self@.count() > usize::MAX {
                usize::MAX
            } else {
                self@.count() as usize
            }),
    {
        self.added.len().saturating_add(self.modified.len()).saturating_add(self.deleted.len())
    }

    /// Whether there are no changes.
    pub fn is_empty(&self) -> (r: bool)
        ensures
            r == (self@.count() == 0),
    {
        self.len() == 0
    }

    /// Every changed path once, in its normal form.
    pub fn all_paths(&self) -> (r: PathSet)
        ensures
            r.wf(),
            r@ == self@.paths(),
    {
        let mut r = PathSet::new();
        add_all(&mut r, &self.added);
        add_all(&mut r, &self.modified);
        add_all(&mut r, &self.deleted);
        assert(r@ =~= self@.paths());
        r
    }
}

/// The kind that a status token gives: its first byte, `?` if it is empty.
pub open spec fn kind_of(tok: Seq<u8>) -> u8 {
    if tok.len() == 0 {
        0x3F
    } else {
        tok[0]
    }
}

/// Added, modified, type changed or deleted.
pub open spec fn is_kind(kind: u8) -> bool {
    kind == 0x41 || kind == 0x4D || kind == 0x54 || kind == 0x44
}

/// One more change.
pub open spec fn with_change(c: ChangesView, kind: u8, path: Seq<u8>) -> ChangesView {
    if kind == 0x41 {
        ChangesView { added: c.added.push(path), ..c }
    } else if kind == 0x44 {
        ChangesView { deleted: c.deleted.push(path), ..c }
    } else {
        ChangesView { modified: c.modified.push(path), ..c }
    }
}

/// The changes that tokens report after the changes `c`, or the first fault. A
/// path that leads out of the repository is a fault where `strict`, and left out
/// otherwise.
pub open spec fn name_status(toks: Seq<Seq<u8>>, c: ChangesView, strict: bool) -> Result<
    ChangesView,
    GitFault,
>
    decreases toks.len(),
{
    if toks.len() == 0 {
        Ok(c)
    } else {
        let kind = kind_of(toks[0]);
        if !is_kind(kind) {
            Err(GitFault::UnsupportedStatus { kind })
        } else if toks.len() < 2 {
            Err(GitFault::MissingPath)
        } else if git::safe(toks[1]) {
            name_status(toks.skip(2), with_change(c, kind, toks[1]), strict)
        } else if strict {
            Err(GitFault::UnsafePath)
        } else {
            name_status(toks.skip(2), c, strict)
        }
    }
}

/// The tokens without an empty one at the end.
pub open spec fn without_last_empty(toks: Seq<Seq<u8>>) -> Seq<Seq<u8>> {
    if toks.len() > 0 && toks.last().len() == 0 {
        toks.drop_last()
    } else {
        toks
    }
}

/// What `git diff --name-status -z` reports, or why it is not taken.
pub open spec fn name_status_report(b: Seq<u8>, strict: bool) -> Result<ChangesView, GitFault> {
    name_status(without_last_empty(git::tokens(b)), no_changes(), strict)
}

/// What a strict reading of a report gives.
pub open spec fn is_strict_reading(
    bytes: Seq<u8>,
    r: Result<CommittedChanges, FreshnessError>,
) -> bool {
    match name_status_report(bytes, true) {
        Err(f) => r == Err::<CommittedChanges, FreshnessError>(FreshnessError::Io(f)),
        Ok(v) => r matches Ok(c) && c@ == v,
    }
}

/// The changes that `git diff --name-status -z` printed. Every record is a
/// status and one path that stays in the repository; anything else is refused as
/// a whole.
pub fn parse_name_status_z(bytes: &[u8]) -> (r: Result<CommittedChanges, FreshnessError>)
    ensures
        is_strict_reading(bytes@, r),
{
    read_name_status(bytes, true)
}

/// The changes of a report; `strict` says what becomes of a path that leads out
/// of the repository.
fn read_name_status(bytes: &[u8], strict: bool) -> (r: Result<CommittedChanges, FreshnessError>)
    ensures
        match name_status_report(bytes@, strict) {
            Err(f) => r == Err::<CommittedChanges, FreshnessError>(FreshnessError::Io(f)),
            Ok(v) => r matches Ok(c) && c@ == v,
        },
{
    let toks = git::split_tokens(bytes);
    let ghost all = paths::path_views(toks@);
    let mut end: usize = toks.len();
    if end > 0 && toks[end - 1].len() == 0 {
        end = end - 1;
    }
    let ghost ts = without_last_empty(all);
    assert(ts =~= all.take(end as int));
    let mut c = CommittedChanges { added: Vec::new(), modified: Vec::new(), deleted: Vec::new() };
    assert(c@ =~= no_changes());
    let mut i: usize = 0;
    assert(ts.skip(0) =~= ts);
    while i < end
        invariant
            all == paths::path_views(toks@),
            end <= toks@.len(),
            ts == all.take(end as int),
            i <= end,
            name_status_report(bytes@, strict) == name_status(ts.skip(i as int), c@, strict),
        decreases end - i,
    {
        let ghost rest = ts.skip(i as int);
        let ghost before = c@;
        assert(rest[0] == toks@[i as int]@);
        let kind: u8 = if toks[i].len() == 0 {
            0x3F
        } else {
            toks[i][0]
        };
        if kind != 0x41 && kind != 0x4D && kind != 0x54 && kind != 0x44 {
            return Err(FreshnessError::Io(GitFault::UnsupportedStatus { kind }));
        }
        if end - i < 2 {
            return Err(FreshnessError::Io(GitFault::MissingPath));
        }
        let path: &[u8] = toks[i + 1].as_slice();
        assert(rest[1] == path@);
        assert(rest.skip(2) =~= ts.skip(i + 2));
        if git::is_safe_git_path(path) {
            let owned = le::bytes_clone(path);
            if kind == 0x41 {
                c.added.push(owned);
            } else if kind == 0x44 {
                c.deleted.push(owned);
            } else {
                c.modified.push(owned);
            }
            assert(c@ =~= with_change(before, kind, path@));
        } else if strict {
            return Err(FreshnessError::Io(GitFault::UnsafePath));
        }
        i = i + 2;
    }
    Ok(c)
}

/// The changes that a run of git reports.
pub open spec fn is_committed_detection(
    base_commit: Seq<u8>,
    run: Result<GitOutput, GitFault>,
    r: Result<CommittedChanges, FreshnessError>,
) -> bool {
    if !git::is_commit(base_commit) {
        r == Err::<CommittedChanges, FreshnessError>(
            FreshnessError::Io(GitFault::InvalidBaseCommit),
        )
    } else {
        match run {
            Err(f) => r == Err::<CommittedChanges, FreshnessError>(FreshnessError::Io(f)),
            Ok(GitOutput::Complete(b)) => match name_status_report(b@, false) {
                Err(f) => r == Err::<CommittedChanges, FreshnessError>(FreshnessError::Io(f)),
                Ok(v) => r matches Ok(c) && c@ == v,
            },
            Ok(_) => r == Err::<CommittedChanges, FreshnessError>(
                FreshnessError::Io(GitFault::Incomplete),
            ),
        }
    }
}

/// The changes between `base_commit` and the head that a run of git reports.
/// Paths that lead out of the repository are left out. Output that is not
/// complete is not taken: a delta has to be exact.
pub fn detect_committed_changes(base_commit: &[u8], run: Result<GitOutput, GitFault>) -> (r: Result<
    CommittedChanges,
    FreshnessError,
>)
    ensures
        is_committed_detection(base_commit@, run, r),
{
    if !git::is_hex_commit(base_commit) {
        return Err(FreshnessError::Io(GitFault::InvalidBaseCommit));
    }
    match run {
        Err(f) => Err(FreshnessError::Io(f)),
        Ok(out) => match out {
            GitOutput::Complete(b) => read_name_status(b.as_slice(), false),
            _ => Err(FreshnessError::Io(GitFault::Incomplete)),
        },
    }
}

/// Whether changes are applied as a delta.
pub open spec fn is_choice(
    manifest: Manifest,
    changes: ChangesView,
    config: Config,
    r: bool,
) -> bool {
    r == (0 < changes.count() <= DELTA_MAX_FILES && ((changes.added.len() == 0
        && changes.modified.len() == 0) || manifest.segments@.len()
        < config.segment_limit()))
}

/// Whether to apply changes as a delta and not by a rebuild: there are some, not
/// too many, and a new segment, where one is needed, is within the limit.
pub fn should_delta(manifest: &Manifest, changes: &CommittedChanges, config: &Config) -> (r: bool)
    ensures
        is_choice(*manifest, changes@, *config, r),
{
    let n: usize = changes.len();
    n > 0 && n <= DELTA_MAX_FILES && ((changes.added.len() == 0 && changes.modified.len() == 0)
        || manifest.segments.len() < config.max_segments_at_least_one())
}

/// Whether two commits can be asked about: both are recorded, and both are
/// commit ids.
pub fn can_compare(base: &Option<Vec<u8>>, head: &Option<Vec<u8>>) -> (r: bool)
    ensures
        r == (base matches Some(b) && git::is_commit(b@) && (head matches Some(h)
            && git::is_commit(h@))),
{
    match base {
        None => false,
        Some(b) => match head {
            None => false,
            Some(h) => git::is_hex_commit(b.as_slice()) && git::is_hex_commit(h.as_slice()),
        },
    }
}

/// What is known when a delta is tried: git is there, the head descends from
/// the recorded commit, and the changes, where they could be detected.
pub struct DeltaInputs {
    pub git_found: bool,
    pub is_ancestor: bool,
    pub changes: Result<CommittedChanges, FreshnessError>,
}

/// Which changes are applied for a moved head.
pub open spec fn is_delta(
    manifest: Manifest,
    head: Option<Vec<u8>>,
    inputs: DeltaInputs,
    config: Config,
    r: Option<CommittedChanges>,
) -> bool {
    let known = manifest.base_commit matches Some(b) && git::is_commit(b@) && (
    head matches Some(h) && git::is_commit(h@));
    match inputs.changes {
        Ok(c) => if known && inputs.git_found && inputs.is_ancestor && 0 < c@.count()
            <= DELTA_MAX_FILES && ((c@.added.len() == 0 && c@.modified.len() == 0)
            || manifest.segments@.len() < config.segment_limit()) {
            r == Some(c)
        } else {
            r is None
        },
        Err(_) => r is None,
    }
}

/// The changes to apply for a moved head, or nothing where a rebuild has to do
/// it. A rebuild is always correct, so every doubt is answered by one.
pub fn try_committed_delta(
    manifest: &Manifest,
    head: &Option<Vec<u8>>,
    inputs: DeltaInputs,
    config: &Config,
) -> (r: Option<CommittedChanges>)
    ensures
        is_delta(*manifest, *head, inputs, *config, r),
{
    if !can_compare(&manifest.base_commit, head) || !inputs.git_found || !inputs.is_ancestor {
        return None;
    }
    match inputs.changes {
        Err(_) => None,
        Ok(c) => if should_delta(manifest, &c, config) {
            Some(c)
        } else {
            None
        },
    }
}

/// What the commit of a delta means for it.
pub open spec fn is_delta_end(
    commit: Result<(), IndexError>,
    r: Result<DeltaOutcome, IndexError>,
) -> bool {
    match commit {
        Ok(_) => r == Ok::<DeltaOutcome, IndexError>(DeltaOutcome::Applied),
        Err(IndexError::OverlayFull { .. }) => r == Ok::<DeltaOutcome, IndexError>(
            DeltaOutcome::Fallback,
        ),
        Err(e) => r == Err::<DeltaOutcome, IndexError>(e),
    }
}

/// What a commit of the changes means for the delta: it goes on, a full overlay
/// is answered by a rebuild, and other errors are passed on.
pub fn after_delta_commit(commit: Result<(), IndexError>) -> (r: Result<DeltaOutcome, IndexError>)
    ensures
        is_delta_end(commit, r),
{
    match commit {
        Ok(_) => Ok(DeltaOutcome::Applied),
        Err(e) => match e {
            IndexError::OverlayFull { overlay_docs: _, base_docs: _ } => Ok(DeltaOutcome::Fallback),
            other => Err(other),
        },
    }
}

/// Every path that is taken from git's report stays in the repository.
pub proof fn law_reported_changes_are_safe(
    toks: Seq<Seq<u8>>,
    c: ChangesView,
    strict: bool,
    v: ChangesView,
)
    requires
        name_status(toks, c, strict) == Ok::<ChangesView, GitFault>(v),
        all_safe(c),
    ensures
        all_safe(v),
    decreases toks.len(),
{
    if toks.len() > 0 {
        if git::safe(toks[1]) {
            law_reported_changes_are_safe(
                toks.skip(2),
                with_change(c, kind_of(toks[0]), toks[1]),
                strict,
                v,
            );
        } else {
            law_reported_changes_are_safe(toks.skip(2), c, strict, v);
        }
    }
}

/// Every path of the changes stays in the repository.
pub open spec fn all_safe(c: ChangesView) -> bool {
    &&& forall|i: int| 0 <= i < c.added.len() ==> git::safe(#[trigger] c.added[i])
    &&& forall|i: int| 0 <= i < c.modified.len() ==> git::safe(#[trigger] c.modified[i])
    &&& forall|i: int| 0 <= i < c.deleted.len() ==> git::safe(#[trigger] c.deleted[i])
}

proof fn lemma_strict_refuses(toks: Seq<Seq<u8>>, c: ChangesView, i: int)
    requires
        0 <= i,
        2 * i + 1 < toks.len(),
        !git::safe(toks[2 * i + 1]),
    ensures
        name_status(toks, c, true) is Err,
    decreases i,
{
    if i > 0 && is_kind(kind_of(toks[0])) && git::safe(toks[1]) {
        let rest = toks.skip(2);
        assert(rest[2 * (i - 1) + 1] == toks[2 * i + 1]);
        lemma_strict_refuses(rest, with_change(c, kind_of(toks[0]), toks[1]), i - 1);
    }
}

/// A strict reading refuses a report as a whole if any of its paths leads out of the
/// repository.
pub proof fn law_strict_readings_refuse_any_way_out(
    bytes: Seq<u8>,
    r: Result<CommittedChanges, FreshnessError>,
    i: int,
)
    requires
        is_strict_reading(bytes, r),
        0 <= i,
        2 * i + 1 < without_last_empty(git::tokens(bytes)).len(),
        !git::safe(without_last_empty(git::tokens(bytes))[2 * i + 1]),
    ensures
        r is Err,
{
    lemma_strict_refuses(without_last_empty(git::tokens(bytes)), no_changes(), i);
}

} // verus!
