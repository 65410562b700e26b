//! Detection of changed files by `git status`, within a time budget.

use crate::git;
use crate::path_resolve;
use crate::paths;
use crate::paths::PathSet;
use vstd::prelude::*;

verus! {

/// The changed files that git reported, perhaps not all of them.
#[derive(Debug)]
pub struct ChangeSet {
    /// Repository-relative paths.
    pub paths: PathSet,
    /// Where the budget ran out: how many files were found before.
    pub budget_exceeded: Option<usize>,
    /// How long the detection took.
    pub detect_elapsed_ms: u64,
}

/// What went wrong with git.
#[derive(Debug, Clone, Copy, PartialEq, Eq, Structural)]
pub enum GitFault {
    /// It could not be started or waited for.
    Spawn,
    /// The commit to compare with is no commit id.
    InvalidBaseCommit,
    /// It failed or was killed, so its output is not complete.
    Incomplete,
    /// It named a path outside the repository.
    UnsafePath,
    /// A status without a path.
    MissingPath,
    /// A status that is not understood.
    UnsupportedStatus { kind: u8 },
}

/// Errors of change detection.
#[derive(Debug, Clone, Copy, PartialEq, Eq, Structural)]
pub enum FreshnessError {
    /// A git command did not give what was asked for.
    Io(GitFault),
}

/// What came of an update from git.
#[derive(Debug, Clone, Copy, PartialEq, Eq, Structural)]
pub enum UpdateOutcome {
    /// This many changes were applied, and this many could not be.
    Updated { files: usize, skipped: usize, detect_elapsed_ms: u64 },
    /// Nothing changed.
    NoChanges { detect_elapsed_ms: u64 },
    /// The time budget ran out; at least this many files changed.
    BudgetExceeded { files_behind_estimate: usize, detect_elapsed_ms: u64 },
    /// More files changed than the update may take.
    TooManyFiles { files_behind: usize, detect_elapsed_ms: u64 },
    /// The overlay would outgrow its share of the base.
    OverlayFull { files_behind: usize, detect_elapsed_ms: u64 },
}

impl UpdateOutcome {
    /// How long the detection took.
    pub open spec fn elapsed(self) -> u64 {
        match self {
            UpdateOutcome::Updated { detect_elapsed_ms, .. } => detect_elapsed_ms,
            UpdateOutcome::NoChanges { detect_elapsed_ms } => detect_elapsed_ms,
            UpdateOutcome::BudgetExceeded { detect_elapsed_ms, .. } => detect_elapsed_ms,
            UpdateOutcome::TooManyFiles { detect_elapsed_ms, .. } => detect_elapsed_ms,
            UpdateOutcome::OverlayFull { detect_elapsed_ms, .. } => detect_elapsed_ms,
        }
    }

    /// How long the detection took.
    pub fn detect_elapsed_ms(&self) -> (r: u64)
        ensures
            r == self.elapsed(),
    {
        match *self {
            UpdateOutcome::Updated { files: _, skipped: _, detect_elapsed_ms } => detect_elapsed_ms,
            UpdateOutcome::NoChanges { detect_elapsed_ms } => detect_elapsed_ms,
            UpdateOutcome::BudgetExceeded { files_behind_estimate: _, detect_elapsed_ms } => {
                detect_elapsed_ms
            },
            UpdateOutcome::TooManyFiles { files_behind: _, detect_elapsed_ms } => detect_elapsed_ms,
            UpdateOutcome::OverlayFull { files_behind: _, detect_elapsed_ms } => detect_elapsed_ms,
        }
    }
}

/// Bounds of an update; an absent one does not bind.
#[derive(Debug, Clone, Copy, PartialEq, Eq, Structural)]
pub struct UpdateLimits {
    /// The most changed files to take.
    pub max_files: Option<usize>,
    /// The most milliseconds to spend on detection.
    pub budget_ms: Option<u64>,
}

/// What a git command with a deadline gave.
#[derive(Debug)]
pub enum GitOutput {
    /// It succeeded; this is all it printed.
    Complete(Vec<u8>),
    /// It was killed at the deadline; this is what it had printed.
    Partial(Vec<u8>),
    /// It failed, as it does outside of a repository: no data.
    NoData,
}

/// What the output of a git command counts for.
pub open spec fn is_sorting(killed: bool, success: bool, stdout: Vec<u8>, r: GitOutput) -> bool {
    if killed {
        r == GitOutput::Partial(stdout)
    } else if success {
        r == GitOutput::Complete(stdout)
    } else {
        r is NoData
    }
}

/// Sorts a finished git command. A killed one is never taken for complete,
/// whatever its exit status.
pub fn sort_output(killed: bool, success: bool, stdout: Vec<u8>) -> (r: GitOutput)
    ensures
        is_sorting(killed, success, stdout, r),
{
    if killed {
        GitOutput::Partial(stdout)
    } else if success {
        GitOutput::Complete(stdout)
    } else {
        GitOutput::NoData
    }
}

/// A duration in milliseconds.
pub open spec fn is_elapsed(millis: u128, r: u64) -> bool {
    r == (if millis > u64::MAX {
        u64::MAX
    } else {
        millis as u64
    })
}

/// A duration in milliseconds, at most what 64 bits hold.
pub fn elapsed_ms(millis: u128) -> (r: u64)
    ensures
        is_elapsed(millis, r),
{
    if millis > 0xFFFF_FFFF_FFFF_FFFF {
        u64::MAX
    } else {
        millis as u64
    }
}

/// Whether a budget is spent.
pub open spec fn is_budget(budget_ms: Option<u64>, elapsed: u64, r: bool) -> bool {
    r == (budget_ms matches Some(b) && elapsed >= b)
}

/// Whether the budget is spent, so that git is not even started.
pub fn budget_spent(budget_ms: Option<u64>, elapsed: u64) -> (r: bool)
    ensures
        is_budget(budget_ms, elapsed, r),
{
    match budget_ms {
        Some(b) => elapsed >= b,
        None => false,
    }
}

/// The set of listed paths, in their normal form.
fn path_set(list: &Vec<Vec<u8>>) -> (r: PathSet)
    ensures
        r.wf(),
        r@ == path_resolve::normals(paths::path_views(list@)).to_set(),
{
    let ghost s = path_resolve::normals(paths::path_views(list@));
    let mut r = PathSet::new();
    let mut i: usize = 0;
    assert(s.take(0).to_set() =~= Set::<Seq<u8>>::empty());
    while i < list.len()
        invariant
            s == path_resolve::normals(paths::path_views(list@)),
            i <= s.len(),
            r.wf(),
            r@ == s.take(i as int).to_set(),
        decreases s.len() - i,
    {
        r.insert(list[i].as_slice());
        proof {
            paths::lemma_take_to_set(s, i as int);
        }
        i = i + 1;
    }
    assert(s.take(i as int) =~= s);
    r
}

/// The paths that a status report names, in their normal form.
pub open spec fn reported_paths(b: Seq<u8>) -> Set<Seq<u8>> {
    path_resolve::normals(git::status_report(b)).to_set()
}

/// A change set that is not complete.
pub fn partial(changed: PathSet, elapsed: u64) -> (r: ChangeSet)
    requires
        changed.wf(),
    ensures
        r.paths == changed,
        r.budget_exceeded == Some(changed@.len() as usize),
        r.detect_elapsed_ms == elapsed,
{
    let n: usize = changed.len();
    ChangeSet { budget_exceeded: Some(n), detect_elapsed_ms: elapsed, paths: changed }
}

/// The changed files that a run of git reports.
pub open spec fn is_detection(
    run: Result<GitOutput, GitFault>,
    elapsed: u64,
    r: Result<ChangeSet, FreshnessError>,
) -> bool {
    match run {
        Err(f) => r == Err::<ChangeSet, FreshnessError>(FreshnessError::Io(f)),
        Ok(out) => r matches Ok(c) && c.paths.wf() && c.detect_elapsed_ms == elapsed
            && match out {
            GitOutput::Complete(b) => c.paths@ == reported_paths(b@)
                && c.budget_exceeded is None,
            GitOutput::Partial(b) => c.paths@ == reported_paths(b@)
                && c.budget_exceeded == Some(c.paths@.len() as usize),
            GitOutput::NoData => c.paths@ == Set::<Seq<u8>>::empty()
                && c.budget_exceeded is None,
        },
    }
}

/// The changed files that a run of `git status --porcelain=v1 -z` reports.
///
/// A run that was cut off at the deadline gives what it printed, marked as
/// incomplete; a budget that was spent before is such a run without output. A
/// run that failed gives nothing: indexes of plain directories are supported.
pub fn detect_changed_files(run: Result<GitOutput, GitFault>, elapsed: u64) -> (r: Result<
    ChangeSet,
    FreshnessError,
>)
    ensures
        is_detection(run, elapsed, r),
{
    match run {
        Err(f) => Err(FreshnessError::Io(f)),
        Ok(out) => match out {
            GitOutput::Complete(b) => {
                let changed = path_set(&git::parse_status_z(b.as_slice()));
                Ok(ChangeSet { paths: changed, budget_exceeded: None, detect_elapsed_ms: elapsed })
            },
            GitOutput::Partial(b) => {
                let changed = path_set(&git::parse_status_z(b.as_slice()));
                Ok(partial(changed, elapsed))
            },
            GitOutput::NoData => Ok(
                ChangeSet {
                    paths: PathSet::new(),
                    budget_exceeded: None,
                    detect_elapsed_ms: elapsed,
                },
            ),
        },
    }
}

/// Whether the monitor is suggested.
pub open spec fn is_suggestion(
    detect_elapsed_ms: u64,
    budget_ms: u64,
    stamp_exists: bool,
    enabled: bool,
    r: bool,
) -> bool {
    r == (budget_ms > 0 && 2 * detect_elapsed_ms > budget_ms && !stamp_exists && !enabled)
}

/// Whether to suggest `core.fsmonitor`: detection took more than half of its
/// budget, the tip was not shown for this index, and the monitor is not on. A
/// budget of zero has no half.
pub fn should_print_fsmonitor_tip(
    detect_elapsed_ms: u64,
    budget_ms: u64,
    stamp_exists: bool,
    enabled: bool,
) -> (r: bool)
    ensures
        is_suggestion(detect_elapsed_ms, budget_ms, stamp_exists, enabled, r),
{
    budget_ms > 0 && 2 * (detect_elapsed_ms as u128) > budget_ms as u128 && !stamp_exists
        && !enabled
}

/// Every outcome tells how long the detection took.
pub proof fn law_outcomes_tell_their_time(a: usize, b: usize, ms: u64)
    ensures
        (UpdateOutcome::Updated { files: a, skipped: b, detect_elapsed_ms: ms }).elapsed() == ms,
        (UpdateOutcome::NoChanges { detect_elapsed_ms: ms }).elapsed() == ms,
        (UpdateOutcome::BudgetExceeded { files_behind_estimate: a, detect_elapsed_ms: ms }).elapsed()
            == ms,
        (UpdateOutcome::TooManyFiles { files_behind: a, detect_elapsed_ms: ms }).elapsed() == ms,
        (UpdateOutcome::OverlayFull { files_behind: a, detect_elapsed_ms: ms }).elapsed() == ms,
{
}

} // verus!
