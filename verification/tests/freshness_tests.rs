use syntext::freshness::{
    budget_spent, detect_changed_files, elapsed_ms, partial, should_print_fsmonitor_tip,
    sort_output, ChangeSet, FreshnessError, GitFault, GitOutput, UpdateLimits,
    UpdateOutcome,
};
use syntext::paths::PathSet;

#[test]
fn change_set_budget_exceeded_is_none_on_full_detection() {
    let cs = ChangeSet {
        paths: PathSet::new(),
        budget_exceeded: None,
        detect_elapsed_ms: 0,
    };
    assert!(cs.budget_exceeded.is_none());
}

#[test]
fn update_outcome_budget_exceeded_has_nonzero_estimate() {
    let outcome = UpdateOutcome::BudgetExceeded {
        files_behind_estimate: 5,
        detect_elapsed_ms: 42,
    };
    match outcome {
        UpdateOutcome::BudgetExceeded {
            files_behind_estimate: n,
            ..
        } => assert!(n > 0),
        _ => panic!("expected BudgetExceeded"),
    }
}

#[test]
fn update_outcome_detect_elapsed_ms_reads_every_variant() {
    assert_eq!(
        UpdateOutcome::Updated {
            files: 1,
            skipped: 0,
            detect_elapsed_ms: 10,
        }
        .detect_elapsed_ms(),
        10
    );
    assert_eq!(
        UpdateOutcome::NoChanges {
            detect_elapsed_ms: 11
        }
        .detect_elapsed_ms(),
        11
    );
    assert_eq!(
        UpdateOutcome::BudgetExceeded {
            files_behind_estimate: 1,
            detect_elapsed_ms: 12,
        }
        .detect_elapsed_ms(),
        12
    );
    assert_eq!(
        UpdateOutcome::TooManyFiles {
            files_behind: 1,
            detect_elapsed_ms: 13,
        }
        .detect_elapsed_ms(),
        13
    );
    assert_eq!(
        UpdateOutcome::OverlayFull {
            files_behind: 1,
            detect_elapsed_ms: 14,
        }
        .detect_elapsed_ms(),
        14
    );
}

#[test]
fn detect_changed_files_empty_repo_returns_none() {
    let result = detect_changed_files(Ok(GitOutput::Complete(Vec::new())), 3).unwrap();
    assert!(result.paths.is_empty());
    assert!(result.budget_exceeded.is_none());
}

#[test]
fn detect_changed_files_measures_detection_time() {
    let result = detect_changed_files(Ok(GitOutput::Complete(Vec::new())), 17).unwrap();
    assert!(
        result.detect_elapsed_ms < 30_000,
        "detect_elapsed_ms should be a real (small) measurement, got {}",
        result.detect_elapsed_ms
    );
    assert_eq!(result.detect_elapsed_ms, 17);

    let bounded = partial(PathSet::new(), 2);
    assert!(bounded.budget_exceeded.is_some());
    assert!(bounded.detect_elapsed_ms < 30_000);
}

#[test]
fn detect_changed_files_finds_untracked_file() {
    let out = GitOutput::Complete(b"?? hello.rs\0".to_vec());
    let result = detect_changed_files(Ok(out), 0).unwrap();
    assert!(
        result.paths.contains(b"hello.rs"),
        "untracked file should be detected, got: {:?}",
        result.paths
    );
    assert_eq!(result.budget_exceeded, None);
}

#[test]
fn detect_changed_files_dedupes_path_reported_by_two_status_records() {
    let out = GitOutput::Complete(b"D  dup.rs\0?? dup.rs\0".to_vec());
    let result = detect_changed_files(Ok(out), 0).unwrap();
    assert_eq!(
        result.paths.len(),
        1,
        "path reported by two git commands must collapse to one entry, got: {:?}",
        result.paths
    );
    assert!(result.paths.contains(b"dup.rs"));
    let limits = UpdateLimits { max_files: Some(1), budget_ms: None };
    assert!(
        result.paths.len() <= limits.max_files.unwrap(),
        "deduped change set must fit under max_files=1, got {} paths",
        result.paths.len()
    );
}

#[test]
fn detect_changed_files_reports_budget_exceeded_when_status_is_killed() {
    let out = sort_output(true, false, b"?? untracked.rs\0".to_vec());
    let result = detect_changed_files(Ok(out), 9).unwrap();
    assert_eq!(
        result.budget_exceeded,
        Some(1),
        "a deadline kill must report exhaustion with the partial count"
    );
    assert!(result.paths.contains(b"untracked.rs"));
}

#[test]
fn run_git_bounded_classifies_deadline_kill_as_partial() {
    match sort_output(true, true, b"seen.rs\0".to_vec()) {
        GitOutput::Partial(buf) => assert_eq!(buf, b"seen.rs\0"),
        other => panic!("expected Partial, got {other:?}"),
    }
}

#[test]
fn finished_commands_are_complete_or_without_data() {
    assert!(matches!(sort_output(false, true, vec![1]), GitOutput::Complete(_)));
    assert!(matches!(sort_output(false, false, vec![1]), GitOutput::NoData));
    let result = detect_changed_files(Ok(GitOutput::NoData), 0).unwrap();
    assert!(result.paths.is_empty());
    assert_eq!(
        detect_changed_files(Err(GitFault::Spawn), 0).err(),
        Some(FreshnessError::Io(GitFault::Spawn))
    );
}

#[test]
fn durations_and_budgets() {
    assert_eq!(elapsed_ms(1500), 1500);
    assert_eq!(elapsed_ms(u128::MAX), u64::MAX);
    assert!(!budget_spent(None, u64::MAX));
    assert!(budget_spent(Some(10), 10));
    assert!(!budget_spent(Some(10), 9));
}

#[test]
fn fsmonitor_tip_not_printed_below_half_budget() {
    // 40ms of a 100ms budget is below half.
    let tip = should_print_fsmonitor_tip(40, 100, false, false);
    assert!(!tip, "stamp file must not be written below half the budget");
}

#[test]
fn fsmonitor_tip_zero_budget_never_fires() {
    assert!(!should_print_fsmonitor_tip(0, 0, false, false));
}

#[test]
fn fsmonitor_tip_prints_once_and_stamps_when_fsmonitor_unset() {
    // 60ms of a 100ms budget is over half: the first call stamps.
    let mut stamp = false;
    if should_print_fsmonitor_tip(60, 100, stamp, false) {
        stamp = true;
    }
    assert!(stamp, "stamp file must be written on first fire");
    assert!(!should_print_fsmonitor_tip(60, 100, stamp, false));
    assert!(stamp);
}

#[test]
fn fsmonitor_tip_never_fires_when_core_fsmonitor_already_true() {
    assert!(!should_print_fsmonitor_tip(60, 100, false, true));
}

#[test]
fn fsmonitor_tip_needs_more_than_half_of_the_budget() {
    assert!(!should_print_fsmonitor_tip(50, 100, false, false));
    assert!(should_print_fsmonitor_tip(51, 100, false, false));
    assert!(!should_print_fsmonitor_tip(u64::MAX / 2, u64::MAX, false, false));
    assert!(should_print_fsmonitor_tip(u64::MAX, u64::MAX, false, false));
}

#[test]
fn reported_paths_are_told_apart_by_their_components() {
    let out = GitOutput::Complete(b" M a//b.rs\0?? a/b.rs\0?? c.rs\0".to_vec());
    let changes = detect_changed_files(Ok(out), 3).expect("complete");
    assert_eq!(changes.paths.paths, vec![b"a/b.rs".to_vec(), b"c.rs".to_vec()]);
}
