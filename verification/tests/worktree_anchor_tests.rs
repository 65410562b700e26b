use syntext::paths::{PathMap, PathSet};
use syntext::worktree_anchor::{
    join_system_time, split_system_time, Observed, Status, WorktreeAnchor, MAX_ENTRIES,
};

const SECOND: u128 = 1_000_000_000;
const NOW: u128 = 1_777_000_000 * SECOND;

fn set(paths: &[&str]) -> PathSet {
    let mut s = PathSet::new();
    for p in paths {
        s.insert(p.as_bytes());
    }
    s
}

/// What a file of this size looks like that was written so many seconds ago.
fn aged(size: u64, age: u128) -> Observed {
    let (mtime_secs, mtime_nanos) = split_system_time(NOW - age * SECOND).unwrap();
    Observed::Present { size, mtime_secs, mtime_nanos }
}

fn disk(files: &[(&str, Observed)]) -> PathMap<Observed> {
    let mut m = PathMap::new();
    for (p, o) in files {
        m.insert(p.as_bytes(), *o);
    }
    m
}

fn build(
    prev: &WorktreeAnchor,
    flushed: &[&str],
    non_docs: &[&str],
    on_disk: &[(&str, Observed)],
) -> Option<WorktreeAnchor> {
    WorktreeAnchor::build_next(prev, &set(flushed), &set(non_docs), &disk(on_disk), NOW, NOW)
}

#[test]
fn a_settled_file_is_anchored_and_reads_back_as_unchanged() {
    let a = aged(5, 10);
    let anchor = build(&WorktreeAnchor::new(), &["a.rs"], &[], &[("a.rs", a)])
        .expect("under MAX_ENTRIES");
    assert_eq!(anchor.len(), 1);
    assert!(anchor.is_unchanged(b"a.rs", Some(a)));
    assert!(
        !anchor.is_unchanged(b"never-seen.rs", Some(Observed::Absent)),
        "a path the anchor does not cover is always 'changed'"
    );
}

#[test]
fn editing_an_anchored_file_makes_it_changed_again() {
    let a = aged(5, 10);
    let anchor = build(&WorktreeAnchor::new(), &["a.rs"], &[], &[("a.rs", a)]).unwrap();
    assert!(anchor.is_unchanged(b"a.rs", Some(a)));
    assert!(
        !anchor.is_unchanged(b"a.rs", Some(aged(12, 1))),
        "size and mtime both moved"
    );
    assert!(!anchor.is_unchanged(b"a.rs", None));
}

#[test]
fn a_racily_recent_write_is_left_out_rather_than_wrongly_trusted() {
    let racy = aged(12, 0);
    let anchor = build(&WorktreeAnchor::new(), &["racy.rs"], &[], &[("racy.rs", racy)]).unwrap();
    assert!(anchor.is_empty(), "a same-tick write must not be anchored");
}

#[test]
fn a_future_mtime_is_left_out() {
    let (mtime_secs, mtime_nanos) = split_system_time(NOW + 3600 * SECOND).unwrap();
    let ahead = Observed::Present { size: 15, mtime_secs, mtime_nanos };
    let later = NOW + 7200 * SECOND;
    let anchor = WorktreeAnchor::build_next(
        &WorktreeAnchor::new(),
        &set(&["ahead.rs"]),
        &set(&[]),
        &disk(&[("ahead.rs", ahead)]),
        later,
        NOW,
    )
    .unwrap();
    assert!(anchor.is_empty());
}

#[test]
fn a_deleted_non_doc_path_is_anchored_absent() {
    let gone = Observed::Absent;
    let anchor = build(&WorktreeAnchor::new(), &[], &["gone.rs"], &[("gone.rs", gone)]).unwrap();
    assert_eq!(anchor.len(), 1);
    assert!(anchor.is_unchanged(b"gone.rs", Some(gone)));
    // Created again: no longer absent, so it must be applied again.
    assert!(!anchor.is_unchanged(b"gone.rs", Some(aged(4, 10))));
}

#[test]
fn an_excluded_path_still_present_on_disk_is_anchored_present() {
    let big = aged(3, 10);
    let anchor = build(&WorktreeAnchor::new(), &[], &["big.bin"], &[("big.bin", big)]).unwrap();
    assert!(anchor.is_unchanged(b"big.bin", Some(big)));
}

#[test]
fn a_path_that_is_both_a_doc_and_a_non_doc_is_recorded_as_the_doc() {
    let flip = aged(9, 10);
    let anchor = build(
        &WorktreeAnchor::new(),
        &["flip.rs"],
        &["flip.rs"],
        &[("flip.rs", flip)],
    )
    .unwrap();
    assert_eq!(anchor.len(), 1);
    assert!(anchor.is_unchanged(b"flip.rs", Some(flip)));
}

#[test]
fn untouched_previous_entries_carry_forward_and_untrusted_ones_are_dropped() {
    let old = aged(15, 10);
    let new = aged(11, 10);
    let first = build(&WorktreeAnchor::new(), &["old.rs"], &[], &[("old.rs", old)]).unwrap();
    let second = build(&first, &["new.rs"], &[], &[("new.rs", new)]).unwrap();
    assert_eq!(second.len(), 2, "a path flushed earlier is still flushed");
    assert!(second.is_unchanged(b"old.rs", Some(old)));
    assert!(second.is_unchanged(b"new.rs", Some(new)));

    let racy = aged(15, 0);
    let third = build(&second, &["old.rs"], &[], &[("old.rs", racy)]).unwrap();
    assert_eq!(third.len(), 1);
    assert!(!third.is_unchanged(b"old.rs", Some(racy)));
    assert!(third.is_unchanged(b"new.rs", Some(new)));
}

#[test]
fn exceeding_max_entries_writes_no_anchor_at_all() {
    let mut entries: PathMap<Observed> = PathMap::new();
    let mut names: Vec<String> = (0..=MAX_ENTRIES).map(|i| format!("f{i}.rs")).collect();
    names.sort();
    for name in &names {
        entries.insert(name.as_bytes(), Observed::Absent);
    }
    let huge = WorktreeAnchor::from_entries(entries);
    assert!(build(&huge, &[], &[], &[]).is_none());
}

#[test]
fn times_split_into_seconds_and_nanoseconds() {
    assert_eq!(split_system_time(NOW + 7), Some((1_777_000_000, 7)));
    assert_eq!(join_system_time(1_777_000_000, 7), Some(NOW + 7));
    assert_eq!(join_system_time(-1, 0), None);
    assert_eq!(split_system_time(u128::MAX), None);
}

#[test]
fn a_missing_path_is_observed_as_absent_and_a_failed_look_as_nothing() {
    assert_eq!(Observed::stat(Status::Missing), Some(Observed::Absent));
    assert_eq!(Observed::stat(Status::Failed), None);
    assert_eq!(Observed::stat(Status::Found { size: 3, modified: None }), None);
}

#[test]
fn a_file_is_observed_with_its_size_and_time() {
    assert_eq!(
        Observed::stat(Status::Found { size: 3, modified: Some(5 * SECOND + 7) }),
        Some(Observed::Present { size: 3, mtime_secs: 5, mtime_nanos: 7 })
    );
    assert_eq!(Observed::stat(Status::Found { size: 3, modified: Some(u128::MAX) }), None);
}
