use syntext::config::Config;
use syntext::error::IndexError;
use syntext::external_build::{normalize_external_records, ExternalFileRecord};
use syntext::walk::{
    enumerate_files, split_batches, CheckoutKind, FileRecord, GitMark, LinkSight, TargetKind,
    WalkEntry, WalkKind, WalkSkips,
};

const ROOT: &str = "/repo";

fn config() -> Config {
    Config::new(b"/index".to_vec(), ROOT.as_bytes().to_vec())
}

fn abs(rel: &str) -> Vec<u8> {
    if rel.is_empty() {
        ROOT.as_bytes().to_vec()
    } else {
        format!("{ROOT}/{rel}").into_bytes()
    }
}

fn file(rel: &str, size: u64) -> WalkEntry {
    WalkEntry {
        path: abs(rel),
        kind: WalkKind::File { canonical: Some(abs(rel)), size: Some(size) },
    }
}

fn dir(rel: &str, git: GitMark) -> WalkEntry {
    WalkEntry { path: abs(rel), kind: WalkKind::Directory { git } }
}

fn link(rel: &str, target: LinkSight) -> WalkEntry {
    WalkEntry { path: abs(rel), kind: WalkKind::Symlink(target) }
}

fn to(canonical: Vec<u8>, kind: TargetKind, size: u64) -> LinkSight {
    LinkSight::Target { canonical, kind, size: Some(size) }
}

fn enumerate(config: &Config, entries: Vec<WalkEntry>) -> (Vec<FileRecord>, WalkSkips) {
    enumerate_files(config, ROOT.as_bytes(), &entries)
}

fn rel_paths(files: &[FileRecord]) -> Vec<String> {
    files.iter().map(|(_, rel, _)| String::from_utf8_lossy(rel).into_owned()).collect()
}

#[test]
fn enumerate_files_skips_symlinked_directories() {
    let (files, _) = enumerate(
        &config(),
        vec![
            link("alias", to(abs("real"), TargetKind::Other, 0)),
            dir("real", GitMark::Absent),
            file("real/nested.rs", 15),
        ],
    );
    assert_eq!(
        rel_paths(&files),
        vec!["real/nested.rs"],
        "directory symlink contents must not be indexed through alias paths"
    );
}

#[test]
fn collect_symlink_entry_rejects_canonical_symlink() {
    let outside = b"/outside/secret.rs".to_vec();
    let (files, _) = enumerate(
        &config(),
        vec![
            link("link_a", LinkSight::Chain),
            link("link_b", to(outside, TargetKind::File, 6)),
            link("link_c", to(abs("swapped"), TargetKind::Symlink, 6)),
            link("link_d", LinkSight::Broken),
        ],
    );
    assert!(
        files.is_empty(),
        "symlinks pointing outside repo must be rejected, found: {files:?}"
    );
}

#[test]
fn enumerate_files_skips_symlink_outside_repo() {
    let outside = b"/repository/secret.rs".to_vec();
    let (files, _) =
        enumerate(&config(), vec![link("escape.rs", to(outside, TargetKind::File, 15))]);
    assert!(
        !rel_paths(&files).contains(&"escape.rs".to_string()),
        "out-of-repo symlink targets must be skipped"
    );
}

#[test]
fn enumerate_files_deduplicates_multiple_symlinks_to_same_file() {
    let mut entries = Vec::new();
    for i in 0..10u8 {
        entries.push(link(
            &format!("alias{i}.rs"),
            to(abs("real.rs"), TargetKind::File, 16),
        ));
    }
    entries.push(file("real.rs", 16));
    let (files, _) = enumerate(&config(), entries);
    assert_eq!(
        rel_paths(&files),
        vec!["real.rs"],
        "the real file must appear exactly once"
    );
}

#[test]
fn enumerate_files_real_file_wins_over_symlink_alias() {
    let (files, _) = enumerate(
        &config(),
        vec![
            link("alias.rs", to(abs("real.rs"), TargetKind::File, 17)),
            file("real.rs", 17),
        ],
    );
    assert_eq!(files.len(), 1);
    assert_eq!(
        rel_paths(&files)[0],
        "real.rs",
        "the surviving entry must be the real file, not the symlink"
    );
}

#[test]
fn a_symlink_to_a_file_that_is_not_walked_is_indexed_once() {
    let hidden = abs("ignored/real.rs");
    let (files, _) = enumerate(
        &config(),
        vec![
            link("b.rs", to(hidden.clone(), TargetKind::File, 3)),
            link("a.rs", to(hidden.clone(), TargetKind::File, 3)),
        ],
    );
    assert_eq!(files, vec![(hidden, b"b.rs".to_vec(), 3)]);
}

#[test]
fn enumerate_files_counts_too_large_skips() {
    let config = Config { max_file_size: 32, ..config() };
    let (files, skips) = enumerate(&config, vec![file("big.rs", 64), file("small.rs", 11)]);
    assert_eq!(skips.too_large, 1, "one file exceeds the 32-byte cap");
    assert_eq!(
        rel_paths(&files),
        vec!["small.rs"],
        "oversized file must be excluded from the candidate list"
    );
}

/// A repository with a checkout inside it.
fn repo_with_nested_checkout(git: GitMark) -> Vec<WalkEntry> {
    vec![
        dir("", GitMark::Directory),
        dir(".git", GitMark::Absent),
        file(".git/HEAD", 21),
        file("outer.rs", 14),
        dir("nested", git),
        file("nested/inner.rs", 14),
        file("nested-not.rs", 1),
    ]
}

#[test]
fn nested_linked_worktree_is_pruned() {
    let (files, skips) = enumerate(&config(), repo_with_nested_checkout(GitMark::File));
    let paths = rel_paths(&files);
    assert!(
        !paths.iter().any(|p| p.starts_with("nested/")),
        "a linked worktree's files must not be indexed by the outer repo: {paths:?}"
    );
    assert!(paths.contains(&"outer.rs".to_string()));
    assert!(paths.contains(&"nested-not.rs".to_string()));
    assert_eq!(
        skips.nested_checkouts,
        vec![(b"nested".to_vec(), CheckoutKind::Linked)],
    );
}

#[test]
fn nested_clone_with_a_git_directory_is_pruned() {
    let (files, skips) = enumerate(&config(), repo_with_nested_checkout(GitMark::Directory));
    let paths = rel_paths(&files);
    assert!(
        !paths.iter().any(|p| p.starts_with("nested/")),
        "a nested clone's files must not be indexed by the outer repo: {paths:?}"
    );
    assert_eq!(
        skips.nested_checkouts,
        vec![(b"nested".to_vec(), CheckoutKind::NestedClone)],
    );
}

#[test]
fn the_repos_own_git_directory_is_still_walked() {
    let mut entries = repo_with_nested_checkout(GitMark::File);
    entries.push(file(".git/hooks/pre-commit.sample", 17));
    let paths = rel_paths(&enumerate(&config(), entries).0);
    assert!(
        paths.contains(&".git/hooks/pre-commit.sample".to_string()),
        "the repo's own .git must still be walked: {paths:?}"
    );
    assert!(paths.contains(&"outer.rs".to_string()));
}

#[test]
fn index_nested_checkouts_opts_back_in() {
    let config = Config { index_nested_checkouts: true, ..config() };
    let (files, skips) = enumerate(&config, repo_with_nested_checkout(GitMark::File));
    let paths = rel_paths(&files);
    assert!(
        paths.contains(&"nested/inner.rs".to_string()),
        "--index-nested must index the subtree: {paths:?}"
    );
    assert!(
        skips.nested_checkouts.is_empty(),
        "nothing was skipped, so nothing should be reported"
    );
}

#[test]
fn files_come_in_the_order_of_their_paths() {
    let (files, _) = enumerate(
        &config(),
        vec![file("b.rs", 1), file("a/z.rs", 2), file("a.rs", 3), file("a/b.rs", 4)],
    );
    assert_eq!(rel_paths(&files), vec!["a/b.rs", "a/z.rs", "a.rs", "b.rs"]);
}

#[test]
fn unreadable_sizes_and_foreign_paths_are_left_out() {
    let (files, skips) = enumerate(
        &config(),
        vec![
            WalkEntry {
                path: abs("gone.rs"),
                kind: WalkKind::File { canonical: None, size: None },
            },
            WalkEntry {
                path: b"/elsewhere/x.rs".to_vec(),
                kind: WalkKind::File { canonical: None, size: Some(1) },
            },
            WalkEntry { path: abs("socket"), kind: WalkKind::Other },
        ],
    );
    assert!(files.is_empty());
    assert_eq!(skips.too_large, 0);
}

fn record(name: &str, size: u64) -> FileRecord {
    (abs(name), name.as_bytes().to_vec(), size)
}

fn names(batches: &[Vec<FileRecord>]) -> Vec<Vec<String>> {
    batches.iter().map(|b| rel_paths(b)).collect()
}

#[test]
fn batches_close_before_they_grow_over_the_limit() {
    let files = vec![record("a", 4), record("b", 6), record("c", 1), record("d", 10)];
    let batches = split_batches(&files, 10);
    assert_eq!(names(&batches), vec![vec!["a", "b"], vec!["c"], vec!["d"]]);
    let flat: Vec<FileRecord> = batches.into_iter().flatten().collect();
    assert_eq!(flat, files);
}

#[test]
fn a_file_above_the_limit_just_fills_a_batch() {
    let files = vec![record("huge", u64::MAX), record("empty", 0), record("c", 1)];
    assert_eq!(names(&split_batches(&files, 10)), vec![vec!["huge", "empty"], vec!["c"]]);
    assert!(split_batches(&[], 10).is_empty());
}

fn external(rel: &str, size: u64) -> ExternalFileRecord {
    ExternalFileRecord {
        absolute_path: abs(rel),
        relative_path: rel.as_bytes().to_vec(),
        size_bytes: size,
    }
}

#[test]
fn supplied_files_are_sorted_and_must_stay_inside() {
    let files = normalize_external_records(vec![external("b", 2), external("a", 1)]).unwrap();
    assert_eq!(files, vec![record("a", 1), record("b", 2)]);
    for bad in ["../x", "a/../../x", "/x"] {
        let r = normalize_external_records(vec![external("ok", 1), external(bad, 1)]);
        match r {
            Err(IndexError::PathOutsideRepo(p)) => assert_eq!(p, bad.as_bytes()),
            other => panic!("expected PathOutsideRepo, got {other:?}"),
        }
    }
    assert!(normalize_external_records(vec![external("a/..b", 1)]).is_ok());
}

#[test]
fn supplied_files_are_ordered_by_component() {
    let files = normalize_external_records(vec![
        external("-y", 1),
        external("a-b", 2),
        external("./x", 3),
        external("a/b", 4),
        external("a", 5),
    ])
    .unwrap();
    let order: Vec<&[u8]> = files.iter().map(|(_, rel, _)| rel.as_slice()).collect();
    let expected: Vec<&[u8]> = vec![b"./x", b"-y", b"a", b"a/b", b"a-b"];
    assert_eq!(order, expected);
}

#[test]
fn supplied_paths_keep_their_text() {
    let files =
        normalize_external_records(vec![external("b//c", 1), external("a/./d", 2)]).unwrap();
    assert_eq!(files, vec![record("a/./d", 2), record("b//c", 1)]);
}

#[test]
fn every_batch_is_as_full_as_the_limit_allows() {
    let sizes = [3, 3, 3, 9, 1, 1, 20, 0, 5, 5, 1];
    let files: Vec<FileRecord> = sizes.iter().map(|s| record("f", *s)).collect();
    let batches = split_batches(&files, 10);
    let used = |b: &Vec<FileRecord>| b.iter().map(|f| f.2.min(10)).sum::<u64>();
    assert_eq!(batches.iter().map(Vec::len).collect::<Vec<_>>(), vec![3, 2, 1, 2, 2, 1]);
    for pair in batches.windows(2) {
        assert!(used(&pair[0]) <= 10);
        assert!(used(&pair[0]) + pair[1][0].2 > 10);
    }
}
