use syntext::delta::{
    after_delta_commit, can_compare, detect_committed_changes, parse_name_status_z, should_delta,
    try_committed_delta, CommittedChanges, DeltaInputs, DeltaOutcome, DELTA_MAX_FILES,
};
use syntext::config::Config;
use syntext::error::IndexError;
use syntext::freshness::{FreshnessError, GitFault, GitOutput};
use syntext::git::{
    current_repo_head, is_hex_commit, is_safe_git_path, named_commit, parse_status_z,
};
use syntext::manifest::Manifest;

fn paths(input: &[u8]) -> Vec<String> {
    parse_status_z(input)
        .into_iter()
        .map(|p| String::from_utf8_lossy(&p).into_owned())
        .collect()
}

#[test]
fn every_ordinary_status_pair_yields_its_path() {
    let pairs: [&[u8]; 14] = [
        b"M ", b" M", b"MM", b"A ", b" A", b"D ", b" D", b"T ", b"UU", b"AA", b"DU", b"??", b" m",
        b" ?",
    ];
    let mut input = Vec::new();
    for (i, xy) in pairs.iter().enumerate() {
        input.extend_from_slice(xy);
        input.push(b' ');
        input.extend_from_slice(format!("f{i}.rs").as_bytes());
        input.push(0);
    }
    let got = paths(&input);
    assert_eq!(got.len(), pairs.len(), "got {got:?}");
    for (i, p) in got.iter().enumerate() {
        assert_eq!(p, &format!("f{i}.rs"));
    }
}

#[test]
fn ignored_entries_and_branch_headers_are_skipped() {
    let input = b"## main...origin/main\0!! build/out.o\0?? keep.rs\0## No commits yet on main\0";
    assert_eq!(paths(input), vec!["keep.rs"]);
}

#[test]
fn rename_and_copy_records_report_both_paths_and_stay_aligned() {
    assert_eq!(
        paths(b"R  new.rs\0old.rs\0M  x.rs\0"),
        vec!["new.rs", "old.rs", "x.rs"]
    );
    assert_eq!(
        paths(b" R new.rs\0old.rs\0?? y.rs\0"),
        vec!["new.rs", "old.rs", "y.rs"]
    );
    assert_eq!(paths(b"C  copy.rs\0src.rs\0"), vec!["copy.rs", "src.rs"]);
}

#[test]
fn paths_are_sliced_at_a_fixed_offset_never_trimmed() {
    let input = b"??  leading.rs\0?? has space.rs\0?? has\nnewline.rs\0";
    assert_eq!(
        paths(input),
        vec![" leading.rs", "has space.rs", "has\nnewline.rs"]
    );
}

#[test]
fn torn_final_record_is_dropped() {
    assert_eq!(paths(b"?? a.rs\0?? b.r"), vec!["a.rs"]);
    assert_eq!(paths(b"?? a.rs\0??"), vec!["a.rs"]);
    assert_eq!(paths(b"?? a.rs\0?"), vec!["a.rs"]);
    // The new path of a rename survives a torn original path.
    assert_eq!(paths(b"R  new.rs\0ol"), vec!["new.rs"]);
    assert!(paths(b"?? only.rs").is_empty());
}

#[test]
fn malformed_tokens_and_empty_input_yield_nothing() {
    assert!(paths(b"").is_empty());
    assert!(paths(b"\0").is_empty());
    assert!(paths(b"\0\0\0").is_empty());
    assert!(paths(b"?? \0").is_empty());
    assert!(paths(b"M\0").is_empty());
    assert!(paths(b"MMMfile.rs\0").is_empty());
    assert!(paths(b"src/main.rs\0").is_empty());
}

#[test]
fn unsafe_paths_are_filtered() {
    let input = b"?? ../escape.rs\0?? /abs/path.rs\0?? ok.rs\0";
    assert_eq!(paths(input), vec!["ok.rs"]);
}

#[test]
fn non_utf8_path_bytes_round_trip() {
    let input = b"?? caf\xe9.rs\0";
    let got = parse_status_z(input);
    assert_eq!(got, vec![b"caf\xe9.rs".to_vec()]);
}

#[test]
fn duplicate_path_across_records_is_returned_twice() {
    assert_eq!(paths(b"D  dup.rs\0?? dup.rs\0"), vec!["dup.rs", "dup.rs"]);
}

#[test]
fn safe_paths_stay_in_the_repository() {
    assert!(is_safe_git_path(b"a/b.rs"));
    assert!(is_safe_git_path(b"a/..b"));
    assert!(!is_safe_git_path(b"a/../b"));
    assert!(!is_safe_git_path(b".."));
    assert!(!is_safe_git_path(b"/a"));
    assert!(!is_safe_git_path(b""));
}

#[test]
fn commit_ids_are_forty_to_sixty_four_hex_digits() {
    assert!(is_hex_commit(&[b'A'; 64]));
    assert!(!is_hex_commit(&[b'A'; 65]));
    assert!(is_hex_commit(b"0123456789abcdef0123456789abcdef01234567"));
    assert!(!is_hex_commit(b"0123456789abcdef0123456789abcdef0123456"));
    assert!(!is_hex_commit(b"0123456789abcdef0123456789abcdef0123456g"));
}

fn changes(input: &[u8]) -> CommittedChanges {
    parse_name_status_z(input).expect("parses")
}

#[test]
fn name_status_records_are_sorted_by_kind() {
    let c = changes(b"A\0new.rs\0M\0mod.rs\0D\0gone.rs\0T\0type.rs\0");
    assert_eq!(c.added, vec![b"new.rs".to_vec()]);
    assert_eq!(c.modified, vec![b"mod.rs".to_vec(), b"type.rs".to_vec()]);
    assert_eq!(c.deleted, vec![b"gone.rs".to_vec()]);
    assert_eq!(c.len(), 4);
    assert!(!c.is_empty());
    assert_eq!(c.all_paths().len(), 4);
    assert!(changes(b"").is_empty());
}

#[test]
fn name_status_faults_are_reported() {
    assert_eq!(
        parse_name_status_z(b"A\0../x\0").err(),
        Some(FreshnessError::Io(GitFault::UnsafePath))
    );
    assert_eq!(
        parse_name_status_z(b"A\0").err(),
        Some(FreshnessError::Io(GitFault::MissingPath))
    );
    assert_eq!(
        parse_name_status_z(b"X\0a\0").err(),
        Some(FreshnessError::Io(GitFault::UnsupportedStatus { kind: b'X' }))
    );
}

#[test]
fn committed_changes_need_a_commit_and_complete_output() {
    let base = b"0123456789abcdef0123456789abcdef01234567";
    let got = detect_committed_changes(base, Ok(GitOutput::Complete(b"M\0a.rs\0".to_vec())));
    assert_eq!(got.expect("complete").modified, vec![b"a.rs".to_vec()]);
    assert_eq!(
        detect_committed_changes(b"HEAD", Ok(GitOutput::Complete(Vec::new()))).err(),
        Some(FreshnessError::Io(GitFault::InvalidBaseCommit))
    );
    assert_eq!(
        detect_committed_changes(base, Ok(GitOutput::Partial(b"M\0a.rs\0".to_vec()))).err(),
        Some(FreshnessError::Io(GitFault::Incomplete))
    );
    assert_eq!(
        detect_committed_changes(base, Err(GitFault::Spawn)).err(),
        Some(FreshnessError::Io(GitFault::Spawn))
    );
}

fn manifest(base: Option<&[u8]>) -> Manifest {
    let mut m = Manifest::new(Vec::new(), 0, 0);
    m.base_commit = base.map(|b| b.to_vec());
    m
}

#[test]
fn a_delta_is_tried_only_when_it_is_safe_and_small() {
    let base = b"0123456789abcdef0123456789abcdef01234567".to_vec();
    let head = Some(b"89abcdef0123456789abcdef0123456789abcdef".to_vec());
    let config = Config::default();
    let m = manifest(Some(&base));
    let ok = |is_ancestor: bool, git_found: bool| DeltaInputs {
        git_found,
        is_ancestor,
        changes: Ok(changes(b"M\0a.rs\0")),
    };
    assert!(can_compare(&m.base_commit, &head));
    assert!(!can_compare(&None, &head));
    assert!(try_committed_delta(&m, &head, ok(true, true), &config).is_some());
    assert!(try_committed_delta(&m, &head, ok(false, true), &config).is_none());
    assert!(try_committed_delta(&m, &head, ok(true, false), &config).is_none());
    assert!(try_committed_delta(&manifest(None), &head, ok(true, true), &config).is_none());
    assert!(should_delta(&m, &changes(b"M\0a.rs\0"), &config));
    let mut many = CommittedChanges::default();
    for i in 0..=DELTA_MAX_FILES {
        many.added.push(format!("f{i}.rs").into_bytes());
    }
    assert!(!should_delta(&m, &many, &config));
}

#[test]
fn a_full_overlay_turns_a_delta_into_a_rebuild() {
    assert!(matches!(after_delta_commit(Ok(())), Ok(DeltaOutcome::Applied)));
    let full = IndexError::OverlayFull { overlay_docs: 6, base_docs: 10 };
    assert!(matches!(after_delta_commit(Err(full)), Ok(DeltaOutcome::Fallback)));
    let other = IndexError::DocIdOverflow { base_doc_count: 1, overlay_docs: 2 };
    assert!(matches!(
        after_delta_commit(Err(other)),
        Err(IndexError::DocIdOverflow { base_doc_count: 1, overlay_docs: 2 })
    ));
}

#[test]
fn head_is_what_rev_parse_prints_without_white_space() {
    assert_eq!(current_repo_head(Some(b"  0123abcd\n")), Some(b"0123abcd".to_vec()));
    assert_eq!(current_repo_head(Some(b" \n\t ")), None);
    assert_eq!(current_repo_head(Some(b"")), None);
    assert_eq!(
        current_repo_head(Some("\u{a0}\u{85}a b\u{2003}\u{3000}".as_bytes())),
        Some(b"a b".to_vec())
    );
    assert_eq!(
        current_repo_head(Some("\u{200b}a".as_bytes())),
        Some("\u{200b}a".as_bytes().to_vec())
    );
    assert_eq!(current_repo_head(None), None);
}

#[test]
fn head_replaces_what_is_not_text() {
    assert_eq!(current_repo_head(Some(b"a\xFFb\n")), Some("a\u{FFFD}b".as_bytes().to_vec()));
}

#[test]
fn a_commit_needs_a_name() {
    assert_eq!(named_commit(""), None);
    assert_eq!(named_commit("f00"), Some(b"f00".to_vec()));
}

#[test]
fn committed_changes_leave_unsafe_paths_out() {
    let base = b"0123456789abcdef0123456789abcdef01234567";
    let out = GitOutput::Complete(b"A\0../evil.rs\0M\0ok.rs\0".to_vec());
    let got = detect_committed_changes(base, Ok(out)).expect("unsafe paths are dropped");
    assert!(got.added.is_empty());
    assert_eq!(got.modified, vec![b"ok.rs".to_vec()]);
    assert!(got.deleted.is_empty());
    assert_eq!(
        detect_committed_changes(base, Ok(GitOutput::Complete(b"M\0ok.rs\0R\0x\0".to_vec()))).err(),
        Some(FreshnessError::Io(GitFault::UnsupportedStatus { kind: b'R' }))
    );
    assert_eq!(
        detect_committed_changes(base, Ok(GitOutput::Complete(b"M\0ok.rs\0A\0".to_vec()))).err(),
        Some(FreshnessError::Io(GitFault::MissingPath))
    );
}

#[test]
fn status_reports_concatenate_and_torn_records_add_nothing() {
    let a = b" M a.rs\0?? b.rs\0";
    let b = b"D  c.rs\0";
    assert_eq!(paths(&[&a[..], &b[..]].concat()), vec!["a.rs", "b.rs", "c.rs"]);
    assert_eq!(paths(&[&a[..], b"?? torn"].concat()), vec!["a.rs", "b.rs"]);
    assert!(paths(b"?? torn").is_empty());
}

#[test]
fn changed_paths_are_listed_once_by_their_components() {
    let mut c = CommittedChanges::default();
    c.added.push(b"a//b.rs".to_vec());
    c.modified.push(b"a/b.rs".to_vec());
    c.deleted.push(b"a/./c.rs".to_vec());
    assert_eq!(c.all_paths().paths, vec![b"a/b.rs".to_vec(), b"a/c.rs".to_vec()]);
}
