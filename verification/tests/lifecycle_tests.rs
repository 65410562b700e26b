use std::collections::BTreeMap;
use syntext::byte_map::ByteMap;
use syntext::commit::{classify_changed_file, ChangedFile, ChangedFileOutcome, ReadOutcome};
use syntext::compact_index::{NewSegment, WrittenIndex};
use syntext::config::Config;
use syntext::error::{Corruption, IndexError};
use syntext::freshness::{ChangeSet, UpdateLimits, UpdateOutcome};
use syntext::full_build::{build_index_from_file_list, scan_file, FileResult, Scan};
use syntext::index::Index;
use syntext::manifest::Manifest;
use syntext::open::{open_inner, SegmentBytes, Sidecars};
use syntext::path_resolve::ParentSight;
use syntext::paths::{PathMap, PathSet};
use syntext::paths_idx;
use syntext::paths_idx::PathsIdx;
use syntext::snapshot::IndexSnapshot;
use syntext::update::{after_update_commit, fresh_outcome, is_stale, Entry, Sighting, UpdateStep};
use syntext::walk::{split_batches, FileRecord};

fn grams(content: &[u8]) -> Vec<u64> {
    let mut v: Vec<u64> = content
        .windows(3)
        .map(|w| u64::from(w[0]) << 16 | u64::from(w[1]) << 8 | u64::from(w[2]))
        .collect();
    v.sort_unstable();
    v.dedup();
    v
}

/// A working tree, an index directory and the index.
struct Repo {
    tree: BTreeMap<Vec<u8>, Vec<u8>>,
    disk: BTreeMap<Vec<u8>, Vec<u8>>,
    manifest: Manifest,
    index: Index,
}

fn store(disk: &mut BTreeMap<Vec<u8>, Vec<u8>>, files: &[NewSegment], paths: Vec<Vec<u8>>) {
    for f in files {
        disk.insert(f.dict_filename.clone(), f.image.dict.clone());
        disk.insert(f.post_filename.clone(), f.image.post.clone());
    }
    let list = PathsIdx { paths, extensions: ByteMap::new(), components: ByteMap::new() };
    disk.insert(b"paths.idx".to_vec(), paths_idx::encode(&list).expect("encoded"));
}

fn try_open(
    disk: &BTreeMap<Vec<u8>, Vec<u8>>,
    m: &Manifest,
    config: &Config,
) -> Result<IndexSnapshot, IndexError> {
    let contents = m
        .segments
        .iter()
        .map(|s| SegmentBytes {
            main: disk[&s.dict_filename].clone(),
            post: disk[&s.post_filename].clone(),
        })
        .collect();
    let sidecars = Sidecars {
        deletes: m.overlay_deletes_file.as_ref().and_then(|n| disk.get(n)).cloned(),
        paths_idx: disk.get(&b"paths.idx"[..]).cloned(),
    };
    open_inner(config, m, contents, sidecars)
}

fn open(disk: &BTreeMap<Vec<u8>, Vec<u8>>, m: &Manifest) -> IndexSnapshot {
    try_open(disk, m, &Config::default()).expect("opens")
}

/// The files of an index of a working tree, and its manifest.
fn built(
    tree: &BTreeMap<Vec<u8>, Vec<u8>>,
    config: &Config,
    batch_size: u64,
) -> (BTreeMap<Vec<u8>, Vec<u8>>, Manifest) {
    let records: Vec<FileRecord> = tree
        .iter()
        .map(|(p, c)| (p.clone(), p.clone(), c.len() as u64))
        .filter(|(_, _, size)| *size <= config.max_file_size)
        .collect();
    let results = split_batches(&records, batch_size)
        .iter()
        .map(|batch| {
            batch
                .iter()
                .map(|(_, rel, _)| match scan_file(rel, Some(&tree[rel])) {
                    Scan::Text { content, content_hash } => {
                        FileResult::Indexed { content_hash, grams: grams(&content) }
                    }
                    other => panic!("expected text, got {other:?}"),
                })
                .collect()
        })
        .collect();
    let built =
        build_index_from_file_list(&records, &results, batch_size, None, 0).expect("built");
    let mut disk = BTreeMap::new();
    store(&mut disk, &built.files, built.path_index.cached_list());
    (disk, built.manifest)
}

impl Repo {
    fn build(files: &[(String, String)], config: Config, batch_size: u64) -> Repo {
        let mut tree = BTreeMap::new();
        for (name, content) in files {
            tree.insert(name.clone().into_bytes(), content.clone().into_bytes());
        }
        let (disk, manifest) = built(&tree, &config, batch_size);
        let snapshot = open(&disk, &manifest);
        let index = Index::new(config, b"/repo".to_vec(), snapshot);
        Repo { tree, disk, manifest, index }
    }

    /// Builds the index anew from the working tree.
    fn rebuild(&mut self) {
        let (disk, manifest) = built(&self.tree, &self.index.config, LARGE);
        self.disk = disk;
        self.manifest = manifest;
        self.index.install_rebuilt_index(open(&self.disk, &self.manifest));
    }

    fn write(&mut self, name: &str, content: &[u8]) {
        self.tree.insert(name.as_bytes().to_vec(), content.to_vec());
    }

    fn notify_change(&mut self, name: &str) {
        let path = format!("/repo/{name}").into_bytes();
        self.index.notify_change(&path, &ParentSight::Plain).expect("inside");
    }

    fn notify_delete(&mut self, name: &str) {
        let path = format!("/repo/{name}").into_bytes();
        self.index.notify_delete(&path, &ParentSight::Plain).expect("inside");
    }

    fn commit_batch(&mut self) {
        self.try_commit_batch().expect("committed");
    }

    fn try_commit_batch(&mut self) -> Result<(), IndexError> {
        let take = self.index.begin_commit();
        let outcomes = take
            .newly_changed
            .paths
            .iter()
            .map(|p| {
                let read = match self.tree.get(p) {
                    Some(c) => ReadOutcome::Read(c.clone()),
                    None => ReadOutcome::Missing,
                };
                match classify_changed_file(read, self.index.config.max_file_size) {
                    ChangedFileOutcome::Indexed(content) => {
                        let grams = grams(&content);
                        ChangedFile::Indexed { content, grams }
                    }
                    ChangedFileOutcome::Excluded => ChangedFile::Excluded,
                    ChangedFileOutcome::Vanished => ChangedFile::Vanished,
                }
            })
            .collect();
        self.index.commit_batch(take, outcomes, 0)
    }

    fn install(&mut self, written: Option<WrittenIndex>) -> bool {
        let Some(w) = written else {
            return false;
        };
        store(&mut self.disk, &w.files, w.paths);
        self.manifest = w.manifest;
        self.index.install_rebuilt_index(open(&self.disk, &self.manifest));
        true
    }

    fn flush(&mut self) {
        let out = self
            .index
            .flush_overlay(&self.manifest, PathMap::new(), 0, 0)
            .expect("flushed")
            .expect("something to flush");
        store(&mut self.disk, &out.files, out.paths.clone());
        for sidecar in out.deletes.iter().chain(&out.anchor) {
            self.disk.insert(sidecar.name.clone(), sidecar.bytes.clone());
        }
        self.manifest = out.final_manifest(true, true);
        self.index.install_rebuilt_index(open(&self.disk, &self.manifest));
    }

    fn overlay_ids(&self) -> Vec<u32> {
        self.index.snapshot().overlay.docs.iter().map(|d| d.doc_id).collect()
    }

    fn pending_edits(&self) -> usize {
        self.index.stats(&None, None, &Vec::new()).pending_edits
    }

    fn compact(&mut self) -> bool {
        let written = self.index.compact(&self.manifest, None, 0).expect("compacted");
        self.install(written)
    }

    fn maybe_compact(&mut self) -> bool {
        let written = self.index.maybe_compact(&self.manifest, None, 0).expect("compacted");
        self.install(written)
    }

    /// The paths of the documents that hold a text, or all of its grams.
    fn search(&self, text: &str) -> Vec<Vec<u8>> {
        let snap = self.index.snapshot();
        let mut found = Vec::new();
        for seg in snap.base_segments() {
            for i in 0..seg.doc_count {
                let doc = seg.get_doc(i).expect("a document");
                let all = grams(text.as_bytes()).iter().all(|g| {
                    seg.lookup_gram(*g)
                        .is_some_and(|l| l.to_vec().expect("a list").contains(&doc.doc_id))
                });
                if all && !snap.delete_set.contains(doc.doc_id) {
                    found.push(doc.path);
                }
            }
        }
        for doc in &snap.overlay.docs {
            if doc.content.windows(text.len()).any(|w| w == text.as_bytes()) {
                found.push(doc.path.clone());
            }
        }
        found
    }

    fn base_doc_hash(&self, path: &str) -> Option<u64> {
        let snap = self.index.snapshot();
        for seg in snap.base_segments() {
            for i in 0..seg.doc_count {
                let doc = seg.get_doc(i)?;
                if doc.path == path.as_bytes() {
                    return Some(doc.content_hash);
                }
            }
        }
        None
    }

    fn overlay_paths(&self) -> Vec<Vec<u8>> {
        self.index.snapshot().overlay.docs.iter().map(|d| d.path.clone()).collect()
    }
}

fn config(max_segments: usize, max_file_size: u64) -> Config {
    let mut c = Config::new(b"/index".to_vec(), b"/repo".to_vec());
    c.max_segments = max_segments;
    c.max_file_size = max_file_size;
    c
}

fn named(n: usize, name: &str, content: &str) -> Vec<(String, String)> {
    (0..n)
        .map(|i| (name.replace('#', &i.to_string()), content.replace('#', &i.to_string())))
        .collect()
}

const LARGE: u64 = 1 << 20;

fn one(name: &str, content: &str) -> Vec<(String, String)> {
    vec![(name.to_string(), content.to_string())]
}

const UNBOUNDED: UpdateLimits = UpdateLimits { max_files: None, budget_ms: None };

#[test]
fn build_succeeds_and_opens_cleanly() {
    let repo = Repo::build(&one("lib.rs", "fn f() {}"), config(10, LARGE), LARGE);
    assert_eq!(repo.index.snapshot().base_segments().len(), 1);
    assert_eq!(repo.search("fn f()"), vec![b"lib.rs".to_vec()]);
}

#[test]
fn build_writes_paths_idx_with_current_manifest_version() {
    let repo = Repo::build(&one("a.rs", "fn alpha() {}\n"), config(10, LARGE), LARGE);
    let listed = paths_idx::read_paths_idx(&repo.disk[&b"paths.idx"[..]]).expect("decodes");
    assert_eq!(listed.paths, vec![b"a.rs".to_vec()]);
    assert_eq!(
        repo.manifest.paths_idx_version,
        Some(paths_idx::FORMAT_VERSION),
        "manifest must record the format version of the paths.idx it wrote"
    );
}

#[test]
fn open_ignores_paths_idx_when_manifest_version_mismatches() {
    let mut files = one("a.rs", "fn alpha() {}\n");
    files.extend(one("b.rs", "fn beta() {}\n"));
    let mut repo = Repo::build(&files, config(10, LARGE), LARGE);
    assert_eq!(repo.manifest.paths_idx_version, Some(paths_idx::FORMAT_VERSION));
    repo.manifest.paths_idx_version = Some(paths_idx::FORMAT_VERSION + 1);
    let snapshot = open(&repo.disk, &repo.manifest);
    repo.index.install_rebuilt_index(snapshot);
    assert_eq!(repo.search("alpha").len(), 1);
    assert_eq!(repo.search("beta").len(), 1);
}

#[test]
fn commit_batch_skips_file_that_exceeds_limit() {
    let files = one("big.rs", "fn small() {}\n");
    let mut repo = Repo::build(&files, config(10, 10), LARGE);
    repo.write("big.rs", b"fn small_but_now_too_big() { let x = 1; }\n");
    repo.notify_change("big.rs");
    repo.commit_batch();
    assert!(
        !repo.overlay_paths().contains(&b"big.rs".to_vec()),
        "oversized file must be excluded from the overlay"
    );
    assert_eq!(repo.pending_edits(), 0);
}

#[test]
fn commit_batch_failure_requeues_pending_edits() {
    let mut repo = Repo::build(&one("base.rs", "fn base() {}\n"), config(10, LARGE), LARGE);
    repo.write("new.rs", b"fn new() {}\n");
    repo.notify_change("new.rs");
    let result = repo.try_commit_batch();
    assert!(
        matches!(result, Err(IndexError::OverlayFull { .. })),
        "commit must fail with OverlayFull (1 overlay / 1 base > 0.5): {result:?}"
    );
    assert_eq!(
        repo.pending_edits(),
        1,
        "failed commit must re-queue the drained edit so it survives to retry"
    );
}

fn ten_base_files() -> Repo {
    let files: Vec<(String, String)> = (0..10)
        .map(|i| (format!("base_{i:03}.rs"), format!("fn base_{i}() {{ let x = {i}; }}\n")))
        .collect();
    Repo::build(&files, config(10, LARGE), LARGE)
}

#[test]
fn commit_batch_returns_overlay_full_when_overlay_ratio_exceeded() {
    let mut repo = ten_base_files();
    for i in 0..6 {
        let name = format!("overlay_{i:03}.rs");
        repo.write(&name, format!("fn overlay_{i}() {{}}\n").as_bytes());
        repo.notify_change(&name);
    }
    let result = repo.try_commit_batch();
    assert!(
        matches!(result, Err(IndexError::OverlayFull { .. })),
        "commit_batch must return OverlayFull when overlay exceeds 50% of base, got: {result:?}"
    );
}

#[test]
fn commit_batch_binary_changes_do_not_count_toward_overlay_limit() {
    let mut repo = ten_base_files();
    for i in 0..6 {
        let name = format!("overlay_{i:03}.bin");
        repo.write(&name, b"\0not indexed\n");
        repo.notify_change(&name);
    }
    let result = repo.try_commit_batch();
    assert!(
        result.is_ok(),
        "binary-only changes should be excluded before overlay limit check: {result:?}"
    );
    assert_eq!(
        repo.index.snapshot().overlay.docs.len(),
        0,
        "binary-only changes must not create overlay docs"
    );
}

#[test]
fn commit_batch_normalizes_paths_under_symlinked_directory() {
    let mut files = named(4, "base_#.rs", "fn base_#() {}\n");
    files.extend(one("real/nested.rs", "fn original() {}\n"));
    let mut repo = Repo::build(&files, config(10, LARGE), LARGE);
    repo.write("real/nested.rs", b"fn original() {}\nfn normalized_alias() {}\n");
    let real = ParentSight::Linked(b"/repo/real".to_vec());
    repo.index.notify_change(b"/repo/alias/nested.rs", &real).unwrap();
    repo.commit_batch();
    let matches = repo.search("normalized_alias");
    assert!(
        matches.contains(&b"real/nested.rs".to_vec()),
        "incremental update through a symlinked directory must update the real path entry"
    );
    assert!(
        !matches.contains(&b"alias/nested.rs".to_vec()),
        "incremental update through a symlinked directory must not reintroduce alias paths"
    );
}

#[test]
fn commit_batch_normalizes_delete_under_symlinked_directory() {
    let files = one("real/nested.rs", "fn remove_me() {}\n");
    let mut repo = Repo::build(&files, config(10, LARGE), LARGE);
    repo.tree.clear();
    let real = ParentSight::Linked(b"/repo/real".to_vec());
    repo.index.notify_delete(b"/repo/alias/nested.rs", &real).unwrap();
    repo.commit_batch();
    assert!(
        repo.search("remove_me").is_empty(),
        "delete through a symlinked directory must remove the real path entry"
    );
}

#[test]
fn notify_change_accepts_canonical_path_under_symlinked_repo_root() {
    let mut files = named(6, "base_#.rs", "fn base_#() {}\n");
    files.extend(one("a.rs", "fn alpha() {}\n"));
    let mut config = config(10, LARGE);
    config.repo_root = b"/links/repo-link".to_vec();
    let mut repo = Repo::build(&files, config, LARGE);
    repo.write("a.rs", b"fn alpha_updated() {}\n");
    repo.index
        .notify_change(b"/repo/a.rs", &ParentSight::Plain)
        .expect("notify_change must accept a canonical path when repo_root is a symlink");
    repo.commit_batch();
    assert_eq!(repo.index.snapshot().overlay.docs.len(), 1);
}

fn changes(repo: &Repo, names: &[String]) -> (ChangeSet, Vec<Sighting>) {
    let mut paths = PathSet::new();
    for n in names {
        paths.insert(n.as_bytes());
    }
    let sights = paths
        .paths
        .iter()
        .map(|p| Sighting {
            entry: if repo.tree.contains_key(p) {
                Entry::Resolved([b"/repo/", p.as_slice()].concat())
            } else {
                Entry::Unresolvable
            },
            parent: Some(ParentSight::Plain),
        })
        .collect();
    (ChangeSet { paths, budget_exceeded: None, detect_elapsed_ms: 0 }, sights)
}

/// What an update comes to, given what git reports.
fn update(repo: &mut Repo, names: &[String], limits: &UpdateLimits) -> UpdateStep {
    let (mut changes, sights) = changes(repo, names);
    let unseen = names.iter().map(|_| None).collect();
    if let Some(outcome) = repo.index.begin_update(&mut changes, limits, &unseen) {
        return UpdateStep::Done(outcome);
    }
    let (applied, skipped) = repo.index.apply_changed_paths(&changes.paths, &sights);
    let committed = repo.try_commit_batch();
    after_update_commit(committed, limits, &changes, applied, skipped).expect("an outcome")
}

#[test]
fn update_from_git_classifies_dangling_symlink_as_change_not_delete() {
    let mut repo = Repo::build(&one("main.rs", "fn main() {}\n"), config(10, LARGE), LARGE);
    match update(&mut repo, &["dangling.rs".to_string()], &UNBOUNDED) {
        UpdateStep::Done(UpdateOutcome::Updated { files, skipped, .. }) => {
            assert_eq!(
                files, 1,
                "the dangling symlink must be applied via notify_change (present branch)"
            );
            assert_eq!(
                skipped, 0,
                "the dangling symlink must not be skipped or misrouted to notify_delete"
            );
        }
        other => panic!("expected Updated, got {other:?}"),
    }
}

#[test]
fn bounded_update_returns_overlay_full_without_inline_rebuild() {
    let mut repo = Repo::build(&one("main.rs", "fn main() {}\n"), config(10, LARGE), LARGE);
    let base_docs = repo.index.stats(&None, None, &Vec::new()).total_documents;
    let names: Vec<String> = (0..base_docs + 4).map(|i| format!("added_{i:04}.rs")).collect();
    for (i, name) in names.iter().enumerate() {
        repo.write(name, format!("fn marker_{i:04}() {{}}\n").as_bytes());
    }
    let bounded = UpdateLimits { max_files: Some(10_000), budget_ms: Some(30_000) };
    match update(&mut repo, &names, &bounded) {
        UpdateStep::Done(UpdateOutcome::OverlayFull { files_behind, .. }) => {
            assert!(files_behind > 0, "the untracked files are behind");
        }
        other => panic!("bounded update must return OverlayFull, got {other:?}"),
    }
    assert!(
        repo.search("marker_0000").is_empty(),
        "bounded OverlayFull must not have applied changes"
    );
    match update(&mut repo, &names, &UNBOUNDED) {
        UpdateStep::Rebuild(UpdateOutcome::Updated { .. }) => repo.rebuild(),
        other => panic!("unbounded update must rebuild and Update, got {other:?}"),
    }
    assert!(
        repo.search("marker_0000").contains(&b"added_0000.rs".to_vec()),
        "unbounded rebuild must include the new content"
    );
}

#[test]
fn search_fresh_no_git_changes_returns_no_changes_and_stale_results() {
    let files = one("main.rs", "fn stale_marker() {}\n");
    let mut repo = Repo::build(&files, config(10, LARGE), LARGE);
    let outcome = match update(&mut repo, &[], &UNBOUNDED) {
        UpdateStep::Done(outcome) => fresh_outcome(Ok(outcome)),
        other => panic!("expected no rebuild, got {other:?}"),
    };
    assert!(
        matches!(outcome, UpdateOutcome::NoChanges { .. }),
        "expected NoChanges with no git activity since build, got {outcome:?}"
    );
    assert_eq!(
        repo.search("stale_marker").len(),
        1,
        "the already-indexed content must still be found"
    );
}

#[test]
fn search_fresh_picks_up_changed_file_and_returns_updated_outcome() {
    let mut files = named(4, ".git/hooks/hook_#.sample", "exit #\n");
    files.extend(one("main.rs", "fn old_marker() {}\n"));
    let mut repo = Repo::build(&files, config(10, LARGE), LARGE);
    assert_eq!(
        repo.search("new_marker").len(),
        0,
        "premise check: new_marker must be absent before the file is changed"
    );
    repo.write("main.rs", b"fn new_marker() {}\n");
    let outcome = match update(&mut repo, &["main.rs".to_string()], &UNBOUNDED) {
        UpdateStep::Done(outcome) => fresh_outcome(Ok(outcome)),
        other => panic!("expected no rebuild, got {other:?}"),
    };
    match outcome {
        UpdateOutcome::Updated { files, .. } => {
            assert_eq!(files, 1, "exactly the one changed file must be applied");
        }
        other => panic!("expected Updated, got {other:?}"),
    }
    assert_eq!(
        repo.search("new_marker").len(),
        1,
        "search_fresh must match the new content after the bounded update"
    );
    assert!(repo.search("old_marker").is_empty());
}

fn post_file(repo: &mut Repo) -> &mut Vec<u8> {
    repo.disk.get_mut(&repo.manifest.segments[0].post_filename).expect("a .post file")
}

#[test]
fn open_rejects_truncated_post_file() {
    let mut files = one("a.rs", "fn alpha_one() {}\n");
    files.extend(one("b.rs", "fn beta_two() {}\n"));
    let mut repo = Repo::build(&files, config(10, LARGE), LARGE);
    post_file(&mut repo).pop();
    let result = try_open(&repo.disk, &repo.manifest, &Config::default());
    assert!(result.is_err(), "open must reject a truncated .post file");
}

#[test]
fn structural_default_open_survives_postings_corruption_and_full_verify_detects_it() {
    let files = named(10, "file_#.rs", "fn corrupt_probe_#() { let value = #; }\n");
    let mut repo = Repo::build(&files, config(10, LARGE), LARGE);
    let post = post_file(&mut repo);
    let mid = post.len() / 2;
    post[mid] ^= 0xFF;
    let sealed = repo.manifest.seal(b"{}");
    let snapshot = open(&repo.disk, &sealed);
    repo.index.install_rebuilt_index(snapshot);
    assert!(
        matches!(
            repo.index.verify(&sealed, &None),
            Err(IndexError::CorruptIndex(Corruption::PostChecksumMismatch))
        ),
        "Index::verify must detect the flipped postings byte"
    );
    let strict = Config { verify_on_open: true, ..Config::default() };
    let result = try_open(&repo.disk, &sealed, &strict);
    assert!(result.is_err(), "verify_on_open must reject a corrupted .post file");
}

#[test]
fn a_flush_closes_the_gap_that_a_second_edit_left() {
    let mut repo = Repo::build(&[], config(10, LARGE), LARGE);
    for name in ["a.rs", "b.rs"] {
        repo.write(name, b"fn first_text() {}\n");
        repo.notify_change(name);
    }
    repo.commit_batch();
    repo.write("b.rs", b"fn second_text() {}\n");
    repo.notify_change("b.rs");
    repo.commit_batch();
    assert_eq!(repo.overlay_ids(), vec![0, 2]);
    repo.flush();
    let snapshot = repo.index.snapshot();
    assert!(snapshot.overlay.docs.is_empty());
    assert_eq!(snapshot.all_doc_ids().iter().collect::<Vec<u32>>(), vec![0, 1]);
    assert_eq!(repo.search("first_text"), vec![b"a.rs".to_vec()]);
    assert_eq!(repo.search("second_text"), vec![b"b.rs".to_vec()]);
    assert_eq!(snapshot.path_index.file_id(b"b.rs"), Some(1));
}

#[test]
fn a_flush_closes_the_gap_that_a_deletion_left() {
    let files = named(6, "base_#.rs", "fn base_#() {}\n");
    let mut repo = Repo::build(&files, config(10, LARGE), LARGE);
    for i in 0..3 {
        let name = format!("new_{i}.rs");
        repo.write(&name, format!("fn fresh_{i}() {{}}\n").as_bytes());
        repo.notify_change(&name);
    }
    repo.commit_batch();
    repo.tree.remove(&b"new_1.rs"[..]);
    repo.notify_delete("new_1.rs");
    repo.commit_batch();
    assert_eq!(repo.overlay_ids(), vec![6, 8]);
    repo.flush();
    assert_eq!(repo.manifest.segments.last().unwrap().base_doc_id, Some(6));
    let snapshot = repo.index.snapshot();
    assert_eq!(snapshot.all_doc_ids().iter().collect::<Vec<u32>>(), (0..8).collect::<Vec<u32>>());
    assert_eq!(repo.search("fresh_0"), vec![b"new_0.rs".to_vec()]);
    assert!(repo.search("fresh_1").is_empty());
    assert_eq!(repo.search("fresh_2"), vec![b"new_2.rs".to_vec()]);

    // The first of two is edited again: the gap is then before the segment.
    for name in ["new_3.rs", "new_4.rs", "new_3.rs"] {
        repo.write(name, b"fn third_round() {}\n");
        repo.notify_change(name);
        repo.commit_batch();
    }
    assert_eq!(repo.overlay_ids(), vec![9, 10]);
    repo.flush();
    assert_eq!(repo.manifest.segments.last().unwrap().base_doc_id, Some(9));
    assert_eq!(repo.search("third_round"), vec![b"new_4.rs".to_vec(), b"new_3.rs".to_vec()]);
}

#[test]
fn a_flush_lists_the_live_paths() {
    let files = named(4, "base_#.rs", "fn base_#() {}\n");
    let mut repo = Repo::build(&files, config(10, LARGE), LARGE);
    repo.write("a.rs", b"fn alpha() {}\n");
    repo.notify_change("a.rs");
    repo.notify_delete("base_1.rs");
    repo.commit_batch();
    repo.flush();
    let listed = paths_idx::read_paths_idx(&repo.disk[&b"paths.idx"[..]]).expect("decodes");
    let expected: Vec<Vec<u8>> = ["a.rs", "base_0.rs", "base_2.rs", "base_3.rs"]
        .iter()
        .map(|p| p.as_bytes().to_vec())
        .collect();
    assert_eq!(listed.paths, expected);
    let ids: Vec<Option<u32>> =
        expected.iter().map(|p| repo.index.snapshot().path_index.file_id(p)).collect();
    assert_eq!(ids, vec![Some(0), Some(1), Some(2), Some(3)]);
    assert_eq!(repo.index.snapshot().path_index.file_id(b"base_1.rs"), None);
    assert!(repo.compact());
    let again = paths_idx::read_paths_idx(&repo.disk[&b"paths.idx"[..]]).expect("decodes");
    assert_eq!(again.paths, expected);
}

#[test]
fn commit_batch_bad_file_does_not_wedge_good_files() {
    let files = named(10, "base_#.rs", "fn base_#() {}\n");
    let mut repo = Repo::build(&files, config(10, 100), LARGE);
    for name in ["a.rs", "b.rs", "c.rs"] {
        repo.write(name, b"fn x() {}\n");
        repo.notify_change(name);
    }
    repo.write("huge.rs", "X".repeat(200).as_bytes());
    repo.notify_change("huge.rs");
    repo.commit_batch();
    let overlay_paths = repo.overlay_paths();
    for name in ["a.rs", "b.rs", "c.rs"] {
        assert!(overlay_paths.contains(&name.as_bytes().to_vec()), "good file {name} must be indexed");
    }
    assert!(!overlay_paths.contains(&b"huge.rs".to_vec()), "oversized file must be excluded");
    let stats = repo.index.stats(&None, None, &Vec::new());
    assert_eq!(stats.pending_edits, 0, "nothing requeued");
}

#[test]
fn maintenance_apis_are_noops_when_no_work_is_needed() {
    let files = named(1, "main.rs", "fn main() {}\n");
    let mut repo = Repo::build(&files, config(10, LARGE), LARGE);
    assert!(!repo.maybe_compact());
    assert!(!repo.compact());
    assert!(!is_stale(&repo.manifest, &None));
}

#[test]
fn compact_reduces_segment_count_to_config_limit() {
    let files = named(6, "file_#.rs", "fn marker_#() { println!(\"#\"); }\n");
    let mut repo = Repo::build(&files, config(2, LARGE), 1);
    let stats = repo.index.stats(&None, None, &Vec::new());
    assert!(stats.total_segments > 2, "test fixture must start fragmented");
    repo.compact();
    let stats = repo.index.stats(&None, None, &Vec::new());
    assert!(
        stats.total_segments <= 2,
        "compact() must reduce segment count to config.max_segments, got {}",
        stats.total_segments
    );
    assert!(
        repo.search("marker_5").contains(&b"file_5.rs".to_vec()),
        "search results must survive compaction"
    );
    assert_eq!(repo.index.snapshot().overlay.docs.len(), 0);
}

#[test]
fn compact_preserves_untouched_prefix_segments_in_manifest() {
    let files = named(4, "file_#.rs", "fn marker_#() { println!(\"#\"); }\n");
    let mut repo = Repo::build(&files, config(3, LARGE), 1);
    let before: Vec<Vec<u8>> =
        repo.manifest.segments.iter().map(|s| s.segment_id.clone()).collect();
    assert_eq!(before.len(), 4, "fixture must begin with four segments");
    repo.compact();
    let after: Vec<Vec<u8>> =
        repo.manifest.segments.iter().map(|s| s.segment_id.clone()).collect();
    assert_eq!(after.len(), 3, "selective compaction should rewrite only the suffix");
    assert_eq!(after[0], before[0]);
    assert_eq!(after[1], before[1]);
    assert_ne!(after[2], before[2]);
}

#[test]
fn maybe_compact_rebuilds_when_overlay_ratio_exceeds_threshold() {
    let files = named(10, "base_#.rs", "fn base_#() {}\n");
    let mut repo = Repo::build(&files, config(10, LARGE), LARGE);
    for i in 0..4 {
        let name = format!("base_{i}.rs");
        repo.write(&name, format!("fn updated_{i}() {{}}\n").as_bytes());
        repo.notify_change(&name);
    }
    repo.commit_batch();
    assert_eq!(repo.index.snapshot().overlay.docs.len(), 4);
    assert!(repo.maybe_compact(), "overlay ratio > 10% should compact");
    assert_eq!(
        repo.index.snapshot().overlay.docs.len(),
        0,
        "compaction must fold overlay docs back into the base index"
    );
    assert!(
        repo.search("updated_1").contains(&b"base_1.rs".to_vec()),
        "compaction must preserve the updated working tree content"
    );
}

#[test]
fn compact_preserves_base_snapshot_when_working_tree_drifts() {
    let files = vec![("tracked.rs".to_string(), "fn alpha() {}\n".to_string())];
    let mut repo = Repo::build(&files, config(10, LARGE), LARGE);
    let alpha_hash = xxhash_rust::xxh64::xxh64(b"fn alpha() {}\n", 0);
    let beta_hash = xxhash_rust::xxh64::xxh64(b"fn beta() {}\n", 0);
    assert_eq!(repo.base_doc_hash("tracked.rs"), Some(alpha_hash));
    repo.write("tracked.rs", b"fn beta() {}\n");
    repo.compact();
    assert_eq!(
        repo.base_doc_hash("tracked.rs"),
        Some(alpha_hash),
        "compact() must preserve the indexed base snapshot"
    );
    assert!(
        repo.base_doc_hash("tracked.rs") != Some(beta_hash),
        "compact() must not absorb uncommitted working tree edits into base metadata"
    );
}

#[test]
fn compact_folds_overlay_snapshot_without_rereading_disk() {
    let files = named(10, "tracked_#.rs", "fn alpha_#() {}\n");
    let mut repo = Repo::build(&files, config(10, LARGE), LARGE);
    let bravo_hash = xxhash_rust::xxh64::xxh64(b"fn bravo() {}\n", 0);
    repo.write("tracked_0.rs", b"fn bravo() {}\n");
    repo.notify_change("tracked_0.rs");
    repo.commit_batch();
    repo.write("tracked_0.rs", b"fn charlie() {}\n");
    assert!(repo.compact());
    assert_eq!(
        repo.base_doc_hash("tracked_0.rs"),
        Some(bravo_hash),
        "compact() must fold the committed overlay snapshot into base segments"
    );
    assert_eq!(repo.index.snapshot().overlay.docs.len(), 0);
}
