//! Which of the files in a repository get indexed, and in which batches.
//!
//! The directory tree is walked outside; here it is decided what each entry
//! means.

use crate::config::Config;
use crate::order;
use crate::order::Relation;
use crate::path_resolve;
use crate::paths;
use crate::paths::PathSet;
use std::cmp::Ordering;
use vstd::prelude::*;

verus! {

/// A file to index: the path to read it from, its path in the repository, and
/// its size.
pub type FileRecord = (Vec<u8>, Vec<u8>, u64);

/// A file to index, as values.
#[verifier::ext_equal]
pub struct RecordView {
    pub read_path: Seq<u8>,
    pub rel: Seq<u8>,
    pub size: u64,
}

pub open spec fn record_view(r: FileRecord) -> RecordView {
    RecordView { read_path: r.0@, rel: r.1@, size: r.2 }
}

pub open spec fn record_views(s: Seq<FileRecord>) -> Seq<RecordView> {
    Seq::new(s.len(), |i: int| record_view(s[i]))
}

/// What kind of checkout a directory is.
#[derive(Debug, Clone, Copy, PartialEq, Eq, Structural)]
pub enum CheckoutKind {
    /// It points to a git directory elsewhere.
    Linked,
    /// It has a git directory of its own.
    NestedClone,
}

/// The `.git` entry in a directory.
#[derive(Debug, Clone, Copy, PartialEq, Eq, Structural)]
pub enum GitMark {
    Absent,
    File,
    Directory,
}

/// What a symlink leads to.
#[derive(Debug)]
pub enum LinkSight {
    /// The link or its target could not be looked at.
    Broken,
    /// The target is a symlink itself.
    Chain,
    /// The target resolves to this path, at which there is a file of this size
    /// (absent where the size could not be read), a symlink, or something else.
    Target { canonical: Vec<u8>, kind: TargetKind, size: Option<u64> },
}

/// What stands at a resolved path.
#[derive(Debug, Clone, Copy, PartialEq, Eq, Structural)]
pub enum TargetKind {
    File,
    Symlink,
    Other,
}

/// What an entry of the tree is.
#[derive(Debug)]
pub enum WalkKind {
    /// A file: what it resolves to, and its size, as far as they could be read.
    File { canonical: Option<Vec<u8>>, size: Option<u64> },
    /// A directory.
    Directory { git: GitMark },
    /// A symlink.
    Symlink(LinkSight),
    /// Neither.
    Other,
}

/// An entry of the tree.
#[derive(Debug)]
pub struct WalkEntry {
    pub path: Vec<u8>,
    pub kind: WalkKind,
}

/// What a walk left out and reports.
#[derive(Debug)]
pub struct WalkSkips {
    /// Files above the size limit.
    pub too_large: usize,
    /// Checkouts of other repositories, with all that is in them.
    pub nested_checkouts: Vec<(Vec<u8>, CheckoutKind)>,
}

impl Default for WalkSkips {
    fn default() -> (s: Self)
        ensures
            s.too_large == 0,
            s.nested_checkouts@ == Seq::<(Vec<u8>, CheckoutKind)>::empty(),
    {
        WalkSkips { too_large: 0, nested_checkouts: Vec::new() }
    }
}

/// Nested checkouts as values.
pub open spec fn checkout_views(s: Seq<(Vec<u8>, CheckoutKind)>) -> Seq<
    (Seq<u8>, CheckoutKind),
> {
    Seq::new(s.len(), |i: int| (s[i].0@, s[i].1))
}

/// The kind of checkout that a `.git` entry makes of its directory.
pub open spec fn kind_of_mark(git: GitMark) -> Option<CheckoutKind> {
    match git {
        GitMark::Absent => None,
        GitMark::File => Some(CheckoutKind::Linked),
        GitMark::Directory => Some(CheckoutKind::NestedClone),
    }
}

/// The path of an entry in the repository.
pub open spec fn rel_of(path: Seq<u8>, repo_root: Seq<u8>) -> Option<Seq<u8>> {
    match path_resolve::stripped(path, repo_root) {
        Some(cs) => Some(path_resolve::joined(cs)),
        None => None,
    }
}

/// The path of an entry in the repository.
fn relative(path: &[u8], repo_root: &[u8]) -> (r: Option<Vec<u8>>)
    ensures
        match r {
            Some(v) => rel_of(path@, repo_root@) == Some(v@),
            None => rel_of(path@, repo_root@) is None,
        },
{
    match path_resolve::strip_prefix(path, repo_root) {
        Some(cs) => Some(path_resolve::join_components(&cs)),
        None => None,
    }
}

/// The walk so far.
#[verifier::ext_equal]
pub struct WalkView {
    /// What the files found resolve to.
    pub seen: Set<Seq<u8>>,
    /// The files to index.
    pub files: Seq<RecordView>,
    /// Files above the size limit.
    pub too_large: nat,
}

/// The walk with one more file, unless its size is unknown or too large or it
/// lies outside of the repository.
pub open spec fn with_record(
    w: WalkView,
    read_path: Seq<u8>,
    display_path: Seq<u8>,
    size: Option<u64>,
    repo_root: Seq<u8>,
    max_file_size: u64,
) -> WalkView {
    match size {
        None => w,
        Some(size) => if size > max_file_size {
            WalkView { too_large: w.too_large + 1, ..w }
        } else {
            match rel_of(display_path, repo_root) {
                None => w,
                Some(rel) => WalkView { files: w.files.push(RecordView { read_path, rel, size }), ..w },
            }
        },
    }
}

/// The walk after a file.
pub open spec fn with_file(
    w: WalkView,
    path: Seq<u8>,
    canonical: Option<Vec<u8>>,
    size: Option<u64>,
    repo_root: Seq<u8>,
    max_file_size: u64,
) -> WalkView {
    let seen = match canonical {
        Some(c) => w.seen.insert(path_resolve::normal(c@)),
        None => w.seen,
    };
    with_record(WalkView { seen, ..w }, path, path, size, repo_root, max_file_size)
}

/// The walk after a symlink: the file it leads to, under the name of the link,
/// if it lies in the repository and was not found before.
pub open spec fn with_link(
    w: WalkView,
    path: Seq<u8>,
    link: LinkSight,
    repo_root: Seq<u8>,
    canonical_root: Seq<u8>,
    max_file_size: u64,
) -> WalkView {
    match link {
        LinkSight::Target { canonical, kind, size } => if path_resolve::stripped(
            canonical@,
            canonical_root,
        ) is None || !(kind is File) || w.seen.contains(path_resolve::normal(canonical@)) {
            w
        } else {
            with_record(
                WalkView { seen: w.seen.insert(path_resolve::normal(canonical@)), ..w },
                canonical@,
                path,
                size,
                repo_root,
                max_file_size,
            )
        },
        _ => w,
    }
}

/// The walk so far.
struct Walk {
    seen: PathSet,
    files: Vec<FileRecord>,
    too_large: usize,
}

impl View for Walk {
    type V = WalkView;

    closed spec fn view(&self) -> WalkView {
        WalkView {
            seen: self.seen@,
            files: record_views(self.files@),
            too_large: self.too_large as nat,
        }
    }
}

/// Adds one file to the walk.
fn push_file_record(
    w: &mut Walk,
    read_path: &[u8],
    display_path: &[u8],
    size: Option<u64>,
    repo_root: &[u8],
    max_file_size: u64,
)
    requires
        old(w).seen.wf(),
        old(w).too_large < usize::MAX,
    ensures
        final(w).seen.wf(),
        final(w)@ == with_record(
            old(w)@,
            read_path@,
            display_path@,
            size,
            repo_root@,
            max_file_size,
        ),
{
    let ghost before = record_views(w.files@);
    match size {
        None => {},
        Some(size) => {
            if size > max_file_size {
                w.too_large = w.too_large + 1;
            } else {
                match relative(display_path, repo_root) {
                    None => {},
                    Some(rel) => {
                        let record = (crate::le::bytes_clone(read_path), rel, size);
                        let ghost rv = record_view(record);
                        w.files.push(record);
                        assert(record_views(w.files@) =~= before.push(rv));
                    },
                }
            }
        },
    }
}

/// Adds a symlink to the walk.
fn collect_symlink_entry(
    w: &mut Walk,
    path: &[u8],
    link: &LinkSight,
    repo_root: &[u8],
    canonical_root: &[u8],
    max_file_size: u64,
)
    requires
        old(w).seen.wf(),
        old(w).too_large < usize::MAX,
    ensures
        final(w).seen.wf(),
        final(w)@ == with_link(
            old(w)@,
            path@,
            *link,
            repo_root@,
            canonical_root@,
            max_file_size,
        ),
{
    match link {
        LinkSight::Target { canonical, kind, size } => {
            if path_resolve::strip_prefix(canonical.as_slice(), canonical_root).is_none() {
                return;
            }
            match kind {
                TargetKind::File => {},
                _ => {
                    return;
                },
            }
            if w.seen.contains(canonical.as_slice()) {
                return;
            }
            w.seen.insert(canonical.as_slice());
            push_file_record(w, canonical.as_slice(), path, *size, repo_root, max_file_size);
        },
        _ => {},
    }
}

/// A path of the repository lies in one of the directories.
pub open spec fn beneath(rel: Seq<u8>, dirs: Seq<(Seq<u8>, CheckoutKind)>) -> bool {
    exists|k: int|
        0 <= k < dirs.len() && path_resolve::stripped(rel, (#[trigger] dirs[k]).0) is Some
}

fn is_beneath(rel: &[u8], dirs: &Vec<(Vec<u8>, CheckoutKind)>) -> (r: bool)
    ensures
        r == beneath(rel@, checkout_views(dirs@)),
{
    let ghost dv = checkout_views(dirs@);
    let mut i: usize = 0;
    while i < dirs.len()
        invariant
            dv == checkout_views(dirs@),
            dv.len() == dirs@.len(),
            i <= dirs@.len(),
            forall|k: int|
                0 <= k < i ==> path_resolve::stripped(rel@, (#[trigger] dv[k]).0) is None,
        decreases dirs@.len() - i,
    {
        assert(dv[i as int].0 == dirs@[i as int].0@);
        if path_resolve::strip_prefix(rel, dirs[i].0.as_slice()).is_some() {
            return true;
        }
        i = i + 1;
    }
    false
}

/// The directory of an entry, if it is a checkout inside the repository.
pub open spec fn checkout_at(e: WalkEntry, repo_root: Seq<u8>) -> Option<
    (Seq<u8>, CheckoutKind),
> {
    match e.kind {
        WalkKind::Directory { git } => match (kind_of_mark(git), rel_of(e.path@, repo_root)) {
            (Some(kind), Some(rel)) => if rel.len() > 0 {
                Some((rel, kind))
            } else {
                None
            },
            _ => None,
        },
        _ => None,
    }
}

/// The nested checkouts among the first `n` entries, where they are left out.
pub open spec fn nested(
    entries: Seq<WalkEntry>,
    n: nat,
    repo_root: Seq<u8>,
    wanted: bool,
) -> Seq<(Seq<u8>, CheckoutKind)>
    decreases n,
{
    if n == 0 || wanted {
        Seq::empty()
    } else {
        let rest = nested(entries, (n - 1) as nat, repo_root, wanted);
        match checkout_at(entries[n - 1], repo_root) {
            Some(c) => if beneath(c.0, rest) {
                rest
            } else {
                rest.push(c)
            },
            None => rest,
        }
    }
}

fn nested_checkouts(entries: &Vec<WalkEntry>, repo_root: &[u8], wanted: bool) -> (r: Vec<
    (Vec<u8>, CheckoutKind),
>)
    ensures
        checkout_views(r@) == nested(entries@, entries@.len(), repo_root@, wanted),
{
    let mut r: Vec<(Vec<u8>, CheckoutKind)> = Vec::new();
    assert(checkout_views(r@) =~= nested(entries@, 0, repo_root@, wanted));
    if wanted {
        return r;
    }
    let mut i: usize = 0;
    while i < entries.len()
        invariant
            !wanted,
            i <= entries@.len(),
            checkout_views(r@) == nested(entries@, i as nat, repo_root@, wanted),
        decreases entries@.len() - i,
    {
        let e = &entries[i];
        let ghost before = checkout_views(r@);
        if let WalkKind::Directory { git } = &e.kind {
            let kind: Option<CheckoutKind> = match *git {
                GitMark::Absent => None,
                GitMark::File => Some(CheckoutKind::Linked),
                GitMark::Directory => Some(CheckoutKind::NestedClone),
            };
            if let Some(kind) = kind {
                if let Some(rel) = relative(e.path.as_slice(), repo_root) {
                    if rel.len() > 0 && !is_beneath(rel.as_slice(), &r) {
                        let ghost c = (rel@, kind);
                        r.push((rel, kind));
                        assert(checkout_views(r@) =~= before.push(c));
                    }
                }
            }
        }
        i = i + 1;
    }
    r
}

/// What a walk goes by.
pub struct WalkRules {
    pub repo_root: Seq<u8>,
    pub canonical_root: Seq<u8>,
    pub max_file_size: u64,
    /// Directories that are left out.
    pub pruned: Seq<(Seq<u8>, CheckoutKind)>,
}

/// An entry that is left out with its directory.
pub open spec fn hidden(e: WalkEntry, rules: WalkRules) -> bool {
    rel_of(e.path@, rules.repo_root) matches Some(rel) && beneath(rel, rules.pruned)
}

/// The walk after the files among the first `n` entries.
pub open spec fn files_pass(entries: Seq<WalkEntry>, n: nat, rules: WalkRules) -> WalkView
    decreases n,
{
    if n == 0 {
        WalkView { seen: Set::empty(), files: Seq::empty(), too_large: 0 }
    } else {
        let w = files_pass(entries, (n - 1) as nat, rules);
        let e = entries[n - 1];
        if hidden(e, rules) {
            w
        } else {
            match e.kind {
                WalkKind::File { canonical, size } => with_file(
                    w,
                    e.path@,
                    canonical,
                    size,
                    rules.repo_root,
                    rules.max_file_size,
                ),
                _ => w,
            }
        }
    }
}

/// The walk after all files and the symlinks among the first `n` entries.
pub open spec fn links_pass(entries: Seq<WalkEntry>, n: nat, rules: WalkRules) -> WalkView
    decreases n,
{
    if n == 0 {
        files_pass(entries, entries.len(), rules)
    } else {
        let w = links_pass(entries, (n - 1) as nat, rules);
        let e = entries[n - 1];
        if hidden(e, rules) {
            w
        } else {
            match e.kind {
                WalkKind::Symlink(link) => with_link(
                    w,
                    e.path@,
                    link,
                    rules.repo_root,
                    rules.canonical_root,
                    rules.max_file_size,
                ),
                _ => w,
            }
        }
    }
}

/// The files among the first `n` entries.
spec fn count_files(entries: Seq<WalkEntry>, n: nat) -> nat
    decreases n,
{
    if n == 0 {
        0
    } else {
        count_files(entries, (n - 1) as nat) + (if entries[n - 1].kind is File {
            1nat
        } else {
            0
        })
    }
}

/// The symlinks among the first `n` entries.
spec fn count_links(entries: Seq<WalkEntry>, n: nat) -> nat
    decreases n,
{
    if n == 0 {
        0
    } else {
        count_links(entries, (n - 1) as nat) + (if entries[n - 1].kind is Symlink {
            1nat
        } else {
            0
        })
    }
}

proof fn lemma_counts(entries: Seq<WalkEntry>, n: nat, m: nat)
    requires
        n <= m,
    ensures
        count_files(entries, m) + count_links(entries, m) <= m,
        count_links(entries, n) <= count_links(entries, m),
    decreases m,
{
    if m > 0 {
        lemma_counts(
            entries,
            if n < m {
                n
            } else {
                (m - 1) as nat
            },
            (m - 1) as nat,
        );
    }
}

/// Records in the order of their paths in the repository.
pub open spec fn rel_sorted(s: Seq<RecordView>) -> bool {
    forall|i: int, j: int|
        0 <= i < j < s.len() ==> !paths::comes_before(#[trigger] s[j].rel, #[trigger] s[i].rel)
}

/// Compares two records by their paths in the repository.
fn order_by_rel(a: &FileRecord, b: &FileRecord) -> (r: Ordering)
    ensures
        r == Ordering::Less <==> paths::comes_before(a.1@, b.1@),
        r == Ordering::Equal <==> path_resolve::components(a.1@) == path_resolve::components(b.1@),
        r == Ordering::Greater <==> paths::comes_before(b.1@, a.1@),
{
    proof {
        paths::lemma_comes_before(a.1@, b.1@);
        paths::lemma_comes_before(b.1@, a.1@);
    }
    match paths::relate_paths(a.1.as_slice(), b.1.as_slice()) {
        Relation::Before => Ordering::Less,
        Relation::Same => Ordering::Equal,
        Relation::After => Ordering::Greater,
    }
}

/// `<[T]>::sort_unstable_by` with the order of the paths in the repository: the
/// same records, in that order.
#[verifier::external_body]
fn sort_by_rel(v: &mut Vec<FileRecord>)
    ensures
        order::rearranged(old(v)@, final(v)@),
        rel_sorted(record_views(final(v)@)),
{
    v.sort_unstable_by(|a, b| order_by_rel(a, b))
}

/// Sorts records by their paths in the repository.
pub(crate) fn sort_records(v: &mut Vec<FileRecord>)
    ensures
        order::rearranged(record_views(old(v)@), record_views(final(v)@)),
        rel_sorted(record_views(final(v)@)),
{
    let ghost a = v@;
    sort_by_rel(v);
    proof {
        let b = v@;
        let p = choose|p: Seq<int>| order::arranged(a, b, p);
        assert forall|i: int| 0 <= i < b.len() implies #[trigger] record_views(b)[i]
            == record_views(a)[p[i]] by {
            assert(b[i] == a[p[i]]);
        }
        assert(order::arranged(record_views(a), record_views(b), p));
    }
}

/// What a walk of the tree goes by.
pub open spec fn rules_of(
    config: Config,
    canonical_root: Seq<u8>,
    entries: Seq<WalkEntry>,
) -> WalkRules {
    WalkRules {
        repo_root: config.repo_root@,
        canonical_root,
        max_file_size: config.max_file_size,
        pruned: nested(
            entries,
            entries.len(),
            config.repo_root@,
            config.index_nested_checkouts,
        ),
    }
}

fn is_hidden(e: &WalkEntry, repo_root: &[u8], pruned: &Vec<(Vec<u8>, CheckoutKind)>) -> (r: bool)
    ensures
        r == (rel_of(e.path@, repo_root@) matches Some(rel) && beneath(
            rel,
            checkout_views(pruned@),
        )),
{
    match relative(e.path.as_slice(), repo_root) {
        Some(rel) => is_beneath(rel.as_slice(), pruned),
        None => false,
    }
}

/// What a walk of the tree gives.
pub open spec fn is_walk(
    config: Config,
    canonical_root: Seq<u8>,
    entries: Seq<WalkEntry>,
    r: (Vec<FileRecord>, WalkSkips),
) -> bool {
    let rules = rules_of(config, canonical_root, entries);
    let w = links_pass(entries, entries.len(), rules);
    &&& order::rearranged(w.files, record_views(r.0@))
    &&& rel_sorted(record_views(r.0@))
    &&& r.1.too_large == w.too_large
    &&& checkout_views(r.1.nested_checkouts@) == rules.pruned
}

/// The files of a repository that get indexed, in the order of their paths, and
/// what was left out. Symlinks come after all files, so that a file always wins
/// over a symlink to it.
pub fn enumerate_files(config: &Config, canonical_root: &[u8], entries: &Vec<WalkEntry>) -> (r: (
    Vec<FileRecord>,
    WalkSkips,
))
    ensures
        is_walk(*config, canonical_root@, entries@, r),
{
    let ghost rules = rules_of(*config, canonical_root@, entries@);
    let ghost es = entries@;
    let root: &[u8] = config.repo_root.as_slice();
    let pruned = nested_checkouts(entries, root, config.index_nested_checkouts);
    let mut w = Walk { seen: PathSet::new(), files: Vec::new(), too_large: 0 };
    let mut i: usize = 0;
    assert(w@ =~= files_pass(es, 0, rules));
    while i < entries.len()
        invariant
            es == entries@,
            root@ == rules.repo_root,
            config.max_file_size == rules.max_file_size,
            checkout_views(pruned@) == rules.pruned,
            i <= es.len(),
            w.seen.wf(),
            w@ == files_pass(es, i as nat, rules),
            w.too_large <= count_files(es, i as nat),
        decreases es.len() - i,
    {
        let e = &entries[i];
        proof {
            lemma_counts(es, i as nat, i as nat);
        }
        if !is_hidden(e, root, &pruned) {
            if let WalkKind::File { canonical, size } = &e.kind {
                if let Some(c) = canonical {
                    w.seen.insert(c.as_slice());
                }
                push_file_record(
                    &mut w,
                    e.path.as_slice(),
                    e.path.as_slice(),
                    *size,
                    root,
                    config.max_file_size,
                );
            }
        }
        i = i + 1;
    }
    i = 0;
    while i < entries.len()
        invariant
            es == entries@,
            root@ == rules.repo_root,
            canonical_root@ == rules.canonical_root,
            config.max_file_size == rules.max_file_size,
            checkout_views(pruned@) == rules.pruned,
            i <= es.len(),
            w.seen.wf(),
            w@ == links_pass(es, i as nat, rules),
            w.too_large <= count_files(es, es.len()) + count_links(es, i as nat),
        decreases es.len() - i,
    {
        let e = &entries[i];
        proof {
            lemma_counts(es, i as nat + 1, es.len());
        }
        if !is_hidden(e, root, &pruned) {
            if let WalkKind::Symlink(link) = &e.kind {
                collect_symlink_entry(
                    &mut w,
                    e.path.as_slice(),
                    link,
                    root,
                    canonical_root,
                    config.max_file_size,
                );
            }
        }
        i = i + 1;
    }
    let mut files = w.files;
    sort_records(&mut files);
    (files, WalkSkips { too_large: w.too_large, nested_checkouts: pruned })
}

/// Batches as they are filled.
#[verifier::ext_equal]
pub struct Batching {
    pub done: Seq<Seq<RecordView>>,
    pub current: Seq<RecordView>,
    /// The size of the current batch, in which no file counts for more than the
    /// limit.
    pub used: nat,
}

/// A size that counts for no more than the limit.
pub open spec fn capped(size: u64, limit: u64) -> nat {
    if size < limit {
        size as nat
    } else {
        limit as nat
    }
}

/// The batches after one more file: it starts a new one where the current one
/// would grow over the limit.
pub open spec fn batched_with(b: Batching, r: RecordView, limit: u64) -> Batching {
    if b.current.len() > 0 && b.used + r.size > limit {
        Batching {
            done: b.done.push(b.current),
            current: seq![r],
            used: capped(r.size, limit),
        }
    } else {
        Batching { current: b.current.push(r), used: b.used + capped(r.size, limit), ..b }
    }
}

/// The batches after the first `n` files.
pub open spec fn batching(files: Seq<RecordView>, n: nat, limit: u64) -> Batching
    decreases n,
{
    if n == 0 {
        Batching { done: Seq::empty(), current: Seq::empty(), used: 0 }
    } else {
        batched_with(batching(files, (n - 1) as nat, limit), files[n - 1], limit)
    }
}

/// The batches, with the last one.
pub open spec fn closed_batches(b: Batching) -> Seq<Seq<RecordView>> {
    if b.current.len() > 0 {
        b.done.push(b.current)
    } else {
        b.done
    }
}

/// The batches of files, in order.
pub open spec fn batches_of(files: Seq<RecordView>, limit: u64) -> Seq<Seq<RecordView>> {
    closed_batches(batching(files, files.len(), limit))
}

/// Lists of records as values.
pub open spec fn batch_views(s: Seq<Vec<FileRecord>>) -> Seq<Seq<RecordView>> {
    Seq::new(s.len(), |i: int| record_views(s[i]@))
}

fn copy_record(r: &FileRecord) -> (c: FileRecord)
    ensures
        record_view(c) == record_view(*r),
{
    (crate::le::bytes_clone(r.0.as_slice()), crate::le::bytes_clone(r.1.as_slice()), r.2)
}

proof fn lemma_used(files: Seq<RecordView>, n: nat, limit: u64)
    ensures
        batching(files, n, limit).used <= limit,
        batching(files, n, limit).current.len() == 0 ==> batching(files, n, limit).used == 0,
    decreases n,
{
    if n > 0 {
        lemma_used(files, (n - 1) as nat, limit);
    }
}

/// Splits files into batches of about `batch_limit` bytes, in order. A file above
/// the limit counts as one that just fills a batch.
pub fn split_batches(files: &[FileRecord], batch_limit: u64) -> (r: Vec<Vec<FileRecord>>)
    ensures
        batch_views(r@) == batches_of(record_views(files@), batch_limit),
{
    let ghost fs = record_views(files@);
    let mut done: Vec<Vec<FileRecord>> = Vec::new();
    let mut current: Vec<FileRecord> = Vec::new();
    let mut used: u64 = 0;
    let mut i: usize = 0;
    proof {
        assert(batch_views(done@) =~= batching(fs, 0, batch_limit).done);
        assert(record_views(current@) =~= batching(fs, 0, batch_limit).current);
    }
    while i < files.len()
        invariant
            fs == record_views(files@),
            fs.len() == files@.len(),
            i <= fs.len(),
            batch_views(done@) == batching(fs, i as nat, batch_limit).done,
            record_views(current@) == batching(fs, i as nat, batch_limit).current,
            used == batching(fs, i as nat, batch_limit).used,
        decreases fs.len() - i,
    {
        let size: u64 = files[i].2;
        let ghost b = batching(fs, i as nat, batch_limit);
        proof {
            lemma_used(fs, i as nat, batch_limit);
            lemma_used(fs, i as nat + 1, batch_limit);
            assert(fs[i as int].size == size);
        }
        if current.len() > 0 && used as u128 + size as u128 > batch_limit as u128 {
            let mut full: Vec<FileRecord> = Vec::new();
            std::mem::swap(&mut full, &mut current);
            let ghost fv = record_views(full@);
            let ghost before = batch_views(done@);
            done.push(full);
            assert(batch_views(done@) =~= before.push(fv));
            used = 0;
        }
        let share: u64 = if size < batch_limit {
            size
        } else {
            batch_limit
        };
        used = used + share;
        let c = copy_record(&files[i]);
        let ghost cv = record_view(c);
        let ghost before = record_views(current@);
        current.push(c);
        assert(cv == fs[i as int]);
        assert(record_views(current@) =~= before.push(cv));
        i = i + 1;
    }
    if current.len() > 0 {
        let ghost cv = record_views(current@);
        let ghost before = batch_views(done@);
        done.push(current);
        assert(batch_views(done@) =~= before.push(cv));
    }
    done
}

/// The records of all batches, one after the other.
pub open spec fn flat(batches: Seq<Seq<RecordView>>) -> Seq<RecordView>
    decreases batches.len(),
{
    if batches.len() == 0 {
        Seq::empty()
    } else {
        flat(batches.drop_last()) + batches.last()
    }
}

/// The size of a batch, in which no file counts for more than the limit.
pub open spec fn batch_size(batch: Seq<RecordView>, limit: u64) -> nat
    decreases batch.len(),
{
    if batch.len() == 0 {
        0
    } else {
        batch_size(batch.drop_last(), limit) + capped(batch.last().size, limit)
    }
}

/// The first file of the next batch would not have fitted into the batch.
pub open spec fn is_full(batch: Seq<RecordView>, next: Seq<RecordView>, limit: u64) -> bool {
    batch_size(batch, limit) + next[0].size > limit
}

proof fn lemma_batching(files: Seq<RecordView>, n: nat, limit: u64)
    requires
        n <= files.len(),
    ensures
        ({
            let b = batching(files, n, limit);
            &&& flat(b.done) + b.current == files.take(n as int)
            &&& b.used == batch_size(b.current, limit)
            &&& forall|k: int|
                0 <= k < b.done.len() ==> (#[trigger] b.done[k]).len() > 0 && batch_size(
                    b.done[k],
                    limit,
                ) <= limit
            &&& forall|k: int|
                0 <= k < b.done.len() - 1 ==> is_full(#[trigger] b.done[k], b.done[k + 1], limit)
            &&& b.done.len() > 0 ==> b.current.len() > 0 && is_full(
                b.done.last(),
                b.current,
                limit,
            )
        }),
    decreases n,
{
    if n == 0 {
        assert(files.take(0) =~= Seq::<RecordView>::empty());
        assert(flat(Seq::<Seq<RecordView>>::empty()) + Seq::<RecordView>::empty()
            =~= Seq::<RecordView>::empty());
    } else {
        let m = (n - 1) as nat;
        lemma_batching(files, m, limit);
        lemma_used(files, m, limit);
        let b = batching(files, m, limit);
        let r = files[n - 1];
        assert(files.take(n as int) =~= files.take(m as int).push(r));
        let c = batched_with(b, r, limit);
        if b.current.len() > 0 && b.used + r.size > limit {
            assert(c.done.drop_last() =~= b.done);
            assert(flat(c.done) =~= flat(b.done) + b.current);
            assert(flat(c.done) + c.current =~= files.take(n as int));
            assert(c.current.drop_last() =~= Seq::<RecordView>::empty());
            assert(batch_size(c.current.drop_last(), limit) == 0);
            assert forall|k: int| 0 <= k < c.done.len() - 1 implies is_full(
                #[trigger] c.done[k],
                c.done[k + 1],
                limit,
            ) by {
                if k < b.done.len() - 1 {
                    assert(c.done[k] == b.done[k] && c.done[k + 1] == b.done[k + 1]);
                } else {
                    assert(c.done[k] == b.done.last() && c.done[k + 1] == b.current);
                }
            }
        } else {
            assert(c.current.drop_last() =~= b.current);
            assert(flat(c.done) + c.current =~= (flat(b.done) + b.current).push(r));
        }
    }
}

/// The batches hold every file once and in order, no batch is empty or larger than
/// the limit, and each is as full as the limit allows.
pub proof fn law_batches_partition_the_files(files: Seq<RecordView>, limit: u64)
    ensures
        flat(batches_of(files, limit)) == files,
        forall|k: int|
            0 <= k < batches_of(files, limit).len() ==> (#[trigger] batches_of(
                files,
                limit,
            )[k]).len() > 0 && batch_size(batches_of(files, limit)[k], limit) <= limit,
        forall|k: int|
            0 <= k < batches_of(files, limit).len() - 1 ==> is_full(
                #[trigger] batches_of(files, limit)[k],
                batches_of(files, limit)[k + 1],
                limit,
            ),
{
    let n = files.len();
    let b = batching(files, n, limit);
    lemma_batching(files, n, limit);
    lemma_used(files, n, limit);
    assert(files.take(n as int) =~= files);
    let all = batches_of(files, limit);
    if b.current.len() > 0 {
        assert(all.drop_last() =~= b.done);
    } else {
        assert(flat(b.done) + b.current =~= flat(b.done));
    }
    assert forall|k: int| 0 <= k < all.len() implies (#[trigger] all[k]).len() > 0 && batch_size(
        all[k],
        limit,
    ) <= limit by {
        if k < b.done.len() {
            assert(all[k] == b.done[k]);
        }
    }
    assert forall|k: int| 0 <= k < all.len() - 1 implies is_full(
        #[trigger] all[k],
        all[k + 1],
        limit,
    ) by {
        assert(all[k] == b.done[k]);
        if k + 1 < b.done.len() {
            assert(all[k + 1] == b.done[k + 1]);
        }
    }
}

/// No file is under a directory that is left out.
spec fn none_hidden(w: WalkView, rules: WalkRules) -> bool {
    forall|k: int| 0 <= k < w.files.len() ==> !beneath((#[trigger] w.files[k]).rel, rules.pruned)
}

proof fn lemma_files_not_hidden(entries: Seq<WalkEntry>, n: nat, rules: WalkRules)
    requires
        n <= entries.len(),
    ensures
        none_hidden(files_pass(entries, n, rules), rules),
    decreases n,
{
    if n > 0 {
        lemma_files_not_hidden(entries, (n - 1) as nat, rules);
    }
}

proof fn lemma_links_not_hidden(entries: Seq<WalkEntry>, n: nat, rules: WalkRules)
    requires
        n <= entries.len(),
    ensures
        none_hidden(links_pass(entries, n, rules), rules),
    decreases n,
{
    if n == 0 {
        lemma_files_not_hidden(entries, entries.len(), rules);
    } else {
        lemma_links_not_hidden(entries, (n - 1) as nat, rules);
    }
}

/// No file of a nested checkout gets indexed, unless that is asked for.
pub proof fn law_nested_checkouts_are_left_out(entries: Seq<WalkEntry>, rules: WalkRules, k: int)
    requires
        0 <= k < links_pass(entries, entries.len(), rules).files.len(),
    ensures
        !beneath(links_pass(entries, entries.len(), rules).files[k].rel, rules.pruned),
{
    lemma_links_not_hidden(entries, entries.len(), rules);
}

/// The files that symlinks lead to, after the first `m` records: they lie in the
/// repository, none is one that the walk found as a file, and each comes once.
pub open spec fn fresh_targets(w: WalkView, m: int, found: Set<Seq<u8>>, root: Seq<u8>) -> bool {
    &&& m <= w.files.len()
    &&& found.subset_of(w.seen)
    &&& forall|k: int|
        m <= k < w.files.len() ==> w.seen.contains(
            path_resolve::normal((#[trigger] w.files[k]).read_path),
        ) && !found.contains(path_resolve::normal(w.files[k].read_path)) && path_resolve::stripped(
            w.files[k].read_path,
            root,
        ) is Some
    &&& forall|j: int, k: int|
        m <= j < k < w.files.len() ==> path_resolve::normal((#[trigger] w.files[j]).read_path)
            != path_resolve::normal((#[trigger] w.files[k]).read_path)
}

proof fn lemma_fresh_targets(entries: Seq<WalkEntry>, n: nat, rules: WalkRules)
    requires
        n <= entries.len(),
    ensures
        ({
            let w = files_pass(entries, entries.len(), rules);
            fresh_targets(
                links_pass(entries, n, rules),
                w.files.len() as int,
                w.seen,
                rules.canonical_root,
            )
        }),
    decreases n,
{
    if n > 0 {
        lemma_fresh_targets(entries, (n - 1) as nat, rules);
    }
}

/// A symlink is indexed only if it leads into the repository, to a file that is
/// not indexed under a name of its own or through another symlink.
pub proof fn law_symlink_targets_are_fresh(entries: Seq<WalkEntry>, rules: WalkRules)
    ensures
        ({
            let w = files_pass(entries, entries.len(), rules);
            fresh_targets(
                links_pass(entries, entries.len(), rules),
                w.files.len() as int,
                w.seen,
                rules.canonical_root,
            )
        }),
{
    lemma_fresh_targets(entries, entries.len(), rules);
}

} // verus!
