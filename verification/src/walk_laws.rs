//! What a walk lists, in terms of the entries of the tree.

use crate::config::Config;
use crate::order;
use crate::path_resolve;
use crate::walk;
use crate::walk::{
    CheckoutKind, FileRecord, GitMark, LinkSight, RecordView, WalkEntry, WalkKind, WalkRules,
    WalkSkips,
};
use vstd::prelude::*;

verus! {

/// The components start with those of the directory.
pub open spec fn under(cs: Seq<Seq<u8>>, dir: Seq<Seq<u8>>) -> bool {
    dir.len() <= cs.len() && cs.take(dir.len() as int) == dir
}

/// The path of an entry is that of `rel` below the root.
pub open spec fn located(path: Seq<u8>, root: Seq<u8>, rel: Seq<u8>) -> bool {
    &&& path_resolve::components(path) == path_resolve::components(root)
        + path_resolve::components(rel)
    &&& path_resolve::normal(rel) == rel
}

/// A path of the repository lies in a checkout that was left out.
pub open spec fn left_out(rel: Seq<u8>, skips: WalkSkips) -> bool {
    exists|k: int|
        0 <= k < skips.nested_checkouts@.len() && under(
            path_resolve::components(rel),
            path_resolve::components((#[trigger] skips.nested_checkouts@[k]).0@),
        )
}

/// The record is that of the entry: a file under its own path, or the file that a
/// symlink leads to, inside the repository, under the path of the link.
pub open spec fn comes_from(
    rec: RecordView,
    e: WalkEntry,
    root: Seq<u8>,
    canonical_root: Seq<u8>,
) -> bool {
    &&& located(e.path@, root, rec.rel)
    &&& match e.kind {
        WalkKind::File { canonical, size } => rec.read_path == e.path@ && size == Some(rec.size),
        WalkKind::Symlink(LinkSight::Target { canonical, kind, size }) => {
            &&& rec.read_path == canonical@
            &&& kind is File
            &&& size == Some(rec.size)
            &&& under(
                path_resolve::components(canonical@),
                path_resolve::components(canonical_root),
            )
        },
        _ => false,
    }
}

/// The entry is a file, or a symlink to one in the repository, of a size above the
/// limit.
pub open spec fn outgrown(e: WalkEntry, max: u64) -> bool {
    match e.kind {
        WalkKind::File { canonical, size } => size matches Some(n) && n > max,
        WalkKind::Symlink(LinkSight::Target { canonical, kind, size }) => kind is File && (
        size matches Some(n) && n > max),
        _ => false,
    }
}

proof fn lemma_rel_of(path: Seq<u8>, root: Seq<u8>, rel: Seq<u8>)
    ensures
        walk::rel_of(path, root) == Some(rel) <==> located(path, root, rel),
{
    let a = path_resolve::components(path);
    let b = path_resolve::components(root);
    let cs = path_resolve::components(rel);
    if walk::rel_of(path, root) == Some(rel) {
        let rest = path_resolve::stripped(path, root)->0;
        path_resolve::lemma_stripped_list(path, root);
        path_resolve::lemma_components_joined(rest);
        assert(a =~= b + rest);
        assert(path_resolve::normal(rel) == rel);
    }
    if located(path, root, rel) {
        assert forall|i: int| 0 <= i < b.len() implies #[trigger] a[i] == b[i] by {}
        assert(a.skip(b.len() as int) =~= cs);
    }
}

proof fn lemma_under(p: Seq<u8>, dir: Seq<u8>)
    ensures
        path_resolve::stripped(p, dir) is Some <==> under(
            path_resolve::components(p),
            path_resolve::components(dir),
        ),
{
    let a = path_resolve::components(p);
    let b = path_resolve::components(dir);
    if b.len() <= a.len() {
        if path_resolve::agree(a, b, b.len() as int) {
            assert(a.take(b.len() as int) =~= b);
        }
        if a.take(b.len() as int) == b {
            assert forall|i: int| 0 <= i < b.len() implies #[trigger] a[i] == b[i] by {
                assert(a.take(b.len() as int)[i] == a[i]);
            }
        }
    }
}

proof fn lemma_left_out(rel: Seq<u8>, skips: WalkSkips)
    ensures
        left_out(rel, skips) <==> walk::beneath(
            rel,
            walk::checkout_views(skips.nested_checkouts@),
        ),
{
    let dirs = walk::checkout_views(skips.nested_checkouts@);
    if left_out(rel, skips) {
        let k = choose|k: int|
            0 <= k < skips.nested_checkouts@.len() && under(
                path_resolve::components(rel),
                path_resolve::components((#[trigger] skips.nested_checkouts@[k]).0@),
            );
        lemma_under(rel, dirs[k].0);
    }
    if walk::beneath(rel, dirs) {
        let k = choose|k: int|
            0 <= k < dirs.len() && path_resolve::stripped(rel, (#[trigger] dirs[k]).0) is Some;
        lemma_under(rel, dirs[k].0);
        assert(skips.nested_checkouts@[k].0@ == dirs[k].0);
    }
}

/// Where the records of a walk come from: entry `from[j]` gave record `j`, and the
/// entries of `big` were counted as too large.
pub struct Sources {
    pub from: Seq<int>,
    pub big: Seq<int>,
}

/// Every number comes once, and all are below `n`.
pub open spec fn distinct(s: Seq<int>, n: int) -> bool {
    &&& forall|j: int| 0 <= j < s.len() ==> 0 <= #[trigger] s[j] < n
    &&& forall|j: int, k: int| 0 <= j < k < s.len() ==> #[trigger] s[j] != #[trigger] s[k]
}

spec fn shown(e: WalkEntry, rules: WalkRules) -> bool {
    !walk::hidden(e, rules)
}

spec fn sourced(
    entries: Seq<WalkEntry>,
    files: Seq<RecordView>,
    too_large: nat,
    rules: WalkRules,
    s: Sources,
) -> bool {
    &&& s.from.len() == files.len()
    &&& s.big.len() == too_large
    &&& distinct(s.from, entries.len() as int)
    &&& distinct(s.big, entries.len() as int)
    &&& forall|j: int|
        0 <= j < files.len() ==> comes_from(
            #[trigger] files[j],
            entries[s.from[j]],
            rules.repo_root,
            rules.canonical_root,
        ) && files[j].size <= rules.max_file_size && shown(entries[s.from[j]], rules)
    &&& forall|j: int|
        0 <= j < s.big.len() ==> outgrown(entries[#[trigger] s.big[j]], rules.max_file_size)
            && shown(entries[s.big[j]], rules)
}

proof fn lemma_push_distinct(s: Seq<int>, x: int, n: int)
    requires
        distinct(s, n),
        0 <= x < n,
        !s.contains(x),
    ensures
        distinct(s.push(x), n),
{
    let t = s.push(x);
    assert forall|j: int, k: int| 0 <= j < k < t.len() implies #[trigger] t[j] != #[trigger] t[k] by {
        if k == s.len() {
            assert(s.contains(s[j]));
        }
    }
}

/// The sources of the files among the first `n` entries.
proof fn lemma_file_sources(entries: Seq<WalkEntry>, n: nat, rules: WalkRules) -> (s: Sources)
    requires
        n <= entries.len(),
    ensures
        ({
            let w = walk::files_pass(entries, n, rules);
            &&& sourced(entries, w.files, w.too_large, rules, s)
            &&& forall|j: int| 0 <= j < s.from.len() ==> #[trigger] s.from[j] < n
            &&& forall|j: int| 0 <= j < s.from.len() ==> entries[#[trigger] s.from[j]].kind is File
            &&& forall|j: int| 0 <= j < s.big.len() ==> #[trigger] s.big[j] < n
            &&& forall|j: int| 0 <= j < s.big.len() ==> entries[#[trigger] s.big[j]].kind is File
            &&& forall|i: int|
                #![trigger entries[i]]
                0 <= i < n && shown(entries[i], rules) && (entries[i].kind matches WalkKind::File {
                    size,
                    ..
                } && size matches Some(m) && m <= rules.max_file_size && walk::rel_of(
                    entries[i].path@,
                    rules.repo_root,
                ) is Some) ==> s.from.contains(i)
            &&& forall|i: int|
                #![trigger entries[i]]
                0 <= i < n && shown(entries[i], rules) && entries[i].kind is File && outgrown(
                    entries[i],
                    rules.max_file_size,
                ) ==> s.big.contains(i)
        }),
    decreases n,
{
    if n == 0 {
        Sources { from: Seq::empty(), big: Seq::empty() }
    } else {
        let t = lemma_file_sources(entries, (n - 1) as nat, rules);
        let w = walk::files_pass(entries, (n - 1) as nat, rules);
        let v = walk::files_pass(entries, n, rules);
        let e = entries[n - 1];
        let last = n - 1;
        let mut s = t;
        if t.from.contains(last) {
            let j = choose|j: int| 0 <= j < t.from.len() && t.from[j] == last;
            assert(t.from[j] < n - 1);
        }
        if t.big.contains(last) {
            let j = choose|j: int| 0 <= j < t.big.len() && t.big[j] == last;
            assert(t.big[j] < n - 1);
        }
        if shown(e, rules) {
            if let WalkKind::File { canonical, size } = e.kind {
                if let Some(m) = size {
                    if m > rules.max_file_size {
                        lemma_push_distinct(t.big, last, entries.len() as int);
                        s = Sources { big: t.big.push(last), ..t };
                        assert(s.big.last() == last);
                    } else if let Some(rel) = walk::rel_of(e.path@, rules.repo_root) {
                        lemma_rel_of(e.path@, rules.repo_root, rel);
                        lemma_push_distinct(t.from, last, entries.len() as int);
                        s = Sources { from: t.from.push(last), ..t };
                        assert(s.from.last() == last);
                        assert(v.files == w.files.push(RecordView { read_path: e.path@, rel, size: m }));
                        assert forall|j: int| 0 <= j < v.files.len() implies comes_from(
                            #[trigger] v.files[j],
                            entries[s.from[j]],
                            rules.repo_root,
                            rules.canonical_root,
                        ) && v.files[j].size <= rules.max_file_size && shown(
                            entries[s.from[j]],
                            rules,
                        ) by {
                            if j < w.files.len() {
                                assert(v.files[j] == w.files[j]);
                            }
                        }
                    }
                }
            }
        }
        assert forall|i: int|
            #![trigger entries[i]]
            0 <= i < n && shown(entries[i], rules) && (entries[i].kind matches WalkKind::File {
                size,
                ..
            } && size matches Some(m) && m <= rules.max_file_size && walk::rel_of(
                entries[i].path@,
                rules.repo_root,
            ) is Some) implies s.from.contains(i) by {
            if i < n - 1 {
                let j = choose|j: int| 0 <= j < t.from.len() && t.from[j] == i;
                assert(s.from[j] == i);
            }
        }
        assert forall|i: int|
            #![trigger entries[i]]
            0 <= i < n && shown(entries[i], rules) && entries[i].kind is File && outgrown(
                entries[i],
                rules.max_file_size,
            ) implies s.big.contains(i) by {
            if i < n - 1 {
                let j = choose|j: int| 0 <= j < t.big.len() && t.big[j] == i;
                assert(s.big[j] == i);
            }
        }
        s
    }
}

/// A file among the entries, or a symlink among the first `n`, is at this place.
pub open spec fn reached(
    entries: Seq<WalkEntry>,
    n: int,
    target: Seq<u8>,
    i: int,
    canonical_root: Seq<u8>,
) -> bool {
    0 <= i < entries.len() && match entries[i].kind {
        WalkKind::File { canonical, size } => canonical matches Some(c)
            && path_resolve::components(c@) == path_resolve::components(target),
        WalkKind::Symlink(LinkSight::Target { canonical, kind, size }) => {
            &&& i < n
            &&& kind is File
            &&& path_resolve::components(canonical@) == path_resolve::components(target)
            &&& under(
                path_resolve::components(canonical@),
                path_resolve::components(canonical_root),
            )
        },
        _ => false,
    }
}

spec fn reached_shown(
    entries: Seq<WalkEntry>,
    n: int,
    target: Seq<u8>,
    i: int,
    rules: WalkRules,
) -> bool {
    reached(entries, n, target, i, rules.canonical_root) && shown(entries[i], rules)
}

/// What a walk has seen was at some entry.
proof fn lemma_seen(entries: Seq<WalkEntry>, n: nat, rules: WalkRules, p: Seq<u8>)
    requires
        n <= entries.len(),
    ensures
        walk::files_pass(entries, n, rules).seen.contains(path_resolve::normal(p)) ==> exists|i: int|
            #[trigger] reached_shown(entries, 0, p, i, rules),
    decreases n,
{
    if n > 0 {
        lemma_seen(entries, (n - 1) as nat, rules, p);
        let e = entries[n - 1];
        if shown(e, rules) {
            if let WalkKind::File { canonical, size } = e.kind {
                if let Some(c) = canonical {
                    if path_resolve::normal(c@) == path_resolve::normal(p) {
                        path_resolve::law_normal_form_tells_paths_apart(c@, p);
                        assert(reached_shown(entries, 0, p, n - 1, rules));
                    }
                }
            }
        }
    }
}

proof fn lemma_seen_links(entries: Seq<WalkEntry>, n: nat, rules: WalkRules, p: Seq<u8>)
    requires
        n <= entries.len(),
    ensures
        walk::links_pass(entries, n, rules).seen.contains(path_resolve::normal(p)) ==> exists|i: int|
            #[trigger] reached_shown(entries, n as int, p, i, rules),
    decreases n,
{
    if n == 0 {
        lemma_seen(entries, entries.len(), rules, p);
    } else {
        lemma_seen_links(entries, (n - 1) as nat, rules, p);
        let w = walk::links_pass(entries, (n - 1) as nat, rules);
        let e = entries[n - 1];
        if w.seen.contains(path_resolve::normal(p)) {
            let i = choose|i: int| #[trigger] reached_shown(entries, n - 1, p, i, rules);
            assert(reached_shown(entries, n as int, p, i, rules));
        } else if shown(e, rules) {
            if let WalkKind::Symlink(link) = e.kind {
                if let LinkSight::Target { canonical, kind, size } = link {
                    lemma_under(canonical@, rules.canonical_root);
                    path_resolve::law_normal_form_tells_paths_apart(canonical@, p);
                    if walk::links_pass(entries, n, rules).seen.contains(path_resolve::normal(p)) {
                        assert(reached_shown(entries, n as int, p, n - 1, rules));
                    }
                }
            }
        }
    }
}

/// A symlink that is listed: it leads to a file of the repository of a size within
/// the limit that nothing before leads to.
spec fn link_due(entries: Seq<WalkEntry>, i: int, rules: WalkRules) -> bool {
    &&& shown(entries[i], rules)
    &&& entries[i].kind matches WalkKind::Symlink(LinkSight::Target { canonical, kind, size })
        && kind is File && (size matches Some(m) && m <= rules.max_file_size) && under(
        path_resolve::components(canonical@),
        path_resolve::components(rules.canonical_root),
    ) && !exists|k: int| #[trigger] reached_shown(entries, i, canonical@, k, rules)
    &&& walk::rel_of(entries[i].path@, rules.repo_root) is Some
}

/// The place that a symlink leads to.
pub open spec fn leads_to(e: WalkEntry) -> Option<Seq<Seq<u8>>> {
    match e.kind {
        WalkKind::Symlink(LinkSight::Target { canonical, kind, size }) => Some(
            path_resolve::components(canonical@),
        ),
        _ => None,
    }
}

/// The place of a file.
pub open spec fn lies_at(e: WalkEntry) -> Option<Seq<Seq<u8>>> {
    match e.kind {
        WalkKind::File { canonical, size } => match canonical {
            Some(c) => Some(path_resolve::components(c@)),
            None => None,
        },
        _ => None,
    }
}

proof fn lemma_files_are_seen(entries: Seq<WalkEntry>, n: nat, rules: WalkRules, i: int, c: Vec<u8>)
    requires
        0 <= i < n <= entries.len(),
        shown(entries[i], rules),
        entries[i].kind matches WalkKind::File { canonical, .. } && canonical == Some(c),
    ensures
        walk::files_pass(entries, n, rules).seen.contains(path_resolve::normal(c@)),
    decreases n,
{
    if i < n - 1 {
        lemma_files_are_seen(entries, (n - 1) as nat, rules, i, c);
    }
}

proof fn lemma_seen_grows(entries: Seq<WalkEntry>, n: nat, rules: WalkRules, p: Seq<u8>)
    requires
        walk::files_pass(entries, entries.len(), rules).seen.contains(p),
    ensures
        walk::links_pass(entries, n, rules).seen.contains(p),
    decreases n,
{
    if n > 0 {
        lemma_seen_grows(entries, (n - 1) as nat, rules, p);
    }
}

/// The listed symlinks lead to different places, none of which is that of a file.
spec fn links_fresh(entries: Seq<WalkEntry>, s: Sources, seen: Set<Seq<u8>>, rules: WalkRules) -> bool {
    &&& forall|j: int|
        0 <= j < s.from.len() ==> (entries[#[trigger] s.from[j]].kind matches WalkKind::Symlink(
            LinkSight::Target { canonical, .. },
        ) ==> seen.contains(path_resolve::normal(canonical@)))
    &&& forall|j: int, i: int|
        #![trigger s.from[j], entries[i]]
        0 <= j < s.from.len() && 0 <= i < entries.len() && shown(entries[i], rules) && leads_to(
            entries[s.from[j]],
        ) is Some ==> lies_at(entries[i]) != leads_to(entries[s.from[j]])
    &&& forall|j: int, k: int|
        0 <= j < k < s.from.len() && leads_to(entries[#[trigger] s.from[j]]) is Some ==> leads_to(
            entries[#[trigger] s.from[k]],
        ) != leads_to(entries[s.from[j]])
}

proof fn lemma_link_sources(entries: Seq<WalkEntry>, n: nat, rules: WalkRules) -> (s: Sources)
    requires
        n <= entries.len(),
    ensures
        ({
            let w = walk::links_pass(entries, n, rules);
            let t = file_sources(entries, rules);
            &&& sourced(entries, w.files, w.too_large, rules, s)
            &&& forall|j: int|
                0 <= j < s.from.len() ==> #[trigger] s.from[j] < n || entries[s.from[j]].kind is File
            &&& forall|j: int|
                0 <= j < s.big.len() ==> #[trigger] s.big[j] < n || entries[s.big[j]].kind is File
            &&& links_fresh(entries, s, w.seen, rules)
            &&& forall|i: int| t.from.contains(i) ==> s.from.contains(i)
            &&& forall|i: int| t.big.contains(i) ==> s.big.contains(i)
            &&& forall|i: int|
                0 <= i < n && #[trigger] link_due(entries, i, rules) ==> s.from.contains(i)
        }),
    decreases n,
{
    lemma_sources_chosen(entries, rules);
    if n == 0 {
        let s = file_sources(entries, rules);
        assert forall|j: int| 0 <= j < s.from.len() implies leads_to(entries[#[trigger] s.from[j]])
            is None by {
            assert(entries[s.from[j]].kind is File);
        }
        s
    } else {
        let t = lemma_link_sources(entries, (n - 1) as nat, rules);
        let w = walk::links_pass(entries, (n - 1) as nat, rules);
        let v = walk::links_pass(entries, n, rules);
        let e = entries[n - 1];
        let last = n - 1;
        let mut s = t;
        assert forall|p: Seq<u8>|
            walk::files_pass(entries, entries.len(), rules).seen.contains(
                p,
            ) implies #[trigger] w.seen.contains(p) by {
            lemma_seen_grows(entries, (n - 1) as nat, rules, p);
        }
        if shown(e, rules) && e.kind is Symlink {
            if t.from.contains(last) {
                let j = choose|j: int| 0 <= j < t.from.len() && t.from[j] == last;
                assert(t.from[j] < n - 1);
            }
            if t.big.contains(last) {
                let j = choose|j: int| 0 <= j < t.big.len() && t.big[j] == last;
                assert(t.big[j] < n - 1);
            }
            if let WalkKind::Symlink(link) = e.kind {
                if let LinkSight::Target { canonical, kind, size } = link {
                    lemma_under(canonical@, rules.canonical_root);
                    lemma_seen_links(entries, (n - 1) as nat, rules, canonical@);
                    if path_resolve::stripped(canonical@, rules.canonical_root) is Some
                        && kind is File && !w.seen.contains(path_resolve::normal(canonical@)) {
                        if let Some(m) = size {
                            if m > rules.max_file_size {
                                lemma_push_distinct(t.big, last, entries.len() as int);
                                s = Sources { big: t.big.push(last), ..t };
                                assert(s.big.last() == last);
                            } else if let Some(rel) = walk::rel_of(e.path@, rules.repo_root) {
                                lemma_rel_of(e.path@, rules.repo_root, rel);
                                lemma_push_distinct(t.from, last, entries.len() as int);
                                s = Sources { from: t.from.push(last), ..t };
                                assert(s.from.last() == last);
                                lemma_stays_fresh(entries, t, w.seen, rules, last, canonical);
                                assert(v.seen == w.seen.insert(path_resolve::normal(canonical@)));
                                assert(v.files == w.files.push(
                                    RecordView { read_path: canonical@, rel, size: m },
                                ));
                                assert forall|j: int| 0 <= j < v.files.len() implies comes_from(
                                    #[trigger] v.files[j],
                                    entries[s.from[j]],
                                    rules.repo_root,
                                    rules.canonical_root,
                                ) && v.files[j].size <= rules.max_file_size && shown(
                                    entries[s.from[j]],
                                    rules,
                                ) by {
                                    if j < w.files.len() {
                                        assert(v.files[j] == w.files[j]);
                                    }
                                }
                            }
                        }
                    }
                }
            }
        }
        assert(links_fresh(entries, s, v.seen, rules));
        assert forall|i: int| t.from.contains(i) implies s.from.contains(i) by {
            let j = choose|j: int| 0 <= j < t.from.len() && t.from[j] == i;
            assert(s.from[j] == i);
        }
        assert forall|i: int| t.big.contains(i) implies s.big.contains(i) by {
            let j = choose|j: int| 0 <= j < t.big.len() && t.big[j] == i;
            assert(s.big[j] == i);
        }
        assert forall|i: int| 0 <= i < n && #[trigger] link_due(entries, i, rules) implies s.from.contains(
            i,
        ) by {
            if i == n - 1 {
                assert(s.from.contains(last));
            }
        }
        s
    }
}

proof fn lemma_stays_fresh(
    entries: Seq<WalkEntry>,
    t: Sources,
    seen: Set<Seq<u8>>,
    rules: WalkRules,
    last: int,
    canonical: Vec<u8>,
)
    requires
        links_fresh(entries, t, seen, rules),
        0 <= last < entries.len(),
        entries[last].kind matches WalkKind::Symlink(LinkSight::Target { canonical: c, .. }) && c
            == canonical,
        !seen.contains(path_resolve::normal(canonical@)),
        forall|p: Seq<u8>|
            walk::files_pass(entries, entries.len(), rules).seen.contains(p)
                ==> #[trigger] seen.contains(p),
    ensures
        links_fresh(
            entries,
            Sources { from: t.from.push(last), ..t },
            seen.insert(path_resolve::normal(canonical@)),
            rules,
        ),
{
    let s = Sources { from: t.from.push(last), ..t };
    let cs = path_resolve::components(canonical@);
    assert forall|i: int| 0 <= i < entries.len() && shown(entries[i], rules) implies lies_at(
        #[trigger] entries[i],
    ) != Some(cs) by {
        if let WalkKind::File { canonical: own, .. } = entries[i].kind {
            if let Some(c) = own {
                lemma_files_are_seen(entries, entries.len(), rules, i, c);
                assert(seen.contains(path_resolve::normal(c@)));
                path_resolve::law_normal_form_tells_paths_apart(c@, canonical@);
            }
        }
    }
    assert forall|j: int, i: int|
        #![trigger s.from[j], entries[i]]
        0 <= j < s.from.len() && 0 <= i < entries.len() && shown(entries[i], rules) && leads_to(
            entries[s.from[j]],
        ) is Some implies lies_at(entries[i]) != leads_to(entries[s.from[j]]) by {
        if j < t.from.len() {
            assert(s.from[j] == t.from[j]);
        }
    }
    assert forall|j: int, k: int|
        0 <= j < k < s.from.len() && leads_to(entries[#[trigger] s.from[j]]) is Some implies leads_to(
        entries[#[trigger] s.from[k]],
    ) != leads_to(entries[s.from[j]]) by {
        assert(s.from[j] == t.from[j]);
        if k < t.from.len() {
            assert(s.from[k] == t.from[k]);
        } else if let WalkKind::Symlink(LinkSight::Target { canonical: c, .. }) =
            entries[t.from[j]].kind {
            assert(seen.contains(path_resolve::normal(c@)));
            path_resolve::law_normal_form_tells_paths_apart(c@, canonical@);
        }
    }
    assert forall|j: int| 0 <= j < s.from.len() implies (
    entries[#[trigger] s.from[j]].kind matches WalkKind::Symlink(LinkSight::Target {
        canonical: c,
        ..
    }) ==> seen.insert(path_resolve::normal(canonical@)).contains(path_resolve::normal(c@))) by {
        if j < t.from.len() {
            assert(s.from[j] == t.from[j]);
        }
    }
}

spec fn file_sources_hold(entries: Seq<WalkEntry>, rules: WalkRules, s: Sources) -> bool {
    let w = walk::files_pass(entries, entries.len(), rules);
    &&& sourced(entries, w.files, w.too_large, rules, s)
    &&& forall|j: int| 0 <= j < s.from.len() ==> entries[#[trigger] s.from[j]].kind is File
    &&& forall|j: int| 0 <= j < s.big.len() ==> entries[#[trigger] s.big[j]].kind is File
    &&& forall|i: int|
        #![trigger entries[i]]
        0 <= i < entries.len() && shown(entries[i], rules) && (
        entries[i].kind matches WalkKind::File { size, .. } && size matches Some(m) && m
            <= rules.max_file_size && walk::rel_of(entries[i].path@, rules.repo_root) is Some)
            ==> s.from.contains(i)
    &&& forall|i: int|
        #![trigger entries[i]]
        0 <= i < entries.len() && shown(entries[i], rules) && entries[i].kind is File && outgrown(
            entries[i],
            rules.max_file_size,
        ) ==> s.big.contains(i)
}

spec fn file_sources(entries: Seq<WalkEntry>, rules: WalkRules) -> Sources {
    choose|s: Sources| file_sources_hold(entries, rules, s)
}

proof fn lemma_sources_chosen(entries: Seq<WalkEntry>, rules: WalkRules)
    ensures
        file_sources_hold(entries, rules, file_sources(entries, rules)),
{
    let s = lemma_file_sources(entries, entries.len(), rules);
    assert(file_sources_hold(entries, rules, s));
}

/// Every record of a walk comes from one entry, and no entry gives two. Of the
/// entries that are not in a checkout that is left out, every file of a size within
/// the limit gives a record, at any depth; and the files counted as too large are
/// entries above the limit, each counted once, with every regular file among them. A file
/// that is listed through a symlink is not listed through another one, and is not one that
/// the walk found as a file.
pub proof fn law_every_file_is_listed(
    config: Config,
    canonical_root: Seq<u8>,
    entries: Seq<WalkEntry>,
    r: (Vec<FileRecord>, WalkSkips),
) -> (s: Sources)
    requires
        walk::is_walk(config, canonical_root, entries, r),
    ensures
        s.from.len() == r.0@.len(),
        distinct(s.from, entries.len() as int),
        forall|j: int|
            0 <= j < r.0@.len() ==> comes_from(
                walk::record_view(#[trigger] r.0@[j]),
                entries[s.from[j]],
                config.repo_root@,
                canonical_root,
            ) && r.0@[j].2 <= config.max_file_size && !left_out(r.0@[j].1@, r.1),
        forall|i: int, rel: Seq<u8>|
            0 <= i < entries.len() && #[trigger] located(
                (#[trigger] entries[i]).path@,
                config.repo_root@,
                rel,
            ) && !left_out(rel, r.1) && (entries[i].kind matches WalkKind::File { size, .. }
                && size matches Some(m) && m <= config.max_file_size) ==> s.from.contains(i),
        forall|j: int, i: int, rel: Seq<u8>|
            0 <= j < s.from.len() && 0 <= i < entries.len() && #[trigger] located(
                (#[trigger] entries[i]).path@,
                config.repo_root@,
                rel,
            ) && !left_out(rel, r.1) && leads_to(entries[#[trigger] s.from[j]]) is Some ==> lies_at(
                entries[i],
            ) != leads_to(entries[s.from[j]]),
        forall|j: int, k: int|
            0 <= j < s.from.len() && 0 <= k < s.from.len() && j != k && leads_to(
                entries[#[trigger] s.from[j]],
            ) is Some ==> leads_to(entries[#[trigger] s.from[k]]) != leads_to(entries[s.from[j]]),
        s.big.len() == r.1.too_large,
        distinct(s.big, entries.len() as int),
        forall|j: int|
            0 <= j < s.big.len() ==> outgrown(
                entries[#[trigger] s.big[j]],
                config.max_file_size,
            ),
        forall|i: int, rel: Seq<u8>|
            0 <= i < entries.len() && #[trigger] located(
                (#[trigger] entries[i]).path@,
                config.repo_root@,
                rel,
            ) && !left_out(rel, r.1) && entries[i].kind is File && outgrown(
                entries[i],
                config.max_file_size,
            ) ==> s.big.contains(i),
        forall|i: int, rel: Seq<u8>|
            0 <= i < entries.len() && #[trigger] located(
                (#[trigger] entries[i]).path@,
                config.repo_root@,
                rel,
            ) && !left_out(rel, r.1) && (entries[i].kind matches WalkKind::Symlink(
                LinkSight::Target { canonical, kind, size },
            ) && kind is File && (size matches Some(m) && m <= config.max_file_size) && under(
                path_resolve::components(canonical@),
                path_resolve::components(canonical_root),
            ) && !exists|k: int| #[trigger] reached(entries, i, canonical@, k, canonical_root))
                ==> s.from.contains(i),
{
    let rules = walk::rules_of(config, canonical_root, entries);
    let w = walk::links_pass(entries, entries.len(), rules);
    let t = lemma_link_sources(entries, entries.len(), rules);
    lemma_sources_chosen(entries, rules);
    let views = walk::record_views(r.0@);
    let p = choose|p: Seq<int>| order::arranged(w.files, views, p);
    let from = Seq::new(views.len(), |j: int| t.from[p[j]]);
    let s = Sources { from, big: t.big };
    assert forall|j: int, k: int| 0 <= j < k < from.len() implies #[trigger] from[j]
        != #[trigger] from[k] by {
        assert(p[j] != p[k]);
        if p[j] < p[k] {
            assert(t.from[p[j]] != t.from[p[k]]);
        } else {
            assert(t.from[p[k]] != t.from[p[j]]);
        }
    }
    assert forall|j: int| 0 <= j < from.len() implies 0 <= #[trigger] from[j] < entries.len() by {
        assert(0 <= t.from[p[j]] < entries.len());
    }
    assert forall|i: int| t.from.contains(i) implies from.contains(i) by {
        let k = choose|k: int| 0 <= k < t.from.len() && t.from[k] == i;
        assert(p.contains(k));
        let j = choose|j: int| 0 <= j < p.len() && p[j] == k;
        assert(from[j] == i);
    }
    assert forall|j: int| 0 <= j < r.0@.len() implies comes_from(
        walk::record_view(#[trigger] r.0@[j]),
        entries[s.from[j]],
        config.repo_root@,
        canonical_root,
    ) && r.0@[j].2 <= config.max_file_size && !left_out(r.0@[j].1@, r.1) by {
        assert(views[j] == w.files[p[j]]);
        let e = entries[s.from[j]];
        lemma_rel_of(e.path@, config.repo_root@, views[j].rel);
        lemma_left_out(views[j].rel, r.1);
    }
    assert forall|i: int, rel: Seq<u8>|
        0 <= i < entries.len() && #[trigger] located(
            (#[trigger] entries[i]).path@,
            config.repo_root@,
            rel,
        ) && !left_out(rel, r.1) implies shown(entries[i], rules) && walk::rel_of(
        entries[i].path@,
        rules.repo_root,
    ) is Some by {
        lemma_rel_of(entries[i].path@, config.repo_root@, rel);
        lemma_left_out(rel, r.1);
    }
    assert forall|j: int, i: int, rel: Seq<u8>|
        0 <= j < s.from.len() && 0 <= i < entries.len() && #[trigger] located(
            (#[trigger] entries[i]).path@,
            config.repo_root@,
            rel,
        ) && !left_out(rel, r.1) && leads_to(entries[#[trigger] s.from[j]]) is Some implies lies_at(
        entries[i],
    ) != leads_to(entries[s.from[j]]) by {
        assert(s.from[j] == t.from[p[j]]);
    }
    assert forall|j: int, k: int|
        0 <= j < s.from.len() && 0 <= k < s.from.len() && j != k && leads_to(
            entries[#[trigger] s.from[j]],
        ) is Some implies leads_to(entries[#[trigger] s.from[k]]) != leads_to(
        entries[s.from[j]],
    ) by {
        assert(s.from[j] == t.from[p[j]] && s.from[k] == t.from[p[k]]);
        if j < k {
            assert(p[j] != p[k]);
        } else {
            assert(p[k] != p[j]);
        }
        if p[j] < p[k] {
            assert(leads_to(entries[t.from[p[k]]]) != leads_to(entries[t.from[p[j]]]));
        } else if leads_to(entries[t.from[p[k]]]) is Some {
            assert(leads_to(entries[t.from[p[j]]]) != leads_to(entries[t.from[p[k]]]));
        }
    }
    assert forall|i: int, rel: Seq<u8>|
        0 <= i < entries.len() && #[trigger] located(
            (#[trigger] entries[i]).path@,
            config.repo_root@,
            rel,
        ) && !left_out(rel, r.1) && (entries[i].kind matches WalkKind::Symlink(
            LinkSight::Target { canonical, kind, size },
        ) && kind is File && (size matches Some(m) && m <= config.max_file_size) && under(
            path_resolve::components(canonical@),
            path_resolve::components(canonical_root),
        ) && !exists|k: int| #[trigger] reached(entries, i, canonical@, k, canonical_root)) implies s.from.contains(
        i,
    ) by {
        assert(link_due(entries, i, rules));
    }
    s
}

/// The directory holds a checkout of this kind: its `.git` is a file where the git
/// directory is elsewhere, and a directory where it is its own.
pub open spec fn holds_checkout(e: WalkEntry, kind: CheckoutKind) -> bool {
    e.kind matches WalkKind::Directory { git } && ((git == GitMark::File && kind
        == CheckoutKind::Linked) || (git == GitMark::Directory && kind
        == CheckoutKind::NestedClone))
}

proof fn lemma_nested(entries: Seq<WalkEntry>, n: nat, root: Seq<u8>)
    requires
        n <= entries.len(),
    ensures
        ({
            let c = walk::nested(entries, n, root, false);
            &&& forall|k: int|
                0 <= k < c.len() ==> exists|i: int|
                    0 <= i < n && holds_checkout(#[trigger] entries[i], (#[trigger] c[k]).1)
                        && located(entries[i].path@, root, c[k].0) && c[k].0.len() > 0
            &&& forall|j: int, k: int|
                0 <= j < k < c.len() ==> !under(
                    path_resolve::components((#[trigger] c[k]).0),
                    path_resolve::components((#[trigger] c[j]).0),
                )
            &&& forall|i: int, rel: Seq<u8>|
                0 <= i < n && (holds_checkout(entries[i], CheckoutKind::Linked) || holds_checkout(
                    entries[i],
                    CheckoutKind::NestedClone,
                )) && #[trigger] located((#[trigger] entries[i]).path@, root, rel) && rel.len() > 0
                    ==> walk::beneath(rel, c)
        }),
    decreases n,
{
    if n > 0 {
        let rest = walk::nested(entries, (n - 1) as nat, root, false);
        let c = walk::nested(entries, n, root, false);
        let e = entries[n - 1];
        lemma_nested(entries, (n - 1) as nat, root);
        if let Some(rel) = walk::rel_of(e.path@, root) {
            lemma_rel_of(e.path@, root, rel);
        }
        if let Some(found) = walk::checkout_at(e, root) {
            if !walk::beneath(found.0, rest) {
                assert(c == rest.push(found));
                assert forall|k: int| 0 <= k < c.len() implies exists|i: int|
                    0 <= i < n && holds_checkout(#[trigger] entries[i], (#[trigger] c[k]).1)
                        && located(entries[i].path@, root, c[k].0) && c[k].0.len() > 0 by {
                    if k < rest.len() {
                        assert(c[k] == rest[k]);
                        let i = choose|i: int|
                            0 <= i < n - 1 && holds_checkout(#[trigger] entries[i], rest[k].1)
                                && located(entries[i].path@, root, rest[k].0) && rest[k].0.len()
                                > 0;
                        assert(holds_checkout(entries[i], c[k].1));
                    } else {
                        assert(holds_checkout(entries[n - 1], c[k].1));
                    }
                }
                assert forall|j: int, k: int| 0 <= j < k < c.len() implies !under(
                    path_resolve::components((#[trigger] c[k]).0),
                    path_resolve::components((#[trigger] c[j]).0),
                ) by {
                    assert(c[j] == rest[j]);
                    if k < rest.len() {
                        assert(c[k] == rest[k]);
                    } else {
                        lemma_under(found.0, rest[j].0);
                    }
                }
            }
        }
        assert forall|i: int, rel: Seq<u8>|
            0 <= i < n && (holds_checkout(entries[i], CheckoutKind::Linked) || holds_checkout(
                entries[i],
                CheckoutKind::NestedClone,
            )) && #[trigger] located((#[trigger] entries[i]).path@, root, rel) && rel.len()
                > 0 implies walk::beneath(rel, c) by {
            if i < n - 1 {
                let k = choose|k: int|
                    0 <= k < rest.len() && path_resolve::stripped(rel, (#[trigger] rest[k]).0)
                        is Some;
                assert(c[k] == rest[k]);
            } else {
                lemma_rel_of(e.path@, root, rel);
                if !walk::beneath(rel, rest) {
                    assert(c.last().0 == rel);
                    lemma_under(rel, rel);
                    assert(path_resolve::components(rel).take(
                        path_resolve::components(rel).len() as int,
                    ) =~= path_resolve::components(rel));
                    assert(path_resolve::stripped(rel, c[c.len() - 1].0) is Some);
                }
            }
        }
    }
}

/// A walk that leaves nested checkouts out leaves out every directory below the root
/// that has a `.git` of either form, names each such directory once with its kind
/// unless it lies in another that is named, and names nothing else. A walk that
/// takes them leaves nothing out.
pub proof fn law_nested_checkouts_are_named(
    config: Config,
    canonical_root: Seq<u8>,
    entries: Seq<WalkEntry>,
    r: (Vec<FileRecord>, WalkSkips),
)
    requires
        walk::is_walk(config, canonical_root, entries, r),
    ensures
        config.index_nested_checkouts ==> r.1.nested_checkouts@.len() == 0,
        !config.index_nested_checkouts ==> forall|i: int, rel: Seq<u8>|
            0 <= i < entries.len() && (holds_checkout(entries[i], CheckoutKind::Linked)
                || holds_checkout(entries[i], CheckoutKind::NestedClone)) && #[trigger] located(
                (#[trigger] entries[i]).path@,
                config.repo_root@,
                rel,
            ) && rel.len() > 0 ==> left_out(rel, r.1),
        forall|k: int|
            0 <= k < r.1.nested_checkouts@.len() ==> exists|i: int|
                0 <= i < entries.len() && holds_checkout(
                    #[trigger] entries[i],
                    (#[trigger] r.1.nested_checkouts@[k]).1,
                ) && located(
                    entries[i].path@,
                    config.repo_root@,
                    r.1.nested_checkouts@[k].0@,
                ) && r.1.nested_checkouts@[k].0@.len() > 0,
        forall|j: int, k: int|
            0 <= j < k < r.1.nested_checkouts@.len() ==> !under(
                path_resolve::components((#[trigger] r.1.nested_checkouts@[k]).0@),
                path_resolve::components((#[trigger] r.1.nested_checkouts@[j]).0@),
            ),
{
    let list = r.1.nested_checkouts@;
    let views = walk::checkout_views(list);
    assert(views.len() == list.len());
    if !config.index_nested_checkouts {
        lemma_nested(entries, entries.len(), config.repo_root@);
        assert forall|i: int, rel: Seq<u8>|
            0 <= i < entries.len() && (holds_checkout(entries[i], CheckoutKind::Linked)
                || holds_checkout(entries[i], CheckoutKind::NestedClone)) && #[trigger] located(
                (#[trigger] entries[i]).path@,
                config.repo_root@,
                rel,
            ) && rel.len() > 0 implies left_out(rel, r.1) by {
            lemma_left_out(rel, r.1);
        }
        assert forall|k: int| 0 <= k < list.len() implies exists|i: int|
            0 <= i < entries.len() && holds_checkout(#[trigger] entries[i], (#[trigger] list[k]).1)
                && located(entries[i].path@, config.repo_root@, list[k].0@) && list[k].0@.len()
                > 0 by {
            assert(views[k] == (list[k].0@, list[k].1));
        }
        assert forall|j: int, k: int| 0 <= j < k < list.len() implies !under(
            path_resolve::components((#[trigger] list[k]).0@),
            path_resolve::components((#[trigger] list[j]).0@),
        ) by {
            assert(views[k].0 == list[k].0@ && views[j].0 == list[j].0@);
        }
    }
}

/// The sizes of the first `n` files of a batch.
pub open spec fn bytes_of(batch: Seq<RecordView>, n: int) -> nat
    decreases n,
{
    if n <= 0 {
        0
    } else {
        bytes_of(batch, n - 1) + batch[n - 1].size as nat
    }
}

proof fn lemma_bytes(batch: Seq<RecordView>, limit: u64, n: int)
    requires
        0 <= n <= batch.len(),
    ensures
        walk::batch_size(batch.take(n), limit) <= bytes_of(batch, n),
        (forall|i: int| 0 <= i < n ==> (#[trigger] batch[i]).size <= limit) ==> walk::batch_size(
            batch.take(n),
            limit,
        ) == bytes_of(batch, n),
    decreases n,
{
    if n > 0 {
        lemma_bytes(batch, limit, n - 1);
        assert(batch.take(n).drop_last() =~= batch.take(n - 1));
        assert(batch.take(n).last() == batch[n - 1]);
    }
}

proof fn lemma_at_least(batch: Seq<RecordView>, limit: u64, n: int, i: int, j: int)
    requires
        0 <= i < n <= batch.len(),
        0 <= j < n,
        i != j,
    ensures
        walk::batch_size(batch.take(n), limit) >= walk::capped(batch[i].size, limit)
            + walk::capped(batch[j].size, limit),
    decreases n,
{
    assert(batch.take(n).drop_last() =~= batch.take(n - 1));
    assert(batch.take(n).last() == batch[n - 1]);
    if i == n - 1 {
        lemma_one_at_least(batch, limit, n - 1, j);
    } else if j == n - 1 {
        lemma_one_at_least(batch, limit, n - 1, i);
    } else {
        lemma_at_least(batch, limit, n - 1, i, j);
    }
}

proof fn lemma_one_at_least(batch: Seq<RecordView>, limit: u64, n: int, i: int)
    requires
        0 <= i < n <= batch.len(),
    ensures
        walk::batch_size(batch.take(n), limit) >= walk::capped(batch[i].size, limit),
    decreases n,
{
    assert(batch.take(n).drop_last() =~= batch.take(n - 1));
    assert(batch.take(n).last() == batch[n - 1]);
    if i < n - 1 {
        lemma_one_at_least(batch, limit, n - 1, i);
    }
}

/// The batches hold every file once and in order, and none is empty. The files of a batch
/// are together within the limit, unless one of them is above it, and then the others have
/// no content; and with the first file of the next batch they would be above it.
pub proof fn law_batches_fill_up(files: Seq<RecordView>, limit: u64, k: int)
    requires
        0 <= k < walk::batches_of(files, limit).len(),
    ensures
        ({
            let batches = walk::batches_of(files, limit);
            let batch = batches[k];
            &&& walk::flat(batches) == files
            &&& batch.len() > 0
            &&& bytes_of(batch, batch.len() as int) <= limit || exists|i: int|
                0 <= i < batch.len() && (#[trigger] batch[i]).size > limit
            &&& forall|i: int, j: int|
                0 <= i < batch.len() && 0 <= j < batch.len() && i != j && (
                #[trigger] batch[i]).size > limit && limit > 0 ==> (#[trigger] batch[j]).size == 0
            &&& k + 1 < batches.len() ==> bytes_of(batch, batch.len() as int) + batches[k
                + 1][0].size > limit
        }),
{
    walk::law_batches_partition_the_files(files, limit);
    let batches = walk::batches_of(files, limit);
    let batch = batches[k];
    assert(batch.len() > 0 && walk::batch_size(batch, limit) <= limit);
    let n = batch.len() as int;
    assert(batch.take(n) =~= batch);
    lemma_bytes(batch, limit, n);
    assert forall|i: int, j: int|
        0 <= i < batch.len() && 0 <= j < batch.len() && i != j && (#[trigger] batch[i]).size
            > limit && limit > 0 implies (#[trigger] batch[j]).size == 0 by {
        lemma_at_least(batch, limit, n, i, j);
    }
    if k + 1 < batches.len() {
        assert(walk::is_full(batches[k], batches[k + 1], limit));
    }
}

proof fn lemma_flat_len(batches: Seq<Seq<RecordView>>, k: int)
    requires
        0 <= k < batches.len(),
    ensures
        batches[k].len() <= walk::flat(batches).len(),
    decreases batches.len(),
{
    if k < batches.len() - 1 {
        lemma_flat_len(batches.drop_last(), k);
    }
}

/// Every file of a batch is one of the files.
pub proof fn law_batches_hold_only_the_files(files: Seq<RecordView>, limit: u64, k: int)
    requires
        0 <= k < walk::batches_of(files, limit).len(),
    ensures
        walk::batches_of(files, limit)[k].len() <= files.len(),
{
    walk::law_batches_partition_the_files(files, limit);
    lemma_flat_len(walk::batches_of(files, limit), k);
}

} // verus!
