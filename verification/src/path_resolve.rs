//! Paths of callers as paths of the repository.
//!
//! A path is a list of components: the root of an absolute path, a leading dot,
//! and the names between slashes. Empty names and further dots do not count.

use crate::error::IndexError;
use crate::files;
use crate::git;
use crate::le;
use crate::paths;
use crate::paths::SLASH;
use vstd::prelude::*;

verus! {

/// The byte of a dot.
pub const DOT: u8 = 0x2E;

/// The root, as a component.
pub open spec fn root() -> Seq<u8> {
    seq![SLASH]
}

/// The directory itself, as a component.
pub open spec fn dot() -> Seq<u8> {
    seq![DOT]
}

/// The directory above, as a component.
pub open spec fn dot_dot() -> Seq<u8> {
    seq![DOT, DOT]
}

/// Length of the first name of a path.
pub open spec fn name_len(p: Seq<u8>) -> nat
    decreases p.len(),
{
    if p.len() == 0 || p[0] == SLASH {
        0
    } else {
        1 + name_len(p.skip(1))
    }
}

pub(crate) proof fn lemma_name_len(p: Seq<u8>)
    ensures
        name_len(p) <= p.len(),
        forall|i: int| 0 <= i < name_len(p) ==> p[i] != SLASH,
        name_len(p) < p.len() ==> p[name_len(p) as int] == SLASH,
    decreases p.len(),
{
    if p.len() > 0 && p[0] != SLASH {
        let t = p.skip(1);
        lemma_name_len(t);
        assert forall|i: int| 0 <= i < name_len(p) implies p[i] != SLASH by {
            if i > 0 {
                assert(t[i - 1] == p[i]);
            }
        }
        if name_len(p) < p.len() {
            assert(t[name_len(t) as int] == p[name_len(p) as int]);
        }
    }
}

pub(crate) proof fn lemma_name_len_is(p: Seq<u8>, n: nat)
    requires
        n <= p.len(),
        forall|i: int| 0 <= i < n ==> p[i] != SLASH,
        n < p.len() ==> p[n as int] == SLASH,
    ensures
        name_len(p) == n,
    decreases p.len(),
{
    if n > 0 {
        let t = p.skip(1);
        assert forall|i: int| 0 <= i < n - 1 implies t[i] != SLASH by {
            assert(t[i] == p[i + 1]);
        }
        lemma_name_len_is(t, (n - 1) as nat);
    }
}

/// The names between slashes; there is one more than there are slashes.
pub open spec fn names(p: Seq<u8>) -> Seq<Seq<u8>>
    decreases p.len(),
{
    let n = name_len(p);
    if n >= p.len() {
        seq![p]
    } else {
        seq![p.take(n as int)] + names(p.skip(n as int + 1))
    }
}

/// A name that is no component: it stands for the directory it is in.
pub open spec fn is_void(name: Seq<u8>) -> bool {
    name.len() == 0 || name == dot()
}

/// The names that are components.
pub open spec fn proper(ns: Seq<Seq<u8>>) -> Seq<Seq<u8>>
    decreases ns.len(),
{
    if ns.len() == 0 {
        Seq::empty()
    } else if is_void(ns[0]) {
        proper(ns.skip(1))
    } else {
        seq![ns[0]] + proper(ns.skip(1))
    }
}

/// What comes before the first proper name.
pub open spec fn head(p: Seq<u8>) -> Seq<Seq<u8>> {
    if p.len() > 0 && p[0] == SLASH {
        seq![root()]
    } else if names(p)[0] == dot() {
        seq![dot()]
    } else {
        Seq::empty()
    }
}

/// The components of a path.
pub open spec fn components(p: Seq<u8>) -> Seq<Seq<u8>> {
    head(p) + proper(names(p))
}

/// The path of components, with one slash between two of them. The root brings
/// its own.
pub open spec fn joined(cs: Seq<Seq<u8>>) -> Seq<u8>
    decreases cs.len(),
{
    if cs.len() == 0 {
        Seq::empty()
    } else if cs.len() == 1 {
        cs[0]
    } else if cs.len() == 2 && cs[0] == root() {
        cs[0] + cs[1]
    } else {
        joined(cs.drop_last()) + seq![SLASH] + cs.last()
    }
}

/// The path with the same components and no other slashes and dots. Two paths
/// are the same where these are.
pub open spec fn normal(p: Seq<u8>) -> Seq<u8> {
    joined(components(p))
}

/// The paths of a list in their normal form.
pub open spec fn normals(s: Seq<Seq<u8>>) -> Seq<Seq<u8>> {
    Seq::new(s.len(), |i: int| normal(s[i]))
}

/// Splits a path into names.
pub fn split_names(p: &[u8]) -> (r: Vec<Vec<u8>>)
    ensures
        paths::path_views(r@) == names(p@),
{
    let mut r: Vec<Vec<u8>> = Vec::new();
    let mut start: usize = 0;
    let mut i: usize = 0;
    assert(paths::path_views(r@) + names(p@.skip(0)) =~= names(p@)) by {
        assert(p@.skip(0) =~= p@);
    }
    while i < p.len()
        invariant
            start <= i <= p@.len(),
            forall|k: int| start <= k < i ==> p@[k] != SLASH,
            paths::path_views(r@) + names(p@.skip(start as int)) == names(p@),
        decreases p@.len() - i,
    {
        if p[i] == SLASH {
            let ghost before = paths::path_views(r@);
            let ghost t = p@.skip(start as int);
            r.push(le::copy_range(p, start, i));
            proof {
                lemma_name_len_is(t, (i - start) as nat);
                let after = paths::path_views(r@);
                assert(after =~= before.push(t.take(i - start))) by {
                    assert(t.take(i - start) =~= p@.subrange(start as int, i as int));
                }
                assert(t.skip(i - start + 1) =~= p@.skip(i + 1));
                assert(before + names(t) =~= after + names(p@.skip(i + 1)));
            }
            start = i + 1;
        }
        i = i + 1;
    }
    let ghost t = p@.skip(start as int);
    let ghost before = paths::path_views(r@);
    r.push(le::copy_range(p, start, i));
    proof {
        lemma_name_len_is(t, t.len());
        assert(p@.subrange(start as int, i as int) =~= t);
        assert(names(t) =~= seq![t]);
        assert(paths::path_views(r@) =~= before + names(t));
    }
    r
}

fn is_void_name(name: &Vec<u8>) -> (r: bool)
    ensures
        r == is_void(name@),
{
    let r: bool = name.len() == 0 || (name.len() == 1 && name[0] == DOT);
    proof {
        if name@.len() == 1 && name@[0] == DOT {
            assert(name@ =~= dot());
        }
    }
    r
}

/// The components of a path.
pub fn split_components(p: &[u8]) -> (r: Vec<Vec<u8>>)
    ensures
        paths::path_views(r@) == components(p@),
{
    let mut ns = split_names(p);
    let ghost all = names(p@);
    let mut r: Vec<Vec<u8>> = Vec::new();
    proof {
        assert(all.len() > 0);
        assert(paths::path_views(ns@)[0] == all[0]);
    }
    if p.len() > 0 && p[0] == SLASH {
        let mut v: Vec<u8> = Vec::new();
        v.push(SLASH);
        assert(v@ =~= root());
        r.push(v);
    } else if ns[0].len() == 1 && ns[0][0] == DOT {
        let mut v: Vec<u8> = Vec::new();
        v.push(DOT);
        assert(v@ =~= dot());
        assert(all[0] =~= dot());
        r.push(v);
    }
    assert(paths::path_views(r@) =~= head(p@));
    while ns.len() > 0
        invariant
            paths::path_views(r@) + proper(paths::path_views(ns@)) == components(p@),
        decreases ns@.len(),
    {
        let ghost rest = paths::path_views(ns@);
        let ghost before = paths::path_views(r@);
        let n = ns.remove(0);
        proof {
            assert(rest[0] == n@);
            assert(paths::path_views(ns@) =~= rest.skip(1));
        }
        if !is_void_name(&n) {
            let ghost nv = n@;
            r.push(n);
            proof {
                assert(paths::path_views(r@) =~= before.push(nv));
                assert(before + (seq![nv] + proper(rest.skip(1))) =~= before.push(nv) + proper(
                    rest.skip(1),
                ));
            }
        }
    }
    assert(proper(paths::path_views(ns@)) =~= Seq::<Seq<u8>>::empty());
    assert(paths::path_views(r@) =~= components(p@));
    r
}

/// Two lists of components are the same up to `n`.
pub open spec fn agree(a: Seq<Seq<u8>>, b: Seq<Seq<u8>>, n: int) -> bool {
    forall|i: int| 0 <= i < n ==> #[trigger] a[i] == b[i]
}

/// The components of `p` after those of `base`, where it starts with them.
pub open spec fn stripped(p: Seq<u8>, base: Seq<u8>) -> Option<Seq<Seq<u8>>> {
    let a = components(p);
    let b = components(base);
    if b.len() <= a.len() && agree(a, b, b.len() as int) {
        Some(a.skip(b.len() as int))
    } else {
        None
    }
}

/// The components of `p` after those of `base`.
pub fn strip_prefix(p: &[u8], base: &[u8]) -> (r: Option<Vec<Vec<u8>>>)
    ensures
        match r {
            Some(v) => stripped(p@, base@) == Some(paths::path_views(v@)),
            None => stripped(p@, base@) is None,
        },
{
    let a = split_components(p);
    let b = split_components(base);
    let ghost av = components(p@);
    let ghost bv = components(base@);
    if b.len() > a.len() {
        return None;
    }
    let mut i: usize = 0;
    while i < b.len()
        invariant
            av == paths::path_views(a@),
            bv == paths::path_views(b@),
            av == components(p@),
            bv == components(base@),
            av.len() == a@.len(),
            bv.len() == b@.len(),
            b@.len() <= a@.len(),
            i <= b@.len(),
            agree(av, bv, i as int),
        decreases b@.len() - i,
    {
        assert(av[i as int] == a@[i as int]@);
        assert(bv[i as int] == b@[i as int]@);
        if !le::bytes_eq(a[i].as_slice(), b[i].as_slice()) {
            assert(av[i as int] != bv[i as int]);
            assert(!agree(av, bv, bv.len() as int));
            return None;
        }
        i = i + 1;
    }
    let mut r: Vec<Vec<u8>> = Vec::new();
    assert(paths::path_views(r@) =~= av.subrange(bv.len() as int, i as int));
    while i < a.len()
        invariant
            av == paths::path_views(a@),
            av.len() == a@.len(),
            bv.len() <= i <= a@.len(),
            paths::path_views(r@) == av.subrange(bv.len() as int, i as int),
        decreases a@.len() - i,
    {
        let ghost before = paths::path_views(r@);
        r.push(le::bytes_clone(a[i].as_slice()));
        proof {
            assert(av[i as int] == a@[i as int]@);
            assert(paths::path_views(r@) =~= before.push(av[i as int]));
            assert(av.subrange(bv.len() as int, i + 1) =~= before.push(av[i as int]));
        }
        i = i + 1;
    }
    assert(av.subrange(bv.len() as int, i as int) =~= av.skip(bv.len() as int));
    Some(r)
}

/// A component that leads out of the directory a path is taken from.
pub open spec fn leads_out(c: Seq<u8>) -> bool {
    c == root() || c == dot_dot()
}

/// A component leads out.
pub open spec fn escapes(cs: Seq<Seq<u8>>) -> bool {
    exists|i: int| 0 <= i < cs.len() && leads_out(#[trigger] cs[i])
}

fn is_escaping(cs: &Vec<Vec<u8>>) -> (r: bool)
    ensures
        r == escapes(paths::path_views(cs@)),
{
    let ghost v = paths::path_views(cs@);
    let mut i: usize = 0;
    while i < cs.len()
        invariant
            v == paths::path_views(cs@),
            v.len() == cs@.len(),
            i <= cs@.len(),
            forall|k: int| 0 <= k < i ==> !leads_out(#[trigger] v[k]),
        decreases cs@.len() - i,
    {
        let c = &cs[i];
        assert(v[i as int] == c@);
        if (c.len() == 1 && c[0] == SLASH) || (c.len() == 2 && c[0] == DOT && c[1] == DOT) {
            proof {
                if c@.len() == 1 {
                    assert(c@ =~= root());
                } else {
                    assert(c@ =~= dot_dot());
                }
                assert(leads_out(v[i as int]));
            }
            return true;
        }
        i = i + 1;
    }
    false
}

/// Whether a component of the path leads out of the directory it is taken from.
pub fn leads_outside(p: &[u8]) -> (r: bool)
    ensures
        r == escapes(components(p@)),
{
    is_escaping(&split_components(p))
}

/// The path of components.
pub fn join_components(cs: &Vec<Vec<u8>>) -> (r: Vec<u8>)
    ensures
        r@ == joined(paths::path_views(cs@)),
{
    let ghost v = paths::path_views(cs@);
    let mut r: Vec<u8> = Vec::new();
    let mut i: usize = 0;
    assert(r@ =~= joined(v.take(0)));
    while i < cs.len()
        invariant
            v == paths::path_views(cs@),
            v.len() == cs@.len(),
            i <= cs@.len(),
            r@ == joined(v.take(i as int)),
        decreases cs@.len() - i,
    {
        let ghost before = r@;
        assert(v[i as int] == cs@[i as int]@);
        assert(v.take(i + 1).drop_last() =~= v.take(i as int));
        let after_root: bool = i == 1 && cs[0].len() == 1 && cs[0][0] == SLASH;
        proof {
            if i == 1 {
                assert(v[0] == cs@[0]@);
                assert(v.take(2)[0] == v[0]);
                assert(v.take(1)[0] == v[0]);
                assert(after_root <==> v[0] == root()) by {
                    if after_root {
                        assert(v[0] =~= root());
                    }
                }
            }
        }
        if i > 0 && !after_root {
            r.push(SLASH);
        }
        le::push_bytes(&mut r, cs[i].as_slice());
        proof {
            if after_root {
                assert(r@ =~= v[0] + v[1]);
            } else if i > 0 {
                assert(r@ =~= before + seq![SLASH] + v[i as int]);
            } else {
                assert(r@ =~= v[0]);
            }
        }
        i = i + 1;
    }
    assert(v.take(i as int) =~= v);
    r
}

/// The normal form of a path.
pub fn normal_path(p: &[u8]) -> (r: Vec<u8>)
    ensures
        r@ == normal(p@),
{
    join_components(&split_components(p))
}

/// Whether two paths have the same components.
pub fn same_path(a: &[u8], b: &[u8]) -> (r: bool)
    ensures
        r == (components(a@) == components(b@)),
{
    proof {
        law_normal_form_tells_paths_apart(a@, b@);
    }
    le::bytes_eq(normal_path(a).as_slice(), normal_path(b).as_slice())
}

/// The path `rel` taken from the directory `dir`.
pub open spec fn path_in(dir: Seq<u8>, rel: Seq<u8>) -> Seq<u8> {
    if dir.len() == 0 || (rel.len() > 0 && rel[0] == SLASH) {
        rel
    } else if dir.last() == SLASH {
        dir + rel
    } else {
        dir + seq![SLASH] + rel
    }
}

/// The path `rel` taken from the directory `dir`.
pub fn join_path(dir: &[u8], rel: &[u8]) -> (r: Vec<u8>)
    ensures
        r@ == path_in(dir@, rel@),
{
    if dir.len() == 0 || (rel.len() > 0 && rel[0] == SLASH) {
        return le::bytes_clone(rel);
    }
    let mut r = le::bytes_clone(dir);
    if dir[dir.len() - 1] != SLASH {
        r.push(SLASH);
    }
    le::push_bytes(&mut r, rel);
    assert(r@ =~= path_in(dir@, rel@));
    r
}

/// What is known of the directories that a path goes through.
#[derive(Debug)]
pub enum ParentSight {
    /// None of them is a symlink.
    Plain,
    /// One is a symlink; the directory of the file resolves to this path.
    Linked(Vec<u8>),
}

/// The last component is the name of a file.
pub open spec fn has_file_name(cs: Seq<Seq<u8>>) -> bool {
    cs.len() > 0 && cs.last() != dot() && !leads_out(cs.last())
}

/// Whether the last component is the name of a file.
pub fn names_file(cs: &Vec<Vec<u8>>) -> (r: bool)
    ensures
        r == has_file_name(paths::path_views(cs@)),
{
    let ghost v = paths::path_views(cs@);
    if cs.len() == 0 {
        return false;
    }
    let c = &cs[cs.len() - 1];
    assert(v.last() == c@);
    proof {
        if c@.len() == 1 && c@[0] == DOT {
            assert(c@ =~= dot());
        }
        if c@.len() == 1 && c@[0] == SLASH {
            assert(c@ =~= root());
        }
        if c@.len() == 2 && c@[0] == DOT && c@[1] == DOT {
            assert(c@ =~= dot_dot());
        }
    }
    !((c.len() == 1 && (c[0] == DOT || c[0] == SLASH)) || (c.len() == 2 && c[0] == DOT && c[1]
        == DOT))
}

/// A path of components that goes through `parent`.
pub open spec fn normalized(
    rel: Seq<Seq<u8>>,
    parent: ParentSight,
    repo_root: Seq<u8>,
    canonical_root: Seq<u8>,
) -> Result<Seq<u8>, Seq<u8>> {
    match parent {
        ParentSight::Plain => Ok(joined(rel)),
        ParentSight::Linked(dir) => match stripped(dir@, canonical_root) {
            None => Err(path_in(repo_root, joined(rel))),
            Some(cs) => if has_file_name(rel) {
                Ok(joined(cs.push(rel.last())))
            } else {
                Ok(joined(rel))
            },
        },
    }
}

/// The path of the repository that a path of a caller names, or the path that
/// lies outside of it. Both forms of the root are tried, as given and resolved.
pub open spec fn resolved(
    path: Seq<u8>,
    parent: ParentSight,
    repo_root: Seq<u8>,
    canonical_root: Seq<u8>,
) -> Result<Seq<u8>, Seq<u8>> {
    let rel = match stripped(path, repo_root) {
        Some(cs) => Some(cs),
        None => stripped(path, canonical_root),
    };
    match rel {
        None => Err(path),
        Some(cs) => if escapes(cs) {
            Err(path)
        } else {
            normalized(cs, parent, repo_root, canonical_root)
        },
    }
}

/// A result of path resolution as the error type states it.
pub open spec fn is_resolution(
    r: Result<Vec<u8>, IndexError>,
    v: Result<Seq<u8>, Seq<u8>>,
) -> bool {
    match v {
        Ok(p) => r matches Ok(q) && q@ == p,
        Err(p) => r matches Err(IndexError::PathOutsideRepo(q)) && q@ == p,
    }
}

fn normalize_repo_relative_path(
    rel: Vec<Vec<u8>>,
    parent: &ParentSight,
    repo_root: &[u8],
    canonical_root: &[u8],
) -> (r: Result<Vec<u8>, IndexError>)
    ensures
        is_resolution(
            r,
            normalized(paths::path_views(rel@), *parent, repo_root@, canonical_root@),
        ),
{
    let ghost v = paths::path_views(rel@);
    match parent {
        ParentSight::Plain => Ok(join_components(&rel)),
        ParentSight::Linked(dir) => {
            match strip_prefix(dir.as_slice(), canonical_root) {
                None => {
                    let tail = join_components(&rel);
                    Err(IndexError::PathOutsideRepo(join_path(repo_root, tail.as_slice())))
                },
                Some(mut cs) => {
                    if rel.len() == 0 {
                        return Ok(join_components(&rel));
                    }
                    let last = &rel[rel.len() - 1];
                    assert(v.last() == last@);
                    if (last.len() == 1 && (last[0] == DOT || last[0] == SLASH)) || (last.len()
                        == 2 && last[0] == DOT && last[1] == DOT) {
                        proof {
                            if last@.len() == 1 {
                                assert(last@ =~= dot() || last@ =~= root());
                            } else {
                                assert(last@ =~= dot_dot());
                            }
                        }
                        return Ok(join_components(&rel));
                    }
                    let ghost c = paths::path_views(cs@);
                    cs.push(le::bytes_clone(last.as_slice()));
                    assert(paths::path_views(cs@) =~= c.push(v.last()));
                    Ok(join_components(&cs))
                },
            }
        },
    }
}

/// The path of the repository that `path` names. `parent` tells of the
/// directories on the way to it.
pub fn repo_relative_path(
    path: &[u8],
    parent: &ParentSight,
    repo_root: &[u8],
    canonical_root: &[u8],
) -> (r: Result<Vec<u8>, IndexError>)
    ensures
        is_resolution(r, resolved(path@, *parent, repo_root@, canonical_root@)),
{
    let first = strip_prefix(path, repo_root);
    let rel = match first {
        Some(cs) => cs,
        None => match strip_prefix(path, canonical_root) {
            Some(cs) => cs,
            None => {
                return Err(IndexError::PathOutsideRepo(le::bytes_clone(path)));
            },
        },
    };
    if is_escaping(&rel) {
        return Err(IndexError::PathOutsideRepo(le::bytes_clone(path)));
    }
    normalize_repo_relative_path(rel, parent, repo_root, canonical_root)
}

/// What stands at a directory on the way to a file.
#[derive(Debug, Clone, Copy, PartialEq, Eq, Structural)]
pub enum EntryKind {
    Symlink,
    Other,
    Missing,
    /// It could not be looked at.
    Failed,
}

/// The component names a file or a directory.
pub open spec fn is_name(c: Seq<u8>) -> bool {
    c != dot() && !leads_out(c)
}

/// The named components.
pub open spec fn named(cs: Seq<Seq<u8>>) -> Seq<Seq<u8>>
    decreases cs.len(),
{
    if cs.len() == 0 {
        Seq::empty()
    } else if is_name(cs.last()) {
        named(cs.drop_last()).push(cs.last())
    } else {
        named(cs.drop_last())
    }
}

/// Whether a directory on the way is a symlink: the first that is one, is
/// missing or cannot be looked at decides.
pub open spec fn linked(kinds: Seq<EntryKind>, i: int) -> Result<bool, int>
    decreases kinds.len() - i,
{
    if i < 0 || i >= kinds.len() {
        Ok(false)
    } else {
        match kinds[i] {
            EntryKind::Symlink => Ok(true),
            EntryKind::Other => linked(kinds, i + 1),
            EntryKind::Missing => Ok(false),
            EntryKind::Failed => Err(i),
        }
    }
}

/// Whether a directory on the way is a symlink, or which could not be looked
/// at. `kinds` tells of them from the root on.
pub fn path_has_intermediate_symlink(kinds: &Vec<EntryKind>) -> (r: Result<bool, usize>)
    ensures
        match linked(kinds@, 0) {
            Ok(b) => r == Ok::<bool, usize>(b),
            Err(i) => r matches Err(k) && k == i,
        },
{
    let mut i: usize = 0;
    while i < kinds.len()
        invariant
            i <= kinds@.len(),
            linked(kinds@, 0) == linked(kinds@, i as int),
        decreases kinds@.len() - i,
    {
        match kinds[i] {
            EntryKind::Symlink => {
                return Ok(true);
            },
            EntryKind::Other => {},
            EntryKind::Missing => {
                return Ok(false);
            },
            EntryKind::Failed => {
                return Err(i);
            },
        }
        i = i + 1;
    }
    Ok(false)
}

/// The directories between the root and the file of a path, from the root on.
pub open spec fn intermediate(cs: Seq<Seq<u8>>) -> Seq<Seq<u8>> {
    let ns = named(cs);
    let n = if cs.len() > 0 && is_name(cs.last()) {
        (ns.len() - 1) as nat
    } else {
        ns.len()
    };
    Seq::new(n, |i: int| joined(ns.take(i + 1)))
}

/// The directories between the root and the file of a relative path: those to
/// look at for symlinks.
pub fn intermediate_directories(rel: &[u8]) -> (r: Vec<Vec<u8>>)
    ensures
        paths::path_views(r@) == intermediate(components(rel@)),
{
    let cs = split_components(rel);
    let ghost cv = components(rel@);
    let ghost ns = named(cv);
    let mut prefix: Vec<Vec<u8>> = Vec::new();
    let mut r: Vec<Vec<u8>> = Vec::new();
    let mut i: usize = 0;
    assert(paths::path_views(prefix@) =~= named(cv.take(0)));
    assert(cv.take(cv.len() as int) =~= cv);
    while i < cs.len()
        invariant
            cv == paths::path_views(cs@),
            cv.len() == cs@.len(),
            i <= cs@.len(),
            ns == named(cv),
            paths::path_views(prefix@) == named(cv.take(i as int)),
            r@.len() == (if i == cs@.len() && i > 0 && is_name(cv.last()) {
                (prefix@.len() - 1) as nat
            } else {
                prefix@.len()
            }),
            i == cs@.len() && i > 0 && is_name(cv.last()) ==> prefix@.len() > 0,
            forall|k: int|
                0 <= k < r@.len() ==> #[trigger] paths::path_views(r@)[k] == joined(
                    named(cv.take(i as int)).take(k + 1),
                ),
        decreases cs@.len() - i,
    {
        let c = &cs[i];
        let ghost pv = named(cv.take(i as int));
        let ghost rv = paths::path_views(r@);
        proof {
            assert(cv[i as int] == c@);
            assert(cv.take(i + 1).drop_last() =~= cv.take(i as int));
            assert(cv.take(i + 1).last() == c@);
        }
        let plain: bool = !((c.len() == 1 && (c[0] == DOT || c[0] == SLASH)) || (c.len() == 2
            && c[0] == DOT && c[1] == DOT));
        proof {
            if c@.len() == 1 {
                if c@[0] == DOT {
                    assert(c@ =~= dot());
                }
                if c@[0] == SLASH {
                    assert(c@ =~= root());
                }
            }
            if c@.len() == 2 && c@[0] == DOT && c@[1] == DOT {
                assert(c@ =~= dot_dot());
            }
            assert(plain == is_name(c@));
        }
        if plain {
            prefix.push(le::bytes_clone(c.as_slice()));
            assert(paths::path_views(prefix@) =~= pv.push(c@));
            if i + 1 < cs.len() {
                r.push(join_components(&prefix));
            }
        }
        proof {
            let nv = named(cv.take(i + 1));
            assert forall|k: int| 0 <= k < r@.len() implies #[trigger] paths::path_views(r@)[k]
                == joined(nv.take(k + 1)) by {
                if k < rv.len() {
                    assert(paths::path_views(r@)[k] == rv[k]);
                    assert(nv.take(k + 1) =~= pv.take(k + 1));
                } else {
                    assert(nv.take(k + 1) =~= nv);
                }
            }
        }
        i = i + 1;
    }
    proof {
        assert(cv.take(i as int) =~= cv);
        assert(paths::path_views(r@) =~= intermediate(cv));
    }
    r
}

pub(crate) proof fn lemma_proper_names(p: Seq<u8>, i: int)
    requires
        0 <= i < proper(names(p)).len(),
    ensures
        proper(names(p))[i].len() > 0,
        !files::has_byte(proper(names(p))[i], SLASH),
        proper(names(p))[i] != dot(),
    decreases p.len(),
{
    let n = name_len(p);
    lemma_name_len(p);
    let ns = names(p);
    if n >= p.len() {
        assert(ns.skip(1) =~= Seq::<Seq<u8>>::empty());
        assert(proper(ns.skip(1)).len() == 0);
        assert(ns[0] == p);
    } else {
        let rest = p.skip(n as int + 1);
        assert(ns.skip(1) =~= names(rest));
        if is_void(ns[0]) {
            lemma_proper_names(rest, i);
        } else if i > 0 {
            lemma_proper_names(rest, i - 1);
        } else {
            assert(ns[0] == p.take(n as int));
        }
    }
}

/// The components are names, none of which leads out.
pub open spec fn keeps_inside(cs: Seq<Seq<u8>>) -> bool {
    forall|i: int|
        0 <= i < cs.len() ==> (#[trigger] cs[i]).len() > 0 && !files::has_byte(cs[i], SLASH)
            && cs[i] != dot_dot()
}

proof fn lemma_joined_stays_inside(cs: Seq<Seq<u8>>)
    requires
        keeps_inside(cs),
    ensures
        git::stays_inside(joined(cs)),
        cs.len() > 0 ==> joined(cs).len() > 0,
    decreases cs.len(),
{
    let p = joined(cs);
    if cs.len() == 0 {
        assert(!git::has_parent(p));
    } else {
        let c = cs.last();
        assert(c == cs[cs.len() - 1]);
        assert(c[0] != SLASH);
        if cs.len() == 1 {
            if git::has_parent(p) {
                let i = choose|i: int| git::parent_at(p, i);
                if i > 0 {
                    assert(p[i - 1] == SLASH);
                } else if p.len() > 2 {
                    assert(p[2] == SLASH);
                } else {
                    assert(p =~= dot_dot());
                }
                assert(false);
            }
        } else {
            let a = cs.drop_last();
            assert(keeps_inside(a));
            lemma_joined_stays_inside(a);
            let j = joined(a);
            let n = j.len() as int;
            if cs[0] == root() {
                assert(cs[0][0] == SLASH);
            }
            assert(p =~= j + seq![SLASH] + c);
            assert(p[0] == j[0]);
            assert(p[n] == SLASH);
            if git::has_parent(p) {
                let i = choose|i: int| git::parent_at(p, i);
                if i + 2 <= n {
                    assert(j[i] == p[i] && j[i + 1] == p[i + 1]);
                    if i > 0 {
                        assert(j[i - 1] == p[i - 1]);
                    }
                    if i + 2 < n {
                        assert(j[i + 2] == p[i + 2]);
                    }
                    assert(git::parent_at(j, i));
                } else {
                    assert(i != n);
                    assert(i != n - 1);
                    let k = i - n - 1;
                    assert(c[k] == p[i] && c[k + 1] == p[i + 1]);
                    if k > 0 {
                        assert(c[k - 1] == p[i - 1]);
                    } else if c.len() > 2 {
                        assert(c[2] == p[i + 2]);
                    } else {
                        assert(c =~= dot_dot());
                    }
                }
                assert(false);
            }
        }
    }
}

proof fn lemma_component(p: Seq<u8>, i: int)
    requires
        0 <= i < components(p).len(),
        !leads_out(components(p)[i]),
    ensures
        components(p)[i].len() > 0,
        !files::has_byte(components(p)[i], SLASH),
{
    let h = head(p);
    if i >= h.len() {
        assert(components(p)[i] == proper(names(p))[i - h.len()]);
        lemma_proper_names(p, i - h.len());
    } else {
        assert(components(p)[i] == h[0]);
        assert(h[0] == dot());
    }
}

proof fn lemma_stripped_keeps_inside(p: Seq<u8>, base: Seq<u8>)
    requires
        stripped(p, base) matches Some(cs) && !escapes(cs),
    ensures
        keeps_inside(stripped(p, base)->0),
{
    let cs = stripped(p, base)->0;
    let n = components(base).len();
    assert forall|i: int| 0 <= i < cs.len() implies (#[trigger] cs[i]).len() > 0
        && !files::has_byte(cs[i], SLASH) && cs[i] != dot_dot() by {
        assert(cs[i] == components(p)[i + n]);
        assert(!leads_out(cs[i]));
        lemma_component(p, i + n);
    }
}

/// The directory is a resolved one: no component leads out of where the path
/// has led so far.
pub open spec fn is_canonical(parent: ParentSight) -> bool {
    parent matches ParentSight::Linked(dir) ==> forall|i: int|
        0 < i < components(dir@).len() ==> !leads_out(#[trigger] components(dir@)[i])
}

/// A path that resolves never leads out of the repository.
pub proof fn law_resolved_paths_stay_inside(
    path: Seq<u8>,
    parent: ParentSight,
    repo_root: Seq<u8>,
    canonical_root: Seq<u8>,
)
    requires
        is_canonical(parent),
        components(canonical_root).len() > 0,
        resolved(path, parent, repo_root, canonical_root) is Ok,
    ensures
        git::stays_inside(resolved(path, parent, repo_root, canonical_root)->Ok_0),
{
    let base = if stripped(path, repo_root) is Some {
        repo_root
    } else {
        canonical_root
    };
    let rel = stripped(path, base)->0;
    lemma_stripped_keeps_inside(path, base);
    match parent {
        ParentSight::Plain => {
            lemma_joined_stays_inside(rel);
        },
        ParentSight::Linked(dir) => {
            if has_file_name(rel) {
                let cs = stripped(dir@, canonical_root)->0;
                let n = components(canonical_root).len();
                assert(!escapes(cs)) by {
                    if escapes(cs) {
                        let i = choose|i: int| 0 <= i < cs.len() && leads_out(#[trigger] cs[i]);
                        assert(cs[i] == components(dir@)[i + n]);
                    }
                }
                lemma_stripped_keeps_inside(dir@, canonical_root);
                let all = cs.push(rel.last());
                assert forall|i: int| 0 <= i < all.len() implies (#[trigger] all[i]).len() > 0
                    && !files::has_byte(all[i], SLASH) && all[i] != dot_dot() by {
                    if i < cs.len() {
                        assert(all[i] == cs[i]);
                    } else {
                        assert(all[i] == rel[rel.len() - 1]);
                    }
                }
                lemma_joined_stays_inside(all);
            } else {
                lemma_joined_stays_inside(rel);
            }
        },
    }
}

/// Components as a path has them: the root and the dot come first if at all, and
/// the others are names.
pub(crate) open spec fn is_list(cs: Seq<Seq<u8>>) -> bool {
    forall|i: int|
        0 <= i < cs.len() ==> (#[trigger] cs[i]).len() > 0 && ((i == 0 && cs[i] == root()) || (
        !files::has_byte(cs[i], SLASH) && (i == 0 || cs[i] != dot())))
}

/// Names without slashes.
pub(crate) open spec fn are_names(cs: Seq<Seq<u8>>) -> bool {
    forall|i: int|
        0 <= i < cs.len() ==> (#[trigger] cs[i]).len() > 0 && !files::has_byte(cs[i], SLASH)
}

pub(crate) proof fn lemma_components_list(p: Seq<u8>)
    ensures
        is_list(components(p)),
{
    let cs = components(p);
    let ns = proper(names(p));
    let n = head(p).len() as int;
    assert forall|i: int| 0 <= i < cs.len() implies (#[trigger] cs[i]).len() > 0 && ((i == 0
        && cs[i] == root()) || (!files::has_byte(cs[i], SLASH) && (i == 0 || cs[i] != dot()))) by {
        if i >= n {
            assert(cs[i] == ns[i - n]);
            lemma_proper_names(p, i - n);
        } else {
            assert(cs[i] == head(p)[i]);
        }
    }
}

/// A path that is extended by a name has one more name.
proof fn lemma_names_push(p: Seq<u8>, c: Seq<u8>)
    requires
        !files::has_byte(c, SLASH),
    ensures
        names(p + seq![SLASH] + c) == names(p).push(c),
    decreases p.len(),
{
    let all = p + seq![SLASH] + c;
    let n = name_len(p);
    lemma_name_len(p);
    lemma_name_len_is(all, n);
    assert(all.take(n as int) =~= p.take(n as int));
    if n >= p.len() {
        assert(p.take(n as int) =~= p);
        assert(all.skip(n as int + 1) =~= c);
        lemma_name_len_is(c, c.len());
        assert(names(c) =~= seq![c]);
        assert(names(all) == seq![all.take(n as int)] + names(all.skip(n as int + 1)));
        assert(names(all) =~= seq![p] + seq![c]);
        assert(names(p).push(c) =~= seq![p] + seq![c]);
    } else {
        let rest = p.skip(n as int + 1);
        assert(all.skip(n as int + 1) =~= rest + seq![SLASH] + c);
        lemma_names_push(rest, c);
        assert(names(all) =~= names(p).push(c));
    }
}

/// Joined names are told apart again.
pub(crate) proof fn lemma_names_joined(cs: Seq<Seq<u8>>)
    requires
        cs.len() > 0,
        are_names(cs),
    ensures
        names(joined(cs)) == cs,
    decreases cs.len(),
{
    if cs.len() == 1 {
        let c = cs[0];
        lemma_name_len_is(c, c.len());
        assert(cs =~= seq![c]);
    } else {
        if cs[0] == root() {
            assert(cs[0][0] == SLASH);
        }
        let front = cs.drop_last();
        assert(are_names(front));
        assert(cs.last() == cs[cs.len() - 1]);
        lemma_names_joined(front);
        lemma_names_push(joined(front), cs.last());
        assert(cs =~= front.push(cs.last()));
    }
}

/// Names that all count are all kept.
proof fn lemma_proper_all(ns: Seq<Seq<u8>>)
    requires
        forall|i: int| 0 <= i < ns.len() ==> !is_void(#[trigger] ns[i]),
    ensures
        proper(ns) == ns,
    decreases ns.len(),
{
    if ns.len() > 0 {
        let rest = ns.skip(1);
        assert forall|i: int| 0 <= i < rest.len() implies !is_void(#[trigger] rest[i]) by {
            assert(rest[i] == ns[i + 1]);
        }
        lemma_proper_all(rest);
        assert(ns =~= seq![ns[0]] + rest);
    } else {
        assert(ns =~= Seq::<Seq<u8>>::empty());
    }
}

/// An absolute path is a slash and the path of the names after it.
pub(crate) proof fn lemma_joined_root(cs: Seq<Seq<u8>>)
    requires
        cs.len() > 0,
        cs[0] == root(),
        are_names(cs.skip(1)),
    ensures
        joined(cs) == root() + joined(cs.skip(1)),
    decreases cs.len(),
{
    let rest = cs.skip(1);
    if cs.len() == 1 {
        assert(root() + joined(rest) =~= root());
    } else if cs.len() == 2 {
        assert(rest =~= seq![cs[1]]);
    } else {
        let front = cs.drop_last();
        assert(front.skip(1) =~= rest.drop_last());
        assert(are_names(front.skip(1)));
        lemma_joined_root(front);
        assert(rest.last() == cs.last());
        if rest[0] == root() {
            assert(rest[0][0] == SLASH);
        }
        assert(joined(cs) =~= root() + joined(rest));
    }
}

/// Components are told apart again in the path that they make.
pub(crate) proof fn lemma_components_joined(cs: Seq<Seq<u8>>)
    requires
        is_list(cs),
    ensures
        components(joined(cs)) == cs,
{
    let p = joined(cs);
    if cs.len() == 0 {
        lemma_name_len_is(p, 0);
        assert(names(p) =~= seq![p]);
        assert(names(p)[0].len() == 0);
        assert(names(p).skip(1).len() == 0);
        assert(proper(names(p).skip(1)).len() == 0);
        assert(components(p) =~= cs);
    } else {
        let rest = cs.skip(1);
        assert forall|i: int| 0 <= i < rest.len() implies (#[trigger] rest[i]).len() > 0
            && !files::has_byte(rest[i], SLASH) && !is_void(rest[i]) by {
            assert(rest[i] == cs[i + 1]);
        }
        lemma_proper_all(rest);
        assert(cs =~= seq![cs[0]] + rest);
        if cs[0] == root() {
            let q = joined(rest);
            lemma_joined_root(cs);
            assert(p[0] == SLASH);
            lemma_name_len_is(p, 0);
            assert(p.skip(1) =~= q);
            assert(p.take(0) =~= Seq::<u8>::empty());
            assert(names(p) == seq![p.take(0)] + names(q));
            assert(names(p).skip(1) =~= names(q));
            assert(is_void(names(p)[0]));
            assert(proper(names(p)) == proper(names(q)));
            if rest.len() == 0 {
                lemma_name_len_is(q, 0);
                assert(names(q) =~= seq![q]);
                assert(names(q).skip(1).len() == 0);
                assert(proper(names(q).skip(1)).len() == 0);
                assert(proper(names(q)) =~= rest);
            } else {
                lemma_names_joined(rest);
            }
        } else {
            assert(are_names(cs));
            lemma_names_joined(cs);
            if p.len() == 0 || p[0] == SLASH {
                lemma_name_len_is(p, 0);
                assert(names(p)[0].len() == 0);
            }
            if cs[0] == dot() {
                assert(proper(cs) == proper(rest));
            } else {
                assert forall|i: int| 0 <= i < cs.len() implies !is_void(#[trigger] cs[i]) by {
                    if i > 0 {
                        assert(cs[i] == rest[i - 1]);
                    }
                }
                lemma_proper_all(cs);
            }
        }
        assert(components(p) =~= cs);
    }
}

/// The normal form has the components of the path, and is its own normal form.
pub proof fn law_normal_form_keeps_components(p: Seq<u8>)
    ensures
        components(normal(p)) == components(p),
        normal(normal(p)) == normal(p),
{
    lemma_components_list(p);
    lemma_components_joined(components(p));
}

/// Two paths have the same normal form exactly if they have the same components.
pub proof fn law_normal_form_tells_paths_apart(a: Seq<u8>, b: Seq<u8>)
    ensures
        normal(a) == normal(b) <==> components(a) == components(b),
{
    law_normal_form_keeps_components(a);
    law_normal_form_keeps_components(b);
}

/// A resolved path is in its normal form.
pub proof fn law_resolved_paths_are_normal(
    path: Seq<u8>,
    parent: ParentSight,
    repo_root: Seq<u8>,
    canonical_root: Seq<u8>,
)
    ensures
        resolved(path, parent, repo_root, canonical_root) matches Ok(p) ==> normal(p) == p,
{
    if let Ok(p) = resolved(path, parent, repo_root, canonical_root) {
        let base = if stripped(path, repo_root) is Some {
            repo_root
        } else {
            canonical_root
        };
        let rel = stripped(path, base)->0;
        lemma_stripped_list(path, base);
        match parent {
            ParentSight::Plain => {
                lemma_components_joined(rel);
            },
            ParentSight::Linked(dir) => {
                if has_file_name(rel) {
                    let cs = stripped(dir@, canonical_root)->0;
                    lemma_stripped_list(dir@, canonical_root);
                    assert(rel.last() == rel[rel.len() - 1]);
                    assert(is_list(cs.push(rel.last())));
                    lemma_components_joined(cs.push(rel.last()));
                } else {
                    lemma_components_joined(rel);
                }
            },
        }
    }
}

/// What is left of a path after a prefix is a list of components.
pub(crate) proof fn lemma_stripped_list(p: Seq<u8>, base: Seq<u8>)
    requires
        stripped(p, base) is Some,
    ensures
        is_list(stripped(p, base)->0),
{
    let a = components(p);
    let n = components(base).len() as int;
    let cs = a.skip(n);
    lemma_components_list(p);
    assert forall|i: int| 0 <= i < cs.len() implies (#[trigger] cs[i]).len() > 0 && ((i == 0
        && cs[i] == root()) || (!files::has_byte(cs[i], SLASH) && (i == 0 || cs[i] != dot()))) by {
        assert(cs[i] == a[i + n]);
    }
}

/// Paths with the same names between slashes are the same text.
pub proof fn lemma_names_tell_texts_apart(a: Seq<u8>, b: Seq<u8>)
    requires
        names(a) == names(b),
    ensures
        a == b,
    decreases a.len(),
{
    let n = name_len(a);
    let m = name_len(b);
    lemma_name_len(a);
    lemma_name_len(b);
    assert(names(a)[0] == names(b)[0]);
    if n >= a.len() {
        assert(names(a).len() == 1);
        if m < b.len() {
            lemma_some_name(b.skip(m as int + 1));
        }
    } else {
        let x = a.skip(n as int + 1);
        lemma_some_name(x);
        if m >= b.len() {
            assert(names(b).len() == 1);
        }
        let y = b.skip(m as int + 1);
        assert(names(a).skip(1) =~= names(x));
        assert(names(b).skip(1) =~= names(y));
        lemma_names_tell_texts_apart(x, y);
        assert(a.take(n as int) == b.take(m as int));
        assert(n == m) by {
            assert(a.take(n as int).len() == n && b.take(m as int).len() == m);
        }
        assert(a =~= a.take(n as int) + seq![SLASH] + x);
        assert(b =~= b.take(m as int) + seq![SLASH] + y);
    }
}

proof fn lemma_some_name(p: Seq<u8>)
    ensures
        names(p).len() > 0,
{
}

/// Where every name between slashes counts, the names are the components.
pub proof fn lemma_names_are_components(p: Seq<u8>)
    requires
        forall|i: int| 0 <= i < names(p).len() ==> !is_void(#[trigger] names(p)[i]),
    ensures
        components(p) == names(p),
{
    lemma_some_name(p);
    lemma_proper_all(names(p));
    assert(!is_void(names(p)[0]));
    lemma_name_len(p);
    if p.len() > 0 && p[0] == SLASH {
        lemma_name_len_is(p, 0);
        assert(names(p)[0].len() == 0);
    }
    assert(components(p) =~= names(p));
}

} // verus!
