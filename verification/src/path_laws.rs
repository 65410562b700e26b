//! What the components of a path are, in terms of its text.

use crate::files;
use crate::order;
use crate::path_resolve;
use crate::paths;
use crate::paths::SLASH;
use crate::walk;
use vstd::prelude::*;

verus! {

/// The two texts with a slash between them.
pub open spec fn below(dir: Seq<u8>, rel: Seq<u8>) -> Seq<u8> {
    dir + seq![0x2Fu8] + rel
}

/// A text that starts with a name: neither with a slash nor with a single dot.
pub open spec fn starts_plain(p: Seq<u8>) -> bool {
    p.len() > 0 && p[0] != 0x2F && !(p[0] == 0x2E && (p.len() == 1 || p[1] == 0x2F))
}

/// A relative path as one writes it: names with one slash between two of them, none
/// of which is empty or a single dot.
pub open spec fn plain(p: Seq<u8>) -> bool {
    &&& starts_plain(p)
    &&& p.last() != 0x2F
    &&& forall|i: int|
        0 <= i < p.len() && #[trigger] p[i] == 0x2F ==> starts_plain(p.skip(i + 1))
}

/// A name: not empty, without slashes, and not a single dot.
pub open spec fn plain_name(c: Seq<u8>) -> bool {
    c.len() > 0 && c != seq![0x2Eu8] && forall|i: int| 0 <= i < c.len() ==> c[i] != 0x2F
}

/// `p` is the path `dir`, or one below it.
pub open spec fn at_or_below(p: Seq<u8>, dir: Seq<u8>) -> bool {
    p == dir || (p.len() > dir.len() && p.take(dir.len() as int) == dir && p[dir.len() as int]
        == 0x2F)
}

proof fn lemma_names_concat(a: Seq<u8>, b: Seq<u8>)
    ensures
        path_resolve::names(below(a, b)) == path_resolve::names(a) + path_resolve::names(b),
        path_resolve::names(a).len() > 0,
    decreases a.len(),
{
    let all = below(a, b);
    let n = path_resolve::name_len(a);
    path_resolve::lemma_name_len(a);
    path_resolve::lemma_name_len_is(all, n);
    assert(all.take(n as int) =~= a.take(n as int));
    if n >= a.len() {
        assert(a.take(n as int) =~= a);
        assert(all.skip(n as int + 1) =~= b);
    } else {
        let rest = a.skip(n as int + 1);
        assert(all.skip(n as int + 1) =~= below(rest, b));
        lemma_names_concat(rest, b);
    }
    assert(path_resolve::names(all) =~= path_resolve::names(a) + path_resolve::names(b));
}

proof fn lemma_proper_concat(a: Seq<Seq<u8>>, b: Seq<Seq<u8>>)
    ensures
        path_resolve::proper(a + b) == path_resolve::proper(a) + path_resolve::proper(b),
    decreases a.len(),
{
    if a.len() == 0 {
        assert(a + b =~= b);
        assert(path_resolve::proper(a) + path_resolve::proper(b) =~= path_resolve::proper(b));
    } else {
        lemma_proper_concat(a.skip(1), b);
        assert((a + b)[0] == a[0]);
        assert((a + b).skip(1) =~= a.skip(1) + b);
        assert(path_resolve::proper(a + b) =~= path_resolve::proper(a) + path_resolve::proper(b));
    }
}

proof fn lemma_first_name(p: Seq<u8>)
    requires
        starts_plain(p),
    ensures
        path_resolve::names(p).len() > 0,
        !path_resolve::is_void(path_resolve::names(p)[0]),
        path_resolve::head(p) == Seq::<Seq<u8>>::empty(),
{
    let n = path_resolve::name_len(p);
    path_resolve::lemma_name_len(p);
    if n >= p.len() {
        assert(path_resolve::names(p)[0] == p);
        if p == path_resolve::dot() {
            assert(p[0] == 0x2E && p.len() == 1);
        }
    } else {
        let c = p.take(n as int);
        assert(path_resolve::names(p)[0] == c);
        assert(c.len() == n);
        if c == path_resolve::dot() {
            assert(c.len() == 1);
            assert(c[0] == 0x2E);
            assert(p[0] == c[0]);
        }
    }
}

/// The components of `rel` in the directory `dir` are those of `dir` and then those
/// of `rel`.
pub proof fn law_components_follow_the_directory(dir: Seq<u8>, rel: Seq<u8>)
    requires
        dir.len() > 0,
        starts_plain(rel),
    ensures
        path_resolve::components(below(dir, rel)) == path_resolve::components(dir)
            + path_resolve::components(rel),
{
    lemma_names_concat(dir, rel);
    lemma_proper_concat(path_resolve::names(dir), path_resolve::names(rel));
    lemma_first_name(rel);
    assert(below(dir, rel)[0] == dir[0]);
    assert(path_resolve::names(below(dir, rel))[0] == path_resolve::names(dir)[0]);
    assert(path_resolve::components(below(dir, rel)) =~= path_resolve::components(dir)
        + path_resolve::components(rel));
}

/// A name is a path of one component; the root and a single dot are components where
/// they come first; and a path without text has none.
pub proof fn law_first_components(c: Seq<u8>, rel: Seq<u8>)
    requires
        plain_name(c),
        starts_plain(rel),
    ensures
        path_resolve::components(Seq::<u8>::empty()) == Seq::<Seq<u8>>::empty(),
        path_resolve::components(c) == seq![c],
        path_resolve::components(seq![0x2Fu8]) == seq![seq![0x2Fu8]],
        path_resolve::components(seq![0x2Fu8] + rel) == seq![seq![0x2Fu8]]
            + path_resolve::components(rel),
        path_resolve::components(seq![0x2Eu8]) == seq![seq![0x2Eu8]],
        path_resolve::components(below(seq![0x2Eu8], rel)) == seq![seq![0x2Eu8]]
            + path_resolve::components(rel),
{
    let none = Seq::<u8>::empty();
    let no = Seq::<Seq<u8>>::empty();
    path_resolve::lemma_name_len_is(none, 0);
    assert(path_resolve::names(none) =~= seq![none]);
    assert(path_resolve::proper(no) =~= no);
    assert(seq![none].skip(1) =~= no);
    assert(path_resolve::proper(seq![none]) =~= no);
    assert(path_resolve::dot().len() == 1);
    assert(path_resolve::components(none) =~= no);

    path_resolve::lemma_name_len_is(c, c.len());
    assert(path_resolve::names(c) =~= seq![c]);
    assert(seq![c].skip(1) =~= no);
    assert(path_resolve::dot() =~= seq![0x2Eu8]);
    assert(path_resolve::proper(seq![c]) =~= seq![c]);
    assert(path_resolve::components(c) =~= seq![c]);

    let top = seq![0x2Fu8];
    lemma_names_concat(none, none);
    assert(below(none, none) =~= top);
    lemma_proper_concat(seq![none], seq![none]);
    assert(path_resolve::components(top) =~= seq![path_resolve::root()]);
    lemma_names_concat(none, rel);
    assert(below(none, rel) =~= top + rel);
    lemma_proper_concat(seq![none], path_resolve::names(rel));
    lemma_first_name(rel);
    assert((top + rel)[0] == 0x2Fu8);
    assert(path_resolve::components(top + rel) =~= seq![top] + path_resolve::components(rel));

    let here = seq![0x2Eu8];
    path_resolve::lemma_name_len_is(here, 1);
    assert(path_resolve::names(here) =~= seq![here]);
    assert(seq![here].skip(1) =~= no);
    assert(path_resolve::proper(seq![here]) =~= no);
    assert(path_resolve::components(here) =~= seq![here]);
    law_components_follow_the_directory(here, rel);
}

/// A slash at the end, a second slash, and a dot between slashes do not count.
pub proof fn law_slashes_and_dots_do_not_count(a: Seq<u8>, b: Seq<u8>)
    requires
        a.len() > 0,
    ensures
        path_resolve::components(a + seq![0x2Fu8]) == path_resolve::components(a),
        path_resolve::components(below(a + seq![0x2Fu8], b)) == path_resolve::components(
            below(a, b),
        ),
        path_resolve::components(below(below(a, seq![0x2Eu8]), b)) == path_resolve::components(
            below(a, b),
        ),
{
    let none = Seq::<u8>::empty();
    let no = Seq::<Seq<u8>>::empty();
    let here = seq![0x2Eu8];
    let na = path_resolve::names(a);
    let nb = path_resolve::names(b);
    path_resolve::lemma_name_len_is(none, 0);
    path_resolve::lemma_name_len_is(here, 1);
    assert(path_resolve::names(none) =~= seq![none]);
    assert(path_resolve::names(here) =~= seq![here]);
    assert(path_resolve::dot() =~= here);
    assert(seq![none].skip(1) =~= no);
    assert(seq![here].skip(1) =~= no);
    assert(path_resolve::proper(no) =~= no);
    assert(path_resolve::proper(seq![none]) =~= no);
    assert(path_resolve::proper(seq![here]) =~= no);
    let one = a + seq![0x2Fu8];
    let two = below(a, here);
    assert(below(a, none) =~= one);
    lemma_names_concat(a, none);
    lemma_names_concat(a, here);
    lemma_names_concat(a, b);
    lemma_names_concat(one, b);
    lemma_names_concat(two, b);
    lemma_proper_concat(na, seq![none]);
    lemma_proper_concat(na, seq![here]);
    lemma_proper_concat(na, nb);
    lemma_proper_concat(na + seq![none], nb);
    lemma_proper_concat(na + seq![here], nb);
    let pa = path_resolve::proper(na);
    assert(pa + no =~= pa);
    assert(one[0] == a[0] && two[0] == a[0] && below(a, b)[0] == a[0]);
    assert(below(one, b)[0] == a[0] && below(two, b)[0] == a[0]);
    assert(path_resolve::names(one)[0] == na[0]);
    assert(path_resolve::names(below(a, b))[0] == na[0]);
    assert(path_resolve::names(below(one, b))[0] == na[0]);
    assert(path_resolve::names(below(two, b))[0] == na[0]);
}

/// The names of a plain path all count.
pub(crate) proof fn lemma_plain_names(p: Seq<u8>)
    requires
        plain(p),
    ensures
        forall|i: int|
            0 <= i < path_resolve::names(p).len() ==> !path_resolve::is_void(
                #[trigger] path_resolve::names(p)[i],
            ),
    decreases p.len(),
{
    let n = path_resolve::name_len(p);
    path_resolve::lemma_name_len(p);
    lemma_first_name(p);
    let ns = path_resolve::names(p);
    if n < p.len() {
        let rest = p.skip(n as int + 1);
        assert(p[n as int] == 0x2F);
        assert(starts_plain(rest));
        assert(rest.last() == p.last());
        assert forall|i: int| 0 <= i < rest.len() && #[trigger] rest[i] == 0x2F implies starts_plain(
            rest.skip(i + 1),
        ) by {
            assert(p[n as int + 1 + i] == 0x2F);
            assert(rest.skip(i + 1) =~= p.skip(n as int + 1 + i + 1));
        }
        lemma_plain_names(rest);
        let tail = path_resolve::names(rest);
        assert forall|i: int| 0 <= i < ns.len() implies !path_resolve::is_void(
            #[trigger] ns[i],
        ) by {
            if i > 0 {
                assert(ns[i] == tail[i - 1]);
            }
        }
    }
}

/// No name between slashes has a slash.
proof fn lemma_names_have_no_slash(p: Seq<u8>, i: int)
    requires
        0 <= i < path_resolve::names(p).len(),
    ensures
        !files::has_byte(path_resolve::names(p)[i], SLASH),
    decreases p.len(),
{
    let n = path_resolve::name_len(p);
    path_resolve::lemma_name_len(p);
    if n < p.len() {
        let rest = p.skip(n as int + 1);
        if i > 0 {
            lemma_names_have_no_slash(rest, i - 1);
            assert(path_resolve::names(p)[i] == path_resolve::names(rest)[i - 1]);
        }
    }
}

/// The names of a plain path, joined, are the path.
pub(crate) proof fn lemma_plain_joined(p: Seq<u8>)
    requires
        plain(p),
    ensures
        path_resolve::components(p) == path_resolve::names(p),
        path_resolve::are_names(path_resolve::names(p)),
        path_resolve::joined(path_resolve::names(p)) == p,
{
    lemma_plain_names(p);
    path_resolve::lemma_names_are_components(p);
    let ns = path_resolve::names(p);
    lemma_first_name(p);
    assert forall|i: int| 0 <= i < ns.len() implies (#[trigger] ns[i]).len() > 0
        && !files::has_byte(ns[i], SLASH) by {
        assert(!path_resolve::is_void(ns[i]));
        lemma_names_have_no_slash(p, i);
    }
    path_resolve::lemma_names_joined(ns);
    path_resolve::lemma_names_tell_texts_apart(path_resolve::joined(ns), p);
}

/// A plain path is its own normal form, and so is it below the root.
pub proof fn law_plain_paths_are_normal(p: Seq<u8>)
    requires
        plain(p),
    ensures
        path_resolve::normal(p) == p,
        path_resolve::normal(seq![0x2Fu8] + p) == seq![0x2Fu8] + p,
{
    lemma_plain_joined(p);
    let c = seq![0x61u8];
    assert(c[0] == 0x61 && seq![0x2Eu8][0] == 0x2E);
    law_first_components(c, p);
    let cs = seq![seq![0x2Fu8]] + path_resolve::components(p);
    assert(cs.skip(1) =~= path_resolve::components(p));
    assert(path_resolve::root() =~= seq![0x2Fu8]);
    path_resolve::lemma_joined_root(cs);
}

/// A file below the root of a repository has, in the repository, the path below the
/// root, at whatever depth.
pub proof fn law_paths_below_the_root(root: Seq<u8>, rel: Seq<u8>)
    requires
        root.len() > 0,
        plain(rel),
    ensures
        walk::rel_of(below(root, rel), root) == Some(rel),
{
    law_components_follow_the_directory(root, rel);
    lemma_plain_joined(rel);
    let a = path_resolve::components(below(root, rel));
    let b = path_resolve::components(root);
    assert(a.skip(b.len() as int) =~= path_resolve::components(rel));
}

/// Of two plain paths, one starts with the components of the other exactly if it is
/// that path or one below it.
pub proof fn law_prefixes_are_directories(p: Seq<u8>, dir: Seq<u8>)
    requires
        plain(p),
        plain(dir),
    ensures
        path_resolve::stripped(p, dir) is Some <==> at_or_below(p, dir),
{
    lemma_plain_joined(p);
    lemma_plain_joined(dir);
    let a = path_resolve::names(p);
    let b = path_resolve::names(dir);
    if path_resolve::stripped(p, dir) is Some {
        let rest = a.skip(b.len() as int);
        assert(a =~= b + rest) by {
            assert forall|i: int| 0 <= i < b.len() implies a[i] == b[i] by {
                assert(path_resolve::components(p)[i] == path_resolve::components(dir)[i]);
            }
        }
        if rest.len() == 0 {
            assert(a =~= b);
            path_resolve::lemma_names_tell_texts_apart(p, dir);
        } else {
            assert forall|i: int| 0 <= i < rest.len() implies (#[trigger] rest[i]).len() > 0
                && !files::has_byte(rest[i], SLASH) by {
                assert(rest[i] == a[b.len() + i]);
            }
            path_resolve::lemma_names_joined(rest);
            lemma_names_concat(dir, path_resolve::joined(rest));
            path_resolve::lemma_names_tell_texts_apart(
                p,
                below(dir, path_resolve::joined(rest)),
            );
            assert(p.take(dir.len() as int) =~= dir);
        }
    }
    if at_or_below(p, dir) && p != dir {
        let rel = p.skip(dir.len() as int + 1);
        assert(p =~= below(dir, rel));
        assert(p[dir.len() as int] == 0x2F);
        assert(starts_plain(rel));
        law_components_follow_the_directory(dir, rel);
    }
}

/// A path is not below another root: below it lies only what starts with the
/// components of the root.
pub proof fn law_paths_elsewhere_are_outside(path: Seq<u8>, root: Seq<u8>)
    ensures
        walk::rel_of(path, root) is Some <==> {
            let a = path_resolve::components(path);
            let b = path_resolve::components(root);
            b.len() <= a.len() && a.take(b.len() as int) == b
        },
{
    let a = path_resolve::components(path);
    let b = path_resolve::components(root);
    if b.len() <= a.len() {
        if path_resolve::agree(a, b, b.len() as int) {
            assert(a.take(b.len() as int) =~= b);
        }
        if a.take(b.len() as int) == b {
            assert forall|i: int| 0 <= i < b.len() implies #[trigger] a[i] == b[i] by {
                assert(a.take(b.len() as int)[i] == a[i]);
            }
        }
    }
}

/// A text whose names all count neither starts nor ends with a slash.
pub(crate) proof fn lemma_valid_text(p: Seq<u8>)
    requires
        forall|i: int|
            0 <= i < path_resolve::names(p).len() ==> !path_resolve::is_void(
                #[trigger] path_resolve::names(p)[i],
            ),
    ensures
        p.len() > 0,
        p[0] != 0x2F,
        p.last() != 0x2F,
        path_resolve::normal(p) == p,
    decreases p.len(),
{
    let n = path_resolve::name_len(p);
    let ns = path_resolve::names(p);
    path_resolve::lemma_name_len(p);
    if n >= p.len() {
        assert(!path_resolve::is_void(ns[0]));
        assert(ns[0] == p);
    } else {
        let rest = p.skip(n as int + 1);
        let tail = path_resolve::names(rest);
        assert(ns == seq![p.take(n as int)] + tail);
        assert(!path_resolve::is_void(ns[0]));
        assert forall|i: int| 0 <= i < tail.len() implies !path_resolve::is_void(
            #[trigger] tail[i],
        ) by {
            assert(ns[i + 1] == tail[i]);
        }
        lemma_valid_text(rest);
        assert(rest.last() == p.last());
        assert(ns[0].len() == n);
    }
    path_resolve::lemma_names_are_components(p);
    assert forall|i: int| 0 <= i < ns.len() implies (#[trigger] ns[i]).len() > 0
        && !files::has_byte(ns[i], SLASH) by {
        assert(!path_resolve::is_void(ns[i]));
        lemma_names_have_no_slash(p, i);
    }
    lemma_names_concat(p, p);
    path_resolve::lemma_names_joined(ns);
    path_resolve::lemma_names_tell_texts_apart(path_resolve::joined(ns), p);
}

/// A list of components leads out of the directory it is taken from exactly if the root
/// or `..` is among them.
pub proof fn law_ways_out(cs: Seq<Seq<u8>>)
    ensures
        path_resolve::escapes(cs) <==> cs.contains(seq![0x2Fu8]) || cs.contains(
            seq![0x2Eu8, 0x2Eu8],
        ),
{
    assert(path_resolve::root() =~= seq![0x2Fu8]);
    assert(path_resolve::dot_dot() =~= seq![0x2Eu8, 0x2Eu8]);
    if cs.contains(seq![0x2Fu8]) {
        let i = choose|i: int| 0 <= i < cs.len() && cs[i] == seq![0x2Fu8];
        assert(path_resolve::leads_out(cs[i]));
    }
    if cs.contains(seq![0x2Eu8, 0x2Eu8]) {
        let i = choose|i: int| 0 <= i < cs.len() && cs[i] == seq![0x2Eu8, 0x2Eu8];
        assert(path_resolve::leads_out(cs[i]));
    }
}

/// A plain file name is a path of one component, which is not `..`.
pub proof fn law_plain_names_stay_in_their_directory(name: Seq<u8>)
    requires
        files::plain(name),
        name != seq![0x2Eu8],
    ensures
        path_resolve::components(name) == seq![name],
        name != seq![0x2Eu8, 0x2Eu8],
{
    assert forall|i: int| 0 <= i < name.len() implies name[i] != 0x2F by {}
    let rel = seq![0x61u8];
    assert(rel[0] == 0x61);
    law_first_components(name, rel);
    if name == seq![0x2Eu8, 0x2Eu8] {
        assert(name[0] == 0x2E && name[1] == 0x2E);
        assert(files::has_dot_dot(name));
    }
}

/// Bytes are ordered by the first at which they differ; where they differ in none, the
/// shorter come first.
pub proof fn law_bytes_are_ordered_by_the_first_difference(
    common: Seq<u8>,
    a: Seq<u8>,
    b: Seq<u8>,
)
    ensures
        order::bytes_lt(common + a, common + b) == order::bytes_lt(a, b),
        a.len() > 0 && b.len() > 0 && a[0] != b[0] ==> order::bytes_lt(a, b) == (a[0]
            < b[0]),
        b.len() > 0 ==> order::bytes_lt(Seq::empty(), b),
        !order::bytes_lt(a, Seq::empty()),
    decreases common.len(),
{
    if common.len() == 0 {
        assert(common + a =~= a);
        assert(common + b =~= b);
    } else {
        let rest = common.skip(1);
        law_bytes_are_ordered_by_the_first_difference(rest, a, b);
        assert((common + a).skip(1) =~= rest + a);
        assert((common + b).skip(1) =~= rest + b);
    }
}

/// Paths are ordered by the first component in which they differ: names by their bytes;
/// a directory comes before what lies in it.
pub proof fn law_paths_are_ordered_by_components(
    common: Seq<Seq<u8>>,
    a: Seq<Seq<u8>>,
    b: Seq<Seq<u8>>,
)
    ensures
        paths::components_lt(common + a, common + b) == paths::components_lt(a, b),
        a.len() > 0 && b.len() > 0 && a[0] != b[0] && plain_name(a[0]) && plain_name(b[0]) && a[0]
            != seq![0x2Eu8, 0x2Eu8] && b[0] != seq![0x2Eu8, 0x2Eu8] ==> paths::components_lt(a, b)
            == order::bytes_lt(a[0], b[0]),
        b.len() > 0 ==> paths::components_lt(Seq::empty(), b),
        !paths::components_lt(a, Seq::empty()),
    decreases common.len(),
{
    if common.len() == 0 {
        assert(common + a =~= a);
        assert(common + b =~= b);
    } else {
        let rest = common.drop_first();
        law_paths_are_ordered_by_components(rest, a, b);
        assert((common + a).drop_first() =~= rest + a);
        assert((common + b).drop_first() =~= rest + b);
    }
    assert(path_resolve::root() =~= seq![0x2Fu8]);
    assert(path_resolve::dot() =~= seq![0x2Eu8]);
    assert(path_resolve::dot_dot() =~= seq![0x2Eu8, 0x2Eu8]);
    if a.len() > 0 && plain_name(a[0]) && a[0] == path_resolve::root() {
        assert(a[0][0] == 0x2F);
    }
    if b.len() > 0 && plain_name(b[0]) && b[0] == path_resolve::root() {
        assert(b[0][0] == 0x2F);
    }
}

/// Sorted records are in the order of their components.
pub proof fn law_sorted_records_follow_their_components(
    list: Seq<walk::RecordView>,
    i: int,
    j: int,
)
    requires
        walk::rel_sorted(list),
        0 <= i < j < list.len(),
    ensures
        !paths::components_lt(
            path_resolve::components(list[j].rel),
            path_resolve::components(list[i].rel),
        ),
{
}

/// The names of a plain path up to number `i`, joined, are the text up to a slash.
proof fn lemma_leading_text(p: Seq<u8>, i: int)
    requires
        plain(p),
        0 <= i < path_resolve::names(p).len() - 1,
    ensures
        ({
            let dir = path_resolve::joined(path_resolve::names(p).take(i + 1));
            dir.len() < p.len() && p.take(dir.len() as int) == dir && p[dir.len() as int] == 0x2F
        }),
{
    lemma_plain_joined(p);
    let ns = path_resolve::names(p);
    let a = ns.take(i + 1);
    let b = ns.skip(i + 1);
    assert forall|k: int| 0 <= k < a.len() implies (#[trigger] a[k]).len() > 0 && !files::has_byte(
        a[k],
        SLASH,
    ) by {
        assert(a[k] == ns[k]);
    }
    assert forall|k: int| 0 <= k < b.len() implies (#[trigger] b[k]).len() > 0 && !files::has_byte(
        b[k],
        SLASH,
    ) by {
        assert(b[k] == ns[i + 1 + k]);
    }
    path_resolve::lemma_names_joined(a);
    path_resolve::lemma_names_joined(b);
    let dir = path_resolve::joined(a);
    let rest = path_resolve::joined(b);
    lemma_names_concat(dir, rest);
    assert(a + b =~= ns);
    path_resolve::lemma_names_tell_texts_apart(p, below(dir, rest));
    assert(p.take(dir.len() as int) =~= dir);
}

proof fn lemma_all_named(cs: Seq<Seq<u8>>)
    requires
        forall|i: int| 0 <= i < cs.len() ==> path_resolve::is_name(#[trigger] cs[i]),
    ensures
        path_resolve::named(cs) == cs,
    decreases cs.len(),
{
    if cs.len() > 0 {
        let front = cs.drop_last();
        assert forall|i: int| 0 <= i < front.len() implies path_resolve::is_name(
            #[trigger] front[i],
        ) by {
            assert(front[i] == cs[i]);
        }
        lemma_all_named(front);
        assert(cs[cs.len() - 1] == cs.last());
        assert(path_resolve::is_name(cs[cs.len() - 1]));
        assert(path_resolve::named(cs) =~= cs);
    } else {
        assert(path_resolve::named(cs) =~= cs);
    }
}

/// The directories to look at on the way to a file are all that lie above it, from the
/// root on: each is the path of the file up to a slash, and there are as many as the path
/// has names before its last.
pub proof fn law_every_directory_is_looked_at(p: Seq<u8>, i: int)
    requires
        plain(p),
        !path_resolve::components(p).contains(seq![0x2Eu8, 0x2Eu8]),
    ensures
        ({
            let dirs = path_resolve::intermediate(path_resolve::components(p));
            &&& dirs.len() == path_resolve::components(p).len() - 1
            &&& 0 <= i < dirs.len() ==> dirs[i].len() < p.len() && p.take(dirs[i].len() as int)
                == dirs[i] && p[dirs[i].len() as int] == 0x2F && path_resolve::components(dirs[i])
                == path_resolve::components(p).take(i + 1)
        }),
{
    lemma_plain_joined(p);
    lemma_plain_names(p);
    let cs = path_resolve::components(p);
    assert(path_resolve::root() =~= seq![0x2Fu8]);
    assert(path_resolve::dot_dot() =~= seq![0x2Eu8, 0x2Eu8]);
    assert forall|k: int| 0 <= k < cs.len() implies path_resolve::is_name(#[trigger] cs[k]) by {
        assert(!path_resolve::is_void(path_resolve::names(p)[k]));
        if cs[k] == path_resolve::root() {
            assert(cs[k][0] == SLASH);
            assert(files::has_byte(cs[k], SLASH));
        }
        assert(cs.contains(cs[k]));
    }
    lemma_all_named(cs);
    lemma_names_concat(p, p);
    assert(path_resolve::is_name(cs[cs.len() - 1]));
    if 0 <= i < cs.len() - 1 {
        lemma_leading_text(p, i);
        let a = cs.take(i + 1);
        assert forall|k: int| 0 <= k < a.len() implies (#[trigger] a[k]).len() > 0
            && !files::has_byte(a[k], SLASH) && a[k] != path_resolve::dot() by {
            assert(a[k] == cs[k]);
            assert(!path_resolve::is_void(path_resolve::names(p)[k]));
        }
        path_resolve::lemma_components_joined(a);
    }
}

/// The directories before number `i` are there and are no symlinks.
pub open spec fn clear_before(kinds: Seq<path_resolve::EntryKind>, i: int) -> bool {
    0 <= i <= kinds.len() && forall|k: int|
        0 <= k < i ==> #[trigger] kinds[k] == path_resolve::EntryKind::Other
}

/// A path goes through a symlink exactly if one of the directories on the way is one and
/// all before it are plain directories; it cannot be told if one before that could not be
/// looked at; and nothing is beyond a directory that is missing.
pub proof fn law_first_symlink_decides(kinds: Seq<path_resolve::EntryKind>, i: int)
    requires
        clear_before(kinds, i),
    ensures
        i < kinds.len() && kinds[i] == path_resolve::EntryKind::Symlink ==> path_resolve::linked(
            kinds,
            0,
        ) == Ok::<bool, int>(true),
        i < kinds.len() && kinds[i] == path_resolve::EntryKind::Failed ==> path_resolve::linked(
            kinds,
            0,
        ) == Err::<bool, int>(i),
        i < kinds.len() && kinds[i] == path_resolve::EntryKind::Missing ==> path_resolve::linked(
            kinds,
            0,
        ) == Ok::<bool, int>(false),
        i == kinds.len() ==> path_resolve::linked(kinds, 0) == Ok::<bool, int>(false),
{
    lemma_linked(kinds, 0, i);
}

proof fn lemma_linked(kinds: Seq<path_resolve::EntryKind>, from: int, i: int)
    requires
        clear_before(kinds, i),
        0 <= from <= i,
    ensures
        path_resolve::linked(kinds, from) == path_resolve::linked(kinds, i),
    decreases i - from,
{
    if from < i {
        assert(kinds[from] == path_resolve::EntryKind::Other);
        lemma_linked(kinds, from + 1, i);
    }
}

/// A path taken from a directory stands below it, with one slash between them; an absolute
/// path stands for itself, and so does one that is taken from nowhere.
pub proof fn law_paths_are_taken_from_their_directory(dir: Seq<u8>, rel: Seq<u8>)
    ensures
        rel.len() > 0 && rel[0] == 0x2F ==> path_resolve::path_in(dir, rel) == rel,
        path_resolve::path_in(Seq::empty(), rel) == rel,
        dir.len() > 0 && dir.last() != 0x2F && !(rel.len() > 0 && rel[0] == 0x2F)
            ==> path_resolve::path_in(dir, rel) == below(dir, rel),
        dir.len() > 0 && dir.last() == 0x2F && !(rel.len() > 0 && rel[0] == 0x2F)
            ==> path_resolve::path_in(dir, rel) == dir + rel,
{
    if dir.len() > 0 {
        assert(below(dir, rel) =~= dir + seq![SLASH] + rel);
    }
}

} // verus!
