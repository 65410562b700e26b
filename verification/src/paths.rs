//! Repository-relative paths, and sets and maps keyed by them.
//!
//! A path is a byte string whose components are separated by `/`. Paths are told
//! apart, and ordered, by their components: [`PathSet`] and [`PathMap`] hold them
//! in their normal form. The functions with `key` in their names take byte strings
//! as they are.

use crate::le;
use crate::order;
use crate::order::Relation;
use crate::path_resolve;
use vstd::prelude::*;

verus! {

/// The separator of components.
pub const SLASH: u8 = 0x2F;

/// The kinds of components in their order: the root, the directory itself, the
/// directory above, names.
pub open spec fn kind_rank(c: Seq<u8>) -> int {
    if c == path_resolve::root() {
        0
    } else if c == path_resolve::dot() {
        1
    } else if c == path_resolve::dot_dot() {
        2
    } else {
        3
    }
}

/// A component comes before another: by their kinds, names by their bytes.
pub open spec fn component_lt(a: Seq<u8>, b: Seq<u8>) -> bool {
    kind_rank(a) < kind_rank(b) || (kind_rank(a) == 3 && kind_rank(b) == 3 && order::bytes_lt(a, b))
}

/// Lists of components in lexicographic order.
pub open spec fn components_lt(a: Seq<Seq<u8>>, b: Seq<Seq<u8>>) -> bool
    decreases a.len(),
{
    if b.len() == 0 {
        false
    } else if a.len() == 0 {
        true
    } else if a[0] != b[0] {
        component_lt(a[0], b[0])
    } else {
        components_lt(a.drop_first(), b.drop_first())
    }
}

/// A path comes before another, component by component.
pub open spec fn comes_before(a: Seq<u8>, b: Seq<u8>) -> bool {
    components_lt(path_resolve::components(a), path_resolve::components(b))
}

/// The order of paths as texts: component by component, and where the components
/// are the same, by their bytes.
#[verifier::opaque]
pub open spec fn path_lt(a: Seq<u8>, b: Seq<u8>) -> bool {
    comes_before(a, b) || (path_resolve::components(a) == path_resolve::components(b)
        && order::bytes_lt(a, b))
}

proof fn lemma_component_order(a: Seq<u8>, b: Seq<u8>, c: Seq<u8>)
    ensures
        !component_lt(a, a),
        component_lt(a, b) && component_lt(b, c) ==> component_lt(a, c),
        component_lt(a, b) || a == b || component_lt(b, a),
{
    order::lemma_bytes_lt_irreflexive(a);
    order::lemma_bytes_lt_total(a, b);
    if order::bytes_lt(a, b) && order::bytes_lt(b, c) {
        order::lemma_bytes_lt_transitive(a, b, c);
    }
}

proof fn lemma_components_irreflexive(a: Seq<Seq<u8>>)
    ensures
        !components_lt(a, a),
    decreases a.len(),
{
    if a.len() > 0 {
        lemma_components_irreflexive(a.drop_first());
    }
}

proof fn lemma_components_transitive(a: Seq<Seq<u8>>, b: Seq<Seq<u8>>, c: Seq<Seq<u8>>)
    requires
        components_lt(a, b),
        components_lt(b, c),
    ensures
        components_lt(a, c),
    decreases a.len(),
{
    if a.len() > 0 {
        lemma_component_order(a[0], b[0], c[0]);
        lemma_component_order(b[0], a[0], b[0]);
        if a[0] == b[0] && b[0] == c[0] {
            lemma_components_transitive(a.drop_first(), b.drop_first(), c.drop_first());
        }
    }
}

proof fn lemma_components_total(a: Seq<Seq<u8>>, b: Seq<Seq<u8>>)
    ensures
        components_lt(a, b) || a == b || components_lt(b, a),
    decreases a.len(),
{
    if a.len() > 0 && b.len() > 0 {
        lemma_component_order(a[0], b[0], a[0]);
        if a[0] == b[0] {
            lemma_components_total(a.drop_first(), b.drop_first());
            if a.drop_first() == b.drop_first() {
                assert(a =~= seq![a[0]] + a.drop_first());
                assert(b =~= seq![b[0]] + b.drop_first());
            }
        }
    } else if a.len() == 0 && b.len() == 0 {
        assert(a =~= b);
    }
}

pub proof fn lemma_path_lt_irreflexive(a: Seq<u8>)
    ensures
        !path_lt(a, a),
{
    reveal(path_lt);
    lemma_components_irreflexive(path_resolve::components(a));
    order::lemma_bytes_lt_irreflexive(a);
}

pub proof fn lemma_path_lt_transitive(a: Seq<u8>, b: Seq<u8>, c: Seq<u8>)
    requires
        path_lt(a, b),
        path_lt(b, c),
    ensures
        path_lt(a, c),
{
    reveal(path_lt);
    if comes_before(a, b) && comes_before(b, c) {
        lemma_components_transitive(
            path_resolve::components(a),
            path_resolve::components(b),
            path_resolve::components(c),
        );
    } else if !comes_before(a, b) && !comes_before(b, c) {
        order::lemma_bytes_lt_transitive(a, b, c);
    }
}

/// Of two paths, one comes before the other unless their components are the same.
pub proof fn lemma_comes_before(a: Seq<u8>, b: Seq<u8>)
    ensures
        comes_before(a, b) ==> !comes_before(b, a) && path_resolve::components(a)
            != path_resolve::components(b),
        comes_before(a, b) || comes_before(b, a) || path_resolve::components(a)
            == path_resolve::components(b),
{
    let u = path_resolve::components(a);
    let v = path_resolve::components(b);
    lemma_components_total(u, v);
    lemma_components_irreflexive(u);
    if components_lt(u, v) && components_lt(v, u) {
        lemma_components_transitive(u, v, u);
    }
}

fn component_kind(c: &[u8]) -> (r: u8)
    ensures
        r == kind_rank(c@),
{
    proof {
        if c@.len() == 1 && c@[0] == SLASH {
            assert(c@ =~= path_resolve::root());
        }
        if c@.len() == 1 && c@[0] == path_resolve::DOT {
            assert(c@ =~= path_resolve::dot());
        }
        if c@.len() == 2 && c@[0] == path_resolve::DOT && c@[1] == path_resolve::DOT {
            assert(c@ =~= path_resolve::dot_dot());
        }
    }
    if c.len() == 1 && c[0] == SLASH {
        0
    } else if c.len() == 1 && c[0] == path_resolve::DOT {
        1
    } else if c.len() == 2 && c[0] == path_resolve::DOT && c[1] == path_resolve::DOT {
        2
    } else {
        3
    }
}

fn relate_components(a: &[u8], b: &[u8]) -> (r: Relation)
    ensures
        match r {
            Relation::Before => component_lt(a@, b@) && a@ != b@,
            Relation::Same => a@ == b@,
            Relation::After => component_lt(b@, a@) && a@ != b@,
        },
{
    let x: u8 = component_kind(a);
    let y: u8 = component_kind(b);
    if x < y {
        return Relation::Before;
    }
    if x > y {
        return Relation::After;
    }
    proof {
        order::lemma_bytes_lt_irreflexive(a@);
    }
    if x < 3 {
        return Relation::Same;
    }
    order::compare_bytes(a, b)
}

/// Compares two paths by their components.
pub fn relate_paths(a: &[u8], b: &[u8]) -> (r: Relation)
    ensures
        match r {
            Relation::Before => comes_before(a@, b@),
            Relation::Same => path_resolve::components(a@) == path_resolve::components(b@),
            Relation::After => comes_before(b@, a@),
        },
{
    if le::bytes_eq(a, b) {
        return Relation::Same;
    }
    let x = path_resolve::split_components(a);
    let y = path_resolve::split_components(b);
    let ghost u = path_resolve::components(a@);
    let ghost v = path_resolve::components(b@);
    let mut i: usize = 0;
    assert(u.skip(0) =~= u && v.skip(0) =~= v);
    while i < x.len() && i < y.len()
        invariant
            u == path_resolve::components(a@),
            v == path_resolve::components(b@),
            u == path_views(x@),
            v == path_views(y@),
            u.len() == x@.len(),
            v.len() == y@.len(),
            i <= u.len(),
            i <= v.len(),
            u.take(i as int) == v.take(i as int),
            components_lt(u, v) == components_lt(u.skip(i as int), v.skip(i as int)),
            components_lt(v, u) == components_lt(v.skip(i as int), u.skip(i as int)),
        decreases u.len() - i,
    {
        proof {
            assert(u.skip(i as int)[0] == u[i as int] && u[i as int] == x@[i as int]@);
            assert(v.skip(i as int)[0] == v[i as int] && v[i as int] == y@[i as int]@);
            assert(u.skip(i as int).drop_first() =~= u.skip(i + 1));
            assert(v.skip(i as int).drop_first() =~= v.skip(i + 1));
        }
        match relate_components(x[i].as_slice(), y[i].as_slice()) {
            Relation::Before => {
                return Relation::Before;
            },
            Relation::After => {
                return Relation::After;
            },
            Relation::Same => {},
        }
        proof {
            assert(u.take(i + 1) =~= u.take(i as int).push(u[i as int]));
            assert(v.take(i + 1) =~= v.take(i as int).push(v[i as int]));
        }
        i = i + 1;
    }
    if i < y.len() {
        assert(u.skip(i as int).len() == 0);
        Relation::Before
    } else if i < x.len() {
        assert(v.skip(i as int).len() == 0);
        Relation::After
    } else {
        assert(u.take(i as int) =~= u);
        assert(v.take(i as int) =~= v);
        Relation::Same
    }
}

/// Compares two paths as texts.
pub fn relate(a: &[u8], b: &[u8]) -> (r: Relation)
    ensures
        match r {
            Relation::Before => path_lt(a@, b@),
            Relation::Same => a@ == b@,
            Relation::After => path_lt(b@, a@),
        },
{
    reveal(path_lt);
    match relate_paths(a, b) {
        Relation::Before => Relation::Before,
        Relation::After => Relation::After,
        Relation::Same => order::compare_bytes(a, b),
    }
}

/// Paths in strictly ascending order.
pub open spec fn ascending(s: Seq<Seq<u8>>) -> bool {
    forall|i: int, j: int| 0 <= i < j < s.len() ==> path_lt(#[trigger] s[i], #[trigger] s[j])
}

/// Paths that are each in their normal form.
pub open spec fn all_normal(s: Seq<Seq<u8>>) -> bool {
    forall|i: int| 0 <= i < s.len() ==> path_resolve::normal(#[trigger] s[i]) == s[i]
}

/// The bytes of a list of paths.
pub open spec fn path_views(v: Seq<Vec<u8>>) -> Seq<Seq<u8>> {
    Seq::new(v.len(), |i: int| v[i]@)
}

/// Ascending paths do not repeat.
pub proof fn lemma_ascending_unique(s: Seq<Seq<u8>>, i: int, j: int)
    requires
        ascending(s),
        0 <= i < s.len(),
        0 <= j < s.len(),
        s[i] == s[j],
    ensures
        i == j,
{
    lemma_path_lt_irreflexive(s[i]);
    if i < j {
        assert(path_lt(s[i], s[j]));
    } else if j < i {
        assert(path_lt(s[j], s[i]));
    }
}

/// A set of paths has one ascending order.
pub proof fn lemma_ascending_determined(a: Seq<Seq<u8>>, b: Seq<Seq<u8>>)
    requires
        ascending(a),
        ascending(b),
        a.to_set() == b.to_set(),
    ensures
        a == b,
    decreases a.len(),
{
    if a.len() == 0 {
        if b.len() > 0 {
            assert(b.to_set().contains(b[0]));
            assert(a.contains(b[0]));
        }
        assert(a =~= b);
    } else {
        assert(a.to_set().contains(a.last()));
        assert(b.contains(a.last()));
        let j = choose|j: int| 0 <= j < b.len() && b[j] == a.last();
        assert(b.to_set().contains(b.last()));
        assert(a.contains(b.last()));
        let i = choose|i: int| 0 <= i < a.len() && a[i] == b.last();
        if j < b.len() - 1 {
            assert(path_lt(b[j], b[b.len() - 1]));
            if i < a.len() - 1 {
                assert(path_lt(a[i], a[a.len() - 1]));
                lemma_path_lt_transitive(a[i], a.last(), a[i]);
            }
            lemma_path_lt_irreflexive(a[i]);
        }
        let a2 = a.drop_last();
        let b2 = b.drop_last();
        assert forall|x: Seq<u8>| a2.to_set().contains(x) <==> b2.to_set().contains(x) by {
            if a2.contains(x) {
                let k = choose|k: int| 0 <= k < a2.len() && a2[k] == x;
                assert(a.to_set().contains(a[k]));
                assert(b.contains(x));
                let w = choose|w: int| 0 <= w < b.len() && b[w] == x;
                if w == b.len() - 1 {
                    lemma_ascending_unique(a, k, a.len() - 1);
                }
                assert(b2[w] == x);
            }
            if b2.contains(x) {
                let k = choose|k: int| 0 <= k < b2.len() && b2[k] == x;
                assert(b.to_set().contains(b[k]));
                assert(a.contains(x));
                let w = choose|w: int| 0 <= w < a.len() && a[w] == x;
                if w == a.len() - 1 {
                    lemma_ascending_unique(b, k, b.len() - 1);
                }
                assert(a2[w] == x);
            }
        }
        assert(a2.to_set() =~= b2.to_set());
        lemma_ascending_determined(a2, b2);
        assert(a =~= a2.push(a.last()));
        assert(b =~= b2.push(b.last()));
    }
}

/// A set of paths, kept in ascending order.
#[derive(Debug)]
pub struct PathSet {
    pub paths: Vec<Vec<u8>>,
}

impl View for PathSet {
    type V = Set<Seq<u8>>;

    open spec fn view(&self) -> Set<Seq<u8>> {
        path_views(self.paths@).to_set()
    }
}

impl PathSet {
    /// The paths in ascending order.
    pub open spec fn seq(self) -> Seq<Seq<u8>> {
        path_views(self.paths@)
    }

    /// The keys ascend.
    pub open spec fn sorted(self) -> bool {
        ascending(self.seq())
    }

    /// The paths ascend and are in their normal form.
    pub open spec fn wf(self) -> bool {
        self.sorted() && all_normal(self.seq())
    }

    pub fn new() -> (s: Self)
        ensures
            s.wf(),
            s@ == Set::<Seq<u8>>::empty(),
            s.paths@.len() == 0,
    {
        let s = PathSet { paths: Vec::new() };
        assert(s@ =~= Set::<Seq<u8>>::empty());
        s
    }

    pub fn len(&self) -> (n: usize)
        requires
            self.sorted(),
        ensures
            n == self.seq().len(),
            n == self@.len(),
            self@.finite(),
    {
        proof {
            self.lemma_len();
        }
        self.paths.len()
    }

    pub proof fn lemma_len(self)
        requires
            self.sorted(),
        ensures
            self@.finite(),
            self@.len() == self.seq().len(),
    {
        let s = self.seq();
        assert forall|i: int, j: int| 0 <= i < s.len() && 0 <= j < s.len() && i != j implies s[i]
            != s[j] by {
            if s[i] == s[j] {
                lemma_ascending_unique(s, i, j);
            }
        }
        s.unique_seq_to_set();
    }

    pub fn is_empty(&self) -> (r: bool)
        ensures
            r == (self@ == Set::<Seq<u8>>::empty()),
    {
        proof {
            if self.paths@.len() == 0 {
                assert(self@ =~= Set::<Seq<u8>>::empty());
            } else {
                assert(self.seq().contains(self.seq()[0]));
                assert(self@.contains(self.seq()[0]));
            }
        }
        self.paths.len() == 0
    }

    /// Where the key `path` is, or where it would be put.
    fn find_key(&self, path: &[u8]) -> (r: (usize, bool))
        requires
            self.sorted(),
        ensures
            r.0 <= self.seq().len(),
            forall|i: int| 0 <= i < r.0 ==> path_lt(#[trigger] self.seq()[i], path@),
            r.1 ==> r.0 < self.seq().len() && self.seq()[r.0 as int] == path@,
            !r.1 ==> forall|i: int|
                r.0 <= i < self.seq().len() ==> path_lt(path@, #[trigger] self.seq()[i]),
            r.1 == self@.contains(path@),
    {
        let ghost s = self.seq();
        let mut lo: usize = 0;
        let mut hi: usize = self.paths.len();
        while lo < hi
            invariant
                s == self.seq(),
                ascending(s),
                lo <= hi <= s.len(),
                forall|i: int| 0 <= i < lo ==> path_lt(#[trigger] s[i], path@),
                forall|i: int| hi <= i < s.len() ==> path_lt(path@, #[trigger] s[i]),
            decreases hi - lo,
        {
            let mid: usize = lo + (hi - lo) / 2;
            match relate(self.paths[mid].as_slice(), path) {
                Relation::Same => {
                    assert(s[mid as int] == path@);
                    assert(s.contains(path@));
                    return (mid, true);
                },
                Relation::Before => {
                    assert forall|i: int| 0 <= i < mid + 1 implies path_lt(
                        #[trigger] s[i],
                        path@,
                    ) by {
                        if i < mid {
                            lemma_path_lt_transitive(s[i], s[mid as int], path@);
                        }
                    }
                    lo = mid + 1;
                },
                Relation::After => {
                    assert forall|i: int| mid <= i < s.len() implies path_lt(
                        path@,
                        #[trigger] s[i],
                    ) by {
                        if mid < i {
                            lemma_path_lt_transitive(path@, s[mid as int], s[i]);
                        }
                    }
                    hi = mid;
                },
            }
        }
        proof {
            if s.contains(path@) {
                let i = choose|i: int| 0 <= i < s.len() && s[i] == path@;
                lemma_path_lt_irreflexive(path@);
                if i < lo {
                    assert(path_lt(s[i], path@));
                } else {
                    assert(path_lt(path@, s[i]));
                }
            }
        }
        (lo, false)
    }

    fn contains_key(&self, path: &[u8]) -> (r: bool)
        requires
            self.sorted(),
        ensures
            r == self@.contains(path@),
    {
        self.find_key(path).1
    }

    /// Adds a key; says whether it was absent.
    fn insert_key(&mut self, path: &[u8]) -> (fresh: bool)
        requires
            old(self).sorted(),
        ensures
            final(self).sorted(),
            final(self)@ == old(self)@.insert(path@),
            fresh == !old(self)@.contains(path@),
    {
        let (pos, found) = self.find_key(path);
        if found {
            assert(self@ =~= self@.insert(path@));
            return false;
        }
        let ghost before = self.seq();
        let owned = le::bytes_clone(path);
        self.paths.insert(pos, owned);
        proof {
            assert(self.seq() =~= before.insert(pos as int, path@));
            lemma_insert_ascending(before, pos as int, path@);
        }
        true
    }

    /// Removes a key; says whether it was there.
    fn remove_key(&mut self, path: &[u8]) -> (present: bool)
        requires
            old(self).sorted(),
        ensures
            final(self).sorted(),
            final(self)@ == old(self)@.remove(path@),
            present == old(self)@.contains(path@),
    {
        let (pos, found) = self.find_key(path);
        if !found {
            assert(self@ =~= self@.remove(path@));
            return false;
        }
        let ghost before = self.seq();
        self.paths.remove(pos);
        proof {
            assert(self.seq() =~= before.remove(pos as int));
            lemma_remove_ascending(before, pos as int);
        }
        true
    }

    /// Whether the path is in the set.
    pub fn contains(&self, path: &[u8]) -> (r: bool)
        requires
            self.wf(),
        ensures
            r == self@.contains(path_resolve::normal(path@)),
    {
        self.contains_key(path_resolve::normal_path(path).as_slice())
    }

    /// Adds a path; says whether it was absent.
    pub fn insert(&mut self, path: &[u8]) -> (fresh: bool)
        requires
            old(self).wf(),
        ensures
            final(self).wf(),
            final(self)@ == old(self)@.insert(path_resolve::normal(path@)),
            fresh == !old(self)@.contains(path_resolve::normal(path@)),
    {
        let ghost before = *self;
        let key = path_resolve::normal_path(path);
        let fresh = self.insert_key(key.as_slice());
        proof {
            path_resolve::law_normal_form_keeps_components(path@);
            before.lemma_all_normal();
            self.lemma_normal_from_view();
        }
        fresh
    }

    /// Removes a path; says whether it was there.
    pub fn remove(&mut self, path: &[u8]) -> (present: bool)
        requires
            old(self).wf(),
        ensures
            final(self).wf(),
            final(self)@ == old(self)@.remove(path_resolve::normal(path@)),
            present == old(self)@.contains(path_resolve::normal(path@)),
    {
        let ghost before = *self;
        let key = path_resolve::normal_path(path);
        let present = self.remove_key(key.as_slice());
        proof {
            before.lemma_all_normal();
            self.lemma_normal_from_view();
        }
        present
    }

    /// Every path of the set is in its normal form.
    pub proof fn lemma_all_normal(self)
        requires
            self.wf(),
        ensures
            forall|p: Seq<u8>| #[trigger] self@.contains(p) ==> path_resolve::normal(p) == p,
    {
        let s = self.seq();
        assert forall|p: Seq<u8>| #[trigger] self@.contains(p) implies path_resolve::normal(p)
            == p by {
            let i = choose|i: int| 0 <= i < s.len() && s[i] == p;
            assert(path_resolve::normal(s[i]) == s[i]);
        }
    }

    proof fn lemma_normal_from_view(self)
        requires
            forall|p: Seq<u8>| #[trigger] self@.contains(p) ==> path_resolve::normal(p) == p,
        ensures
            all_normal(self.seq()),
    {
        let s = self.seq();
        assert forall|i: int| 0 <= i < s.len() implies path_resolve::normal(#[trigger] s[i])
            == s[i] by {
            assert(s.contains(s[i]));
            assert(self@.contains(s[i]));
        }
    }

    /// Adds every path of another set.
    pub fn extend(&mut self, other: &PathSet)
        requires
            old(self).wf(),
            other.wf(),
        ensures
            final(self).wf(),
            final(self)@ == old(self)@.union(other@),
    {
        let ghost before = self@;
        let mut i: usize = 0;
        assert(self@ =~= before.union(path_views(other.paths@).take(0).to_set()));
        while i < other.paths.len()
            invariant
                self.wf(),
                other.wf(),
                i <= other.paths@.len(),
                self@ == before.union(other.seq().take(i as int).to_set()),
            decreases other.paths@.len() - i,
        {
            self.insert(other.paths[i].as_slice());
            proof {
                lemma_take_to_set(other.seq(), i as int);
                assert(path_resolve::normal(other.seq()[i as int]) == other.seq()[i as int]);
                assert(self@ =~= before.union(other.seq().take(i + 1).to_set()));
            }
            i = i + 1;
        }
        assert(other.seq().take(i as int) =~= other.seq());
    }

    /// Removes every path of another set.
    pub fn subtract(&mut self, other: &PathSet)
        requires
            old(self).wf(),
            other.wf(),
        ensures
            final(self).wf(),
            final(self)@ == old(self)@.difference(other@),
    {
        let ghost before = self@;
        let mut i: usize = 0;
        assert(self@ =~= before.difference(path_views(other.paths@).take(0).to_set()));
        while i < other.paths.len()
            invariant
                self.wf(),
                other.wf(),
                i <= other.paths@.len(),
                self@ == before.difference(other.seq().take(i as int).to_set()),
            decreases other.paths@.len() - i,
        {
            self.remove(other.paths[i].as_slice());
            proof {
                lemma_take_to_set(other.seq(), i as int);
                assert(path_resolve::normal(other.seq()[i as int]) == other.seq()[i as int]);
                assert(self@ =~= before.difference(other.seq().take(i + 1).to_set()));
            }
            i = i + 1;
        }
        assert(other.seq().take(i as int) =~= other.seq());
    }

    /// An owned copy.
    pub fn copy(&self) -> (r: Self)
        requires
            self.wf(),
        ensures
            r.wf(),
            r@ == self@,
            r.seq() == self.seq(),
    {
        let mut paths: Vec<Vec<u8>> = Vec::new();
        let mut i: usize = 0;
        while i < self.paths.len()
            invariant
                i <= self.paths@.len(),
                path_views(paths@) == self.seq().take(i as int),
            decreases self.paths@.len() - i,
        {
            let ghost before = paths@;
            paths.push(le::bytes_clone(self.paths[i].as_slice()));
            proof {
                assert(path_views(paths@) =~= path_views(before).push(self.seq()[i as int]));
                assert(self.seq().take(i + 1) =~= self.seq().take(i as int).push(
                    self.seq()[i as int],
                ));
            }
            i = i + 1;
        }
        assert(self.seq().take(i as int) =~= self.seq());
        PathSet { paths }
    }
}

/// One more element of a prefix.
pub proof fn lemma_take_to_set<T>(s: Seq<T>, i: int)
    requires
        0 <= i < s.len(),
    ensures
        s.take(i + 1).to_set() == s.take(i).to_set().insert(s[i]),
{
    let a = s.take(i);
    let b = s.take(i + 1);
    assert forall|x: T| b.to_set().contains(x) <==> a.to_set().insert(s[i]).contains(x) by {
        if b.contains(x) {
            let k = choose|k: int| 0 <= k < b.len() && b[k] == x;
            if k < i {
                assert(a[k] == x);
            }
        }
        if a.contains(x) {
            let k = choose|k: int| 0 <= k < a.len() && a[k] == x;
            assert(b[k] == x);
        }
        assert(b[i] == s[i]);
    }
    assert(b.to_set() =~= a.to_set().insert(s[i]));
}

proof fn lemma_insert_ascending(s: Seq<Seq<u8>>, pos: int, x: Seq<u8>)
    requires
        ascending(s),
        0 <= pos <= s.len(),
        forall|i: int| 0 <= i < pos ==> path_lt(#[trigger] s[i], x),
        forall|i: int| pos <= i < s.len() ==> path_lt(x, #[trigger] s[i]),
    ensures
        ascending(s.insert(pos, x)),
        s.insert(pos, x).to_set() == s.to_set().insert(x),
{
    let t = s.insert(pos, x);
    assert forall|i: int, j: int| 0 <= i < j < t.len() implies path_lt(
        #[trigger] t[i],
        #[trigger] t[j],
    ) by {
        if i < pos {
            assert(t[i] == s[i]);
            if j > pos {
                assert(t[j] == s[j - 1]);
            }
        } else if i == pos {
            assert(t[j] == s[j - 1]);
        } else {
            assert(t[i] == s[i - 1] && t[j] == s[j - 1]);
        }
    }
    assert forall|y: Seq<u8>| t.to_set().contains(y) <==> s.to_set().insert(x).contains(y) by {
        if t.contains(y) {
            let k = choose|k: int| 0 <= k < t.len() && t[k] == y;
            if k < pos {
                assert(s[k] == y);
            } else if k > pos {
                assert(s[k - 1] == y);
            }
        }
        if s.contains(y) {
            let k = choose|k: int| 0 <= k < s.len() && s[k] == y;
            if k < pos {
                assert(t[k] == y);
            } else {
                assert(t[k + 1] == y);
            }
        }
        assert(t[pos] == x);
    }
    assert(t.to_set() =~= s.to_set().insert(x));
}

proof fn lemma_remove_ascending(s: Seq<Seq<u8>>, pos: int)
    requires
        ascending(s),
        0 <= pos < s.len(),
    ensures
        ascending(s.remove(pos)),
        s.remove(pos).to_set() == s.to_set().remove(s[pos]),
{
    let t = s.remove(pos);
    assert forall|i: int, j: int| 0 <= i < j < t.len() implies path_lt(
        #[trigger] t[i],
        #[trigger] t[j],
    ) by {
        let a = if i < pos { i } else { i + 1 };
        let b = if j < pos { j } else { j + 1 };
        assert(t[i] == s[a] && t[j] == s[b]);
    }
    assert forall|y: Seq<u8>| t.to_set().contains(y) <==> s.to_set().remove(s[pos]).contains(
        y,
    ) by {
        if t.contains(y) {
            let k = choose|k: int| 0 <= k < t.len() && t[k] == y;
            let a = if k < pos { k } else { k + 1 };
            assert(s[a] == y);
            if y == s[pos] {
                lemma_ascending_unique(s, a, pos);
            }
        }
        if s.contains(y) && y != s[pos] {
            let k = choose|k: int| 0 <= k < s.len() && s[k] == y;
            if k < pos {
                assert(t[k] == y);
            } else {
                assert(t[k - 1] == y);
            }
        }
    }
    assert(t.to_set() =~= s.to_set().remove(s[pos]));
}

/// A position of `k` in `s`.
pub open spec fn position(s: Seq<Seq<u8>>, k: Seq<u8>) -> int {
    choose|i: int| 0 <= i < s.len() && s[i] == k
}

/// A map from paths to values, its keys in ascending order.
#[derive(Debug)]
pub struct PathMap<V> {
    pub keys: PathSet,
    pub values: Vec<V>,
}

impl<V> View for PathMap<V> {
    type V = Map<Seq<u8>, V>;

    open spec fn view(&self) -> Map<Seq<u8>, V> {
        Map::new(
            |k: Seq<u8>| self.keys@.contains(k),
            |k: Seq<u8>| self.values@[position(self.keys.seq(), k)],
        )
    }
}

impl<V> PathMap<V> {
    /// The keys ascend, and each has a value.
    pub open spec fn sorted(self) -> bool {
        self.keys.sorted() && self.keys.paths@.len() == self.values@.len()
    }

    /// The paths ascend, are in their normal form, and each has a value.
    pub open spec fn wf(self) -> bool {
        self.sorted() && self.keys.wf()
    }

    /// The value at position `i` belongs to the key at position `i`.
    pub proof fn lemma_at(self, i: int)
        requires
            self.sorted(),
            0 <= i < self.values@.len(),
        ensures
            self@.contains_key(self.keys.seq()[i]),
            self@[self.keys.seq()[i]] == self.values@[i],
    {
        let s = self.keys.seq();
        let k = s[i];
        assert(s.contains(k));
        lemma_ascending_unique(s, i, position(s, k));
    }

    pub fn new() -> (m: Self)
        ensures
            m.wf(),
            m@ == Map::<Seq<u8>, V>::empty(),
    {
        let m = PathMap { keys: PathSet::new(), values: Vec::new() };
        assert(m@ =~= Map::<Seq<u8>, V>::empty());
        m
    }

    pub fn len(&self) -> (n: usize)
        requires
            self.sorted(),
        ensures
            n == self@.len(),
            n == self.values@.len(),
    {
        proof {
            self.keys.lemma_len();
            assert(self@.dom() =~= self.keys@);
        }
        self.values.len()
    }

    pub fn is_empty(&self) -> (r: bool)
        requires
            self.sorted(),
        ensures
            r == (self@ == Map::<Seq<u8>, V>::empty()),
    {
        proof {
            if self.values@.len() == 0 {
                assert(self@ =~= Map::<Seq<u8>, V>::empty());
            } else {
                self.lemma_at(0);
            }
        }
        self.values.len() == 0
    }

    fn get_key(&self, path: &[u8]) -> (r: Option<&V>)
        requires
            self.sorted(),
        ensures
            match r {
                Some(v) => self@.contains_key(path@) && *v == self@[path@],
                None => !self@.contains_key(path@),
            },
    {
        let (pos, found) = self.keys.find_key(path);
        if found {
            proof {
                self.lemma_at(pos as int);
            }
            Some(&self.values[pos])
        } else {
            None
        }
    }

    /// Sets the value of a key.
    pub fn insert_key(&mut self, path: &[u8], value: V)
        requires
            old(self).sorted(),
        ensures
            final(self).sorted(),
            final(self)@ == old(self)@.insert(path@, value),
    {
        let ghost m0 = *self;
        let (pos, found) = self.keys.find_key(path);
        if found {
            self.values.set(pos, value);
            proof {
                assert forall|k: Seq<u8>| self.keys@.contains(k) implies self@[k] == m0@.insert(
                    path@,
                    value,
                )[k] by {
                    let i = choose|i: int| 0 <= i < self.keys.seq().len() && self.keys.seq()[i] == k;
                    self.lemma_at(i);
                    m0.lemma_at(i);
                    if k == path@ {
                        lemma_ascending_unique(self.keys.seq(), i, pos as int);
                    }
                }
                assert(self@ =~= m0@.insert(path@, value));
            }
        } else {
            let owned = le::bytes_clone(path);
            self.keys.paths.insert(pos, owned);
            self.values.insert(pos, value);
            proof {
                let s0 = m0.keys.seq();
                let s1 = self.keys.seq();
                assert(s1 =~= s0.insert(pos as int, path@));
                lemma_insert_ascending(s0, pos as int, path@);
                assert forall|k: Seq<u8>| self.keys@.contains(k) implies self@[k] == m0@.insert(
                    path@,
                    value,
                )[k] by {
                    let i = choose|i: int| 0 <= i < s1.len() && s1[i] == k;
                    self.lemma_at(i);
                    if i == pos {
                    } else {
                        let j = if i < pos { i } else { i - 1 };
                        assert(s0[j] == s1[i]);
                        m0.lemma_at(j);
                        if k == path@ {
                            assert(s0.contains(k));
                        }
                    }
                }
                assert(self@ =~= m0@.insert(path@, value));
            }
        }
    }

    /// Removes a key and its value, if it is there.
    pub fn remove_key(&mut self, path: &[u8])
        requires
            old(self).sorted(),
        ensures
            final(self).sorted(),
            final(self)@ == old(self)@.remove(path@),
    {
        let ghost m0 = *self;
        let (pos, found) = self.keys.find_key(path);
        if found {
            self.keys.paths.remove(pos);
            self.values.remove(pos);
            proof {
                let s0 = m0.keys.seq();
                let s1 = self.keys.seq();
                assert(s1 =~= s0.remove(pos as int));
                lemma_remove_ascending(s0, pos as int);
                assert forall|k: Seq<u8>| self.keys@.contains(k) implies self@[k] == m0@.remove(
                    path@,
                )[k] by {
                    let i = choose|i: int| 0 <= i < s1.len() && s1[i] == k;
                    self.lemma_at(i);
                    let j = if i < pos { i } else { i + 1 };
                    assert(s0[j] == s1[i]);
                    m0.lemma_at(j);
                }
                assert(self@ =~= m0@.remove(path@));
            }
        } else {
            assert(self@ =~= m0@.remove(path@));
        }
    }

    /// The value of a path.
    pub fn get(&self, path: &[u8]) -> (r: Option<&V>)
        requires
            self.wf(),
        ensures
            match r {
                Some(v) => self@.contains_key(path_resolve::normal(path@)) && *v
                    == self@[path_resolve::normal(path@)],
                None => !self@.contains_key(path_resolve::normal(path@)),
            },
    {
        self.get_key(path_resolve::normal_path(path).as_slice())
    }

    /// Sets the value of a path.
    pub fn insert(&mut self, path: &[u8], value: V)
        requires
            old(self).wf(),
        ensures
            final(self).wf(),
            final(self)@ == old(self)@.insert(path_resolve::normal(path@), value),
    {
        let ghost before = *self;
        let key = path_resolve::normal_path(path);
        self.insert_key(key.as_slice(), value);
        proof {
            path_resolve::law_normal_form_keeps_components(path@);
            before.lemma_normal_after(*self, path_resolve::normal(path@));
        }
    }

    /// Removes a path and its value, if it is there.
    pub fn remove(&mut self, path: &[u8])
        requires
            old(self).wf(),
        ensures
            final(self).wf(),
            final(self)@ == old(self)@.remove(path_resolve::normal(path@)),
    {
        let ghost before = *self;
        let key = path_resolve::normal_path(path);
        self.remove_key(key.as_slice());
        proof {
            path_resolve::law_normal_form_keeps_components(path@);
            before.lemma_normal_after(*self, path_resolve::normal(path@));
        }
    }

    /// Keys that come from a well-formed map and one more path in its normal form
    /// are in their normal form.
    proof fn lemma_normal_after(self, after: Self, added: Seq<u8>)
        requires
            self.wf(),
            path_resolve::normal(added) == added,
            forall|k: Seq<u8>| #[trigger]
                after@.contains_key(k) ==> self@.contains_key(k) || k == added,
        ensures
            all_normal(after.keys.seq()),
    {
        self.keys.lemma_all_normal();
        let s = after.keys.seq();
        assert forall|i: int| 0 <= i < s.len() implies path_resolve::normal(#[trigger] s[i])
            == s[i] by {
            assert(s.contains(s[i]));
            assert(after@.contains_key(s[i]));
            if s[i] != added {
                assert(self@.contains_key(s[i]));
            }
        }
    }
}

/// The lists of a map as sequences.
pub open spec fn list_views(m: Map<Seq<u8>, Vec<u32>>) -> Map<Seq<u8>, Seq<u32>> {
    Map::new(|k: Seq<u8>| m.contains_key(k), |k: Seq<u8>| m[k]@)
}

/// `id` at the end of the list of a key.
pub open spec fn with_id(m: Map<Seq<u8>, Seq<u32>>, k: Seq<u8>, id: u32) -> Map<
    Seq<u8>,
    Seq<u32>,
> {
    m.insert(
        k,
        if m.contains_key(k) {
            m[k].push(id)
        } else {
            seq![id]
        },
    )
}

impl PathMap<Vec<u32>> {
    /// Puts an id at the end of the list of a key.
    fn push_id_key(&mut self, path: &[u8], id: u32)
        requires
            old(self).sorted(),
        ensures
            final(self).sorted(),
            list_views(final(self)@) == with_id(list_views(old(self)@), path@, id),
            final(self).values@.len() <= old(self).values@.len() + 1,
    {
        let ghost m0 = *self;
        let (pos, found) = self.keys.find_key(path);
        if found {
            let ghost before = self.values@[pos as int]@;
            let mut list: Vec<u32> = Vec::new();
            std::mem::swap(&mut list, &mut self.values[pos]);
            list.push(id);
            self.values.set(pos, list);
            proof {
                m0.lemma_at(pos as int);
                assert forall|k: Seq<u8>| self@.contains_key(k) implies self@[k]@ == with_id(
                    list_views(m0@),
                    path@,
                    id,
                )[k] by {
                    let s = self.keys.seq();
                    let i = choose|i: int| 0 <= i < s.len() && s[i] == k;
                    self.lemma_at(i);
                    m0.lemma_at(i);
                    if k == path@ {
                        lemma_ascending_unique(s, i, pos as int);
                    }
                }
                assert(list_views(self@) =~= with_id(list_views(m0@), path@, id));
            }
        } else {
            let mut list: Vec<u32> = Vec::new();
            list.push(id);
            let owned = le::bytes_clone(path);
            let ghost shown = list@;
            assert(shown =~= seq![id]);
            self.keys.paths.insert(pos, owned);
            self.values.insert(pos, list);
            proof {
                let s0 = m0.keys.seq();
                let s1 = self.keys.seq();
                assert(s1 =~= s0.insert(pos as int, path@));
                lemma_insert_ascending(s0, pos as int, path@);
                assert forall|k: Seq<u8>| self@.contains_key(k) implies self@[k]@ == with_id(
                    list_views(m0@),
                    path@,
                    id,
                )[k] by {
                    let i = choose|i: int| 0 <= i < s1.len() && s1[i] == k;
                    self.lemma_at(i);
                    if i != pos {
                        let j = if i < pos { i } else { i - 1 };
                        assert(s0[j] == s1[i]);
                        m0.lemma_at(j);
                        if k == path@ {
                            assert(s0.contains(k));
                        }
                    }
                }
                assert(list_views(self@) =~= with_id(list_views(m0@), path@, id));
            }
        }
    }

    /// Puts an id at the end of the list of a path.
    pub fn push_id(&mut self, path: &[u8], id: u32)
        requires
            old(self).wf(),
        ensures
            final(self).wf(),
            list_views(final(self)@) == with_id(
                list_views(old(self)@),
                path_resolve::normal(path@),
                id,
            ),
            final(self).values@.len() <= old(self).values@.len() + 1,
    {
        let ghost before = *self;
        let key = path_resolve::normal_path(path);
        self.push_id_key(key.as_slice(), id);
        proof {
            path_resolve::law_normal_form_keeps_components(path@);
            assert forall|k: Seq<u8>| #[trigger] self@.contains_key(k) implies before@.contains_key(
                k,
            ) || k == path_resolve::normal(path@) by {
                assert(list_views(self@).contains_key(k));
            }
            before.lemma_normal_after(*self, path_resolve::normal(path@));
        }
    }
}

} // verus!
