//! Rearrangements and the orders that the index sorts by.

use vstd::prelude::*;

verus! {

/// `p` lists every position below `n` once.
pub open spec fn is_arrangement(p: Seq<int>, n: nat) -> bool {
    &&& p.len() == n
    &&& forall|i: int| 0 <= i < n ==> 0 <= #[trigger] p[i] < n
    &&& forall|i: int, j: int| 0 <= i < j < n ==> p[i] != p[j]
    &&& forall|j: int| 0 <= j < n ==> p.contains(j)
}

/// `b` holds the elements of `a` in the order `p`.
pub open spec fn arranged<T>(a: Seq<T>, b: Seq<T>, p: Seq<int>) -> bool {
    &&& a.len() == b.len()
    &&& is_arrangement(p, a.len())
    &&& forall|i: int| 0 <= i < b.len() ==> #[trigger] b[i] == a[p[i]]
}

/// `b` holds the elements of `a` in some order.
pub open spec fn rearranged<T>(a: Seq<T>, b: Seq<T>) -> bool {
    exists|p: Seq<int>| arranged(a, b, p)
}

/// A rearrangement holds the same elements.
pub proof fn lemma_rearranged_contains<T>(a: Seq<T>, b: Seq<T>)
    requires
        rearranged(a, b),
    ensures
        a.len() == b.len(),
        forall|x: T| a.contains(x) <==> b.contains(x),
{
    let p = choose|p: Seq<int>| arranged(a, b, p);
    assert forall|x: T| a.contains(x) <==> b.contains(x) by {
        if a.contains(x) {
            let j = choose|j: int| 0 <= j < a.len() && a[j] == x;
            assert(p.contains(j));
            let i = choose|i: int| 0 <= i < p.len() && p[i] == j;
            assert(b[i] == a[p[i]]);
        }
        if b.contains(x) {
            let i = choose|i: int| 0 <= i < b.len() && b[i] == x;
            assert(b[i] == a[p[i]]);
        }
    }
}

/// Pairs compared by their first field, then by their second.
pub open spec fn pair_lt(a: (u64, u32), b: (u64, u32)) -> bool {
    a.0 < b.0 || (a.0 == b.0 && a.1 < b.1)
}

/// Pairs in ascending order, repetitions allowed.
pub open spec fn pairs_sorted(s: Seq<(u64, u32)>) -> bool {
    forall|i: int, j: int| 0 <= i < j < s.len() ==> !pair_lt(s[j], s[i])
}

/// Pairs in strictly ascending order.
pub open spec fn pairs_ascending(s: Seq<(u64, u32)>) -> bool {
    forall|i: int, j: int| 0 <= i < j < s.len() ==> pair_lt(s[i], s[j])
}

/// `<[(u64, u32)]>::sort_unstable`: the same pairs, ordered by the first field
/// and then by the second.
#[verifier::external_body]
pub(crate) fn sort_pairs(v: &mut Vec<(u64, u32)>)
    ensures
        rearranged(old(v)@, final(v)@),
        pairs_sorted(final(v)@),
{
    v.sort_unstable()
}

/// The pairs of a sorted list, each once.
pub fn dedup_pairs(v: &Vec<(u64, u32)>) -> (r: Vec<(u64, u32)>)
    requires
        pairs_sorted(v@),
    ensures
        pairs_ascending(r@),
        forall|x: (u64, u32)| r@.contains(x) <==> v@.contains(x),
        r@.len() <= v@.len(),
{
    let mut r: Vec<(u64, u32)> = Vec::new();
    let mut i: usize = 0;
    while i < v.len()
        invariant
            i <= v@.len(),
            r@.len() <= i,
            pairs_sorted(v@),
            pairs_ascending(r@),
            i > 0 ==> r@.len() > 0 && r@.last() == v@[i - 1],
            forall|k: int| 0 <= k < r@.len() ==> v@.contains(#[trigger] r@[k]),
            forall|k: int| 0 <= k < i ==> r@.contains(#[trigger] v@[k]),
        decreases v@.len() - i,
    {
        let ghost before = r@;
        let x: (u64, u32) = v[i];
        let mut fresh: bool = true;
        if r.len() > 0 {
            let last: (u64, u32) = r[r.len() - 1];
            fresh = last.0 != x.0 || last.1 != x.1;
            if fresh {
                assert(!pair_lt(v@[i as int], v@[i - 1]));
                assert(pair_lt(last, x));
            }
        }
        if fresh {
            r.push(x);
            assert forall|a: int, b: int| 0 <= a < b < r@.len() implies pair_lt(r@[a], r@[b]) by {
                if b == before.len() {
                    if a < before.len() - 1 {
                        assert(pair_lt(before[a], before[before.len() - 1]));
                    }
                } else {
                    assert(pair_lt(before[a], before[b]));
                }
            }
            assert forall|k: int| 0 <= k < r@.len() implies v@.contains(#[trigger] r@[k]) by {
                if k < before.len() {
                    assert(v@.contains(before[k]));
                } else {
                    assert(v@[i as int] == x);
                }
            }
        }
        assert forall|k: int| 0 <= k < i + 1 implies r@.contains(#[trigger] v@[k]) by {
            if k < i {
                assert(before.contains(v@[k]));
                let w = choose|w: int| 0 <= w < before.len() && before[w] == v@[k];
                assert(r@[w] == v@[k]);
            } else {
                assert(r@[r@.len() - 1] == v@[k]);
            }
        }
        i = i + 1;
    }
    r
}

/// How two things compare.
#[derive(Debug, Clone, Copy, PartialEq, Eq, Structural)]
pub enum Relation {
    Before,
    Same,
    After,
}

/// The order of byte strings.
pub open spec fn bytes_lt(a: Seq<u8>, b: Seq<u8>) -> bool
    decreases a.len(),
{
    if b.len() == 0 {
        false
    } else if a.len() == 0 {
        true
    } else if a[0] != b[0] {
        a[0] < b[0]
    } else {
        bytes_lt(a.skip(1), b.skip(1))
    }
}

pub proof fn lemma_bytes_lt_irreflexive(a: Seq<u8>)
    ensures
        !bytes_lt(a, a),
    decreases a.len(),
{
    if a.len() > 0 {
        lemma_bytes_lt_irreflexive(a.skip(1));
    }
}

pub proof fn lemma_bytes_lt_transitive(a: Seq<u8>, b: Seq<u8>, c: Seq<u8>)
    requires
        bytes_lt(a, b),
        bytes_lt(b, c),
    ensures
        bytes_lt(a, c),
    decreases a.len(),
{
    if a.len() > 0 && a[0] == b[0] && b[0] == c[0] {
        lemma_bytes_lt_transitive(a.skip(1), b.skip(1), c.skip(1));
    }
}

/// Compares two byte strings.
pub fn compare_bytes(a: &[u8], b: &[u8]) -> (r: Relation)
    ensures
        match r {
            Relation::Before => bytes_lt(a@, b@),
            Relation::Same => a@ == b@,
            Relation::After => bytes_lt(b@, a@),
        },
{
    let mut i: usize = 0;
    assert(a@.skip(0) =~= a@ && b@.skip(0) =~= b@);
    while i < a.len() && i < b.len()
        invariant
            i <= a@.len(),
            i <= b@.len(),
            a@.take(i as int) == b@.take(i as int),
            bytes_lt(a@, b@) == bytes_lt(a@.skip(i as int), b@.skip(i as int)),
            bytes_lt(b@, a@) == bytes_lt(b@.skip(i as int), a@.skip(i as int)),
        decreases a@.len() - i,
    {
        proof {
            assert(a@.skip(i as int)[0] == a@[i as int]);
            assert(b@.skip(i as int)[0] == b@[i as int]);
            assert(a@.skip(i as int).skip(1) =~= a@.skip(i + 1));
            assert(b@.skip(i as int).skip(1) =~= b@.skip(i + 1));
        }
        if a[i] < b[i] {
            return Relation::Before;
        }
        if a[i] > b[i] {
            return Relation::After;
        }
        proof {
            assert(a@.take(i + 1) =~= a@.take(i as int).push(a@[i as int]));
            assert(b@.take(i + 1) =~= b@.take(i as int).push(b@[i as int]));
        }
        i = i + 1;
    }
    if i < b.len() {
        assert(a@.skip(i as int).len() == 0);
        Relation::Before
    } else if i < a.len() {
        assert(b@.skip(i as int).len() == 0);
        Relation::After
    } else {
        assert(a@.take(i as int) =~= a@);
        assert(b@.take(i as int) =~= b@);
        Relation::Same
    }
}

pub proof fn lemma_bytes_lt_total(a: Seq<u8>, b: Seq<u8>)
    ensures
        bytes_lt(a, b) || a == b || bytes_lt(b, a),
    decreases a.len(),
{
    if a.len() > 0 && b.len() > 0 && a[0] == b[0] {
        lemma_bytes_lt_total(a.skip(1), b.skip(1));
        if a.skip(1) == b.skip(1) {
            assert(a =~= seq![a[0]] + a.skip(1));
            assert(b =~= seq![b[0]] + b.skip(1));
        }
    } else if a.len() == 0 && b.len() == 0 {
        assert(a =~= b);
    }
}

} // verus!
