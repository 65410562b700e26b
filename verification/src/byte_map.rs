//! Maps from bytes to values, in the order of the bytes.

use crate::le;
use crate::order;
use crate::order::Relation;
use crate::paths;
use vstd::prelude::*;

verus! {

/// Keys in strictly ascending order of their bytes.
pub open spec fn ascending(s: Seq<Seq<u8>>) -> bool {
    forall|i: int, j: int|
        0 <= i < j < s.len() ==> order::bytes_lt(#[trigger] s[i], #[trigger] s[j])
}

/// Ascending keys do not repeat.
pub proof fn lemma_ascending_unique(s: Seq<Seq<u8>>, i: int, j: int)
    requires
        ascending(s),
        0 <= i < s.len(),
        0 <= j < s.len(),
        s[i] == s[j],
    ensures
        i == j,
{
    order::lemma_bytes_lt_irreflexive(s[i]);
    if i < j {
        assert(order::bytes_lt(s[i], s[j]));
    } else if j < i {
        assert(order::bytes_lt(s[j], s[i]));
    }
}

/// A map from bytes to values, its keys in ascending order.
#[derive(Debug)]
pub struct ByteMap<V> {
    pub keys: Vec<Vec<u8>>,
    pub values: Vec<V>,
}

impl<V> View for ByteMap<V> {
    type V = Map<Seq<u8>, V>;

    open spec fn view(&self) -> Map<Seq<u8>, V> {
        Map::new(
            |k: Seq<u8>| self.seq().contains(k),
            |k: Seq<u8>| self.values@[paths::position(self.seq(), k)],
        )
    }
}

impl<V> ByteMap<V> {
    /// The keys, in order.
    pub open spec fn seq(self) -> Seq<Seq<u8>> {
        paths::path_views(self.keys@)
    }

    /// The keys ascend, and each has a value.
    pub open spec fn wf(self) -> bool {
        ascending(self.seq()) && self.keys@.len() == self.values@.len()
    }

    /// The value at position `i` belongs to the key at position `i`.
    pub proof fn lemma_at(self, i: int)
        requires
            self.wf(),
            0 <= i < self.values@.len(),
        ensures
            self@.contains_key(self.seq()[i]),
            self@[self.seq()[i]] == self.values@[i],
    {
        let s = self.seq();
        let k = s[i];
        assert(s.contains(k));
        lemma_ascending_unique(s, i, paths::position(s, k));
    }

    pub fn new() -> (m: Self)
        ensures
            m.wf(),
            m@ == Map::<Seq<u8>, V>::empty(),
    {
        let m = ByteMap { keys: Vec::new(), values: Vec::new() };
        assert(m@ =~= Map::<Seq<u8>, V>::empty());
        m
    }

    /// Where a key is, or where it would be put.
    fn find(&self, key: &[u8]) -> (r: (usize, bool))
        requires
            self.wf(),
        ensures
            r.0 <= self.seq().len(),
            forall|i: int| 0 <= i < r.0 ==> order::bytes_lt(#[trigger] self.seq()[i], key@),
            r.1 ==> r.0 < self.seq().len() && self.seq()[r.0 as int] == key@,
            !r.1 ==> forall|i: int|
                r.0 <= i < self.seq().len() ==> order::bytes_lt(key@, #[trigger] self.seq()[i]),
            r.1 == self.seq().contains(key@),
    {
        let ghost s = self.seq();
        let mut lo: usize = 0;
        let mut hi: usize = self.keys.len();
        while lo < hi
            invariant
                s == self.seq(),
                ascending(s),
                lo <= hi <= s.len(),
                forall|i: int| 0 <= i < lo ==> order::bytes_lt(#[trigger] s[i], key@),
                forall|i: int| hi <= i < s.len() ==> order::bytes_lt(key@, #[trigger] s[i]),
            decreases hi - lo,
        {
            let mid: usize = lo + (hi - lo) / 2;
            assert(s[mid as int] == self.keys@[mid as int]@);
            match order::compare_bytes(self.keys[mid].as_slice(), key) {
                Relation::Same => {
                    assert(s.contains(key@));
                    return (mid, true);
                },
                Relation::Before => {
                    assert forall|i: int| 0 <= i < mid + 1 implies order::bytes_lt(
                        #[trigger] s[i],
                        key@,
                    ) by {
                        if i < mid {
                            order::lemma_bytes_lt_transitive(s[i], s[mid as int], key@);
                        }
                    }
                    lo = mid + 1;
                },
                Relation::After => {
                    assert forall|i: int| mid <= i < s.len() implies order::bytes_lt(
                        key@,
                        #[trigger] s[i],
                    ) by {
                        if mid < i {
                            order::lemma_bytes_lt_transitive(key@, s[mid as int], s[i]);
                        }
                    }
                    hi = mid;
                },
            }
        }
        proof {
            if s.contains(key@) {
                let i = choose|i: int| 0 <= i < s.len() && s[i] == key@;
                order::lemma_bytes_lt_irreflexive(key@);
                if i < lo {
                    assert(order::bytes_lt(s[i], key@));
                } else {
                    assert(order::bytes_lt(key@, s[i]));
                }
            }
        }
        (lo, false)
    }

    /// The value of a key.
    pub fn get(&self, key: &[u8]) -> (r: Option<&V>)
        requires
            self.wf(),
        ensures
            match r {
                Some(v) => self@.contains_key(key@) && *v == self@[key@],
                None => !self@.contains_key(key@),
            },
    {
        let (pos, found) = self.find(key);
        if found {
            proof {
                self.lemma_at(pos as int);
            }
            Some(&self.values[pos])
        } else {
            None
        }
    }

    /// Sets the value of a key.
    pub fn insert(&mut self, key: &[u8], value: V)
        requires
            old(self).wf(),
        ensures
            final(self).wf(),
            final(self)@ == old(self)@.insert(key@, value),
    {
        let ghost m0 = *self;
        let (pos, found) = self.find(key);
        if found {
            self.values.set(pos, value);
        } else {
            self.keys.insert(pos, le::bytes_clone(key));
            self.values.insert(pos, value);
        }
        proof {
            let s0 = m0.seq();
            let s1 = self.seq();
            let p = pos as int;
            if found {
                assert(s1 =~= s0);
            } else {
                assert(s1 =~= s0.insert(p, key@));
                lemma_insert_ascending(s0, p, key@);
            }
            assert forall|k: Seq<u8>| #[trigger] s1.contains(k) <==> (s0.contains(k) || k
                == key@) by {
                if s1.contains(k) {
                    let i = choose|i: int| 0 <= i < s1.len() && s1[i] == k;
                    if !found && i != p {
                        assert(s0[if i < p { i } else { i - 1 }] == k);
                    }
                }
                if s0.contains(k) {
                    let i = choose|i: int| 0 <= i < s0.len() && s0[i] == k;
                    assert(s1[if found || i < p { i } else { i + 1 }] == k);
                }
                assert(s1[p] == key@);
            }
            assert forall|k: Seq<u8>| s1.contains(k) implies #[trigger] self@[k] == m0@.insert(
                key@,
                value,
            )[k] by {
                let i = choose|i: int| 0 <= i < s1.len() && s1[i] == k;
                self.lemma_at(i);
                if i == p {
                } else {
                    let j = if found || i < p { i } else { i - 1 };
                    assert(s0[j] == s1[i]);
                    m0.lemma_at(j);
                    if k == key@ {
                        lemma_ascending_unique(s1, i, p);
                    }
                }
            }
            assert(self@ =~= m0@.insert(key@, value));
        }
    }
}

proof fn lemma_insert_ascending(s: Seq<Seq<u8>>, pos: int, x: Seq<u8>)
    requires
        ascending(s),
        0 <= pos <= s.len(),
        forall|i: int| 0 <= i < pos ==> order::bytes_lt(#[trigger] s[i], x),
        forall|i: int| pos <= i < s.len() ==> order::bytes_lt(x, #[trigger] s[i]),
    ensures
        ascending(s.insert(pos, x)),
{
    let t = s.insert(pos, x);
    assert forall|i: int, j: int| 0 <= i < j < t.len() implies order::bytes_lt(
        #[trigger] t[i],
        #[trigger] t[j],
    ) by {
        if i < pos {
            assert(t[i] == s[i]);
            if j > pos {
                assert(t[j] == s[j - 1]);
            }
        } else if i == pos {
            assert(t[j] == s[j - 1]);
        } else {
            assert(t[i] == s[i - 1] && t[j] == s[j - 1]);
        }
    }
}

} // verus!
