//! File ids of the indexed paths.

use crate::commit;
use crate::path_resolve;
use crate::paths;
use crate::paths::{PathMap, PathSet};
use vstd::prelude::*;

verus! {

/// The file id of every live path.
///
/// A path keeps its id as long as it stays; a path that comes, or comes back,
/// takes the next free one.
#[derive(Debug)]
pub struct PathIndex {
    pub ids: PathMap<u32>,
    pub next_id: u32,
}

/// Every path, in its normal form, at its position in the list; a repeated path at
/// its last one.
pub open spec fn positional(s: Seq<Seq<u8>>) -> Map<Seq<u8>, u32>
    decreases s.len(),
{
    if s.len() == 0 {
        Map::empty()
    } else {
        positional(s.drop_last()).insert(path_resolve::normal(s.last()), (s.len() - 1) as u32)
    }
}

/// The ids `m` and the next free id, after the paths of `s` that are not in `m`
/// took ids in their order.
pub open spec fn with_fresh(m: Map<Seq<u8>, u32>, next: nat, s: Seq<Seq<u8>>) -> (
    Map<Seq<u8>, u32>,
    nat,
)
    decreases s.len(),
{
    if s.len() == 0 {
        (m, next)
    } else {
        let (m1, n1) = with_fresh(m, next, s.drop_last());
        if m1.contains_key(s.last()) {
            (m1, n1)
        } else {
            (m1.insert(s.last(), n1 as u32), n1 + 1)
        }
    }
}

/// Ids are given out at most once per path.
pub proof fn lemma_with_fresh_next(m: Map<Seq<u8>, u32>, next: nat, s: Seq<Seq<u8>>)
    ensures
        next <= with_fresh(m, next, s).1 <= next + s.len(),
    decreases s.len(),
{
    if s.len() > 0 {
        lemma_with_fresh_next(m, next, s.drop_last());
    }
}

/// The live paths in their order.
pub open spec fn live_list(p: PathIndex) -> Seq<Seq<u8>> {
    commit::sorted_paths(p.file_ids().dom())
}

impl PathIndex {
    pub open spec fn wf(self) -> bool {
        self.ids.wf()
    }

    /// The ids by path.
    pub open spec fn file_ids(self) -> Map<Seq<u8>, u32> {
        self.ids@
    }

    /// The ids of a list of paths: their positions.
    pub fn build(list: &Vec<Vec<u8>>) -> (r: Self)
        requires
            list@.len() <= u32::MAX,
        ensures
            r.wf(),
            r.file_ids() == positional(paths::path_views(list@)),
            r.next_id == list@.len(),
    {
        let ghost s = paths::path_views(list@);
        let mut ids: PathMap<u32> = PathMap::new();
        let mut i: usize = 0;
        while i < list.len()
            invariant
                list@.len() <= u32::MAX,
                s == paths::path_views(list@),
                i <= s.len(),
                ids.wf(),
                ids@ == positional(s.take(i as int)),
            decreases s.len() - i,
        {
            ids.insert(list[i].as_slice(), i as u32);
            proof {
                assert(s.take(i + 1).drop_last() =~= s.take(i as int));
            }
            i = i + 1;
        }
        assert(s.take(i as int) =~= s);
        PathIndex { ids, next_id: i as u32 }
    }

    /// The id of a path.
    pub fn file_id(&self, path: &[u8]) -> (r: Option<u32>)
        requires
            self.wf(),
        ensures
            match r {
                Some(id) => self.file_ids().contains_key(path_resolve::normal(path@)) && id
                    == self.file_ids()[path_resolve::normal(path@)],
                None => !self.file_ids().contains_key(path_resolve::normal(path@)),
            },
    {
        match self.ids.get(path) {
            Some(id) => Some(*id),
            None => None,
        }
    }

    /// The ids after paths went and paths came: the paths that stay keep their
    /// ids.
    pub fn build_incremental(prev: &PathIndex, removed: &PathSet, added: &PathSet) -> (r: Self)
        requires
            prev.wf(),
            removed.wf(),
            added.wf(),
            prev.next_id + added@.len() <= u32::MAX,
        ensures
            r.wf(),
            (r.file_ids(), r.next_id as nat) == with_fresh(
                prev.file_ids().remove_keys(removed@),
                prev.next_id as nat,
                added.seq(),
            ),
    {
        let mut ids: PathMap<u32> = PathMap::new();
        let mut i: usize = 0;
        let ghost keys = prev.ids.keys.seq();
        let ghost kept = prev.file_ids().remove_keys(removed@);
        assert(ids@ =~= kept.restrict(keys.take(0).to_set()));
        while i < prev.ids.keys.paths.len()
            invariant
                prev.wf(),
                removed.wf(),
                ids.wf(),
                keys == prev.ids.keys.seq(),
                kept == prev.file_ids().remove_keys(removed@),
                i <= keys.len(),
                ids@ == kept.restrict(keys.take(i as int).to_set()),
            decreases keys.len() - i,
        {
            let p: &[u8] = prev.ids.keys.paths[i].as_slice();
            proof {
                prev.ids.lemma_at(i as int);
                assert(path_resolve::normal(keys[i as int]) == keys[i as int]);
                paths::lemma_take_to_set(keys, i as int);
            }
            if !removed.contains(p) {
                ids.insert(p, prev.ids.values[i]);
            }
            assert(ids@ =~= kept.restrict(keys.take(i + 1).to_set()));
            i = i + 1;
        }
        assert(keys.take(i as int) =~= keys);
        assert(kept.restrict(keys.to_set()) =~= kept);
        proof {
            added.lemma_len();
        }
        let ghost s = added.seq();
        let mut next: u32 = prev.next_id;
        let mut k: usize = 0;
        while k < added.paths.len()
            invariant
                ids.wf(),
                s == added.seq(),
                paths::all_normal(s),
                k <= s.len(),
                prev.next_id + s.len() <= u32::MAX,
                (ids@, next as nat) == with_fresh(kept, prev.next_id as nat, s.take(k as int)),
            decreases s.len() - k,
        {
            let p: &[u8] = added.paths[k].as_slice();
            proof {
                assert(s.take(k + 1).drop_last() =~= s.take(k as int));
                assert(path_resolve::normal(s[k as int]) == s[k as int]);
                lemma_with_fresh_next(kept, prev.next_id as nat, s.take(k as int));
            }
            if ids.get(p).is_none() {
                ids.insert(p, next);
                next = next + 1;
            }
            k = k + 1;
        }
        assert(s.take(k as int) =~= s);
        PathIndex { ids, next_id: next }
    }

    /// The live paths in their order: the list that the path index sidecar holds.
    pub fn cached_list(&self) -> (r: Vec<Vec<u8>>)
        requires
            self.wf(),
        ensures
            paths::path_views(r@) == live_list(*self),
            paths::path_views(r@) == self.ids.keys.seq(),
    {
        let copy = self.ids.keys.copy();
        proof {
            assert(self.file_ids().dom() =~= self.ids.keys@);
            commit::lemma_sorted_paths(self.ids.keys);
            commit::lemma_sorted_paths(copy);
        }
        copy.paths
    }

    /// The next free id.
    pub fn next_file_id(&self) -> (n: u32)
        ensures
            n == self.next_id,
    {
        self.next_id
    }

    /// How many paths are live.
    pub fn live_path_count(&self) -> (n: usize)
        requires
            self.wf(),
        ensures
            n == self.file_ids().len(),
    {
        self.ids.len()
    }
}

/// A path that stays keeps its id, whatever comes and goes beside it.
pub proof fn law_surviving_paths_keep_their_ids(
    m: Map<Seq<u8>, u32>,
    next: nat,
    s: Seq<Seq<u8>>,
    p: Seq<u8>,
)
    requires
        m.contains_key(p),
    ensures
        with_fresh(m, next, s).0.contains_key(p),
        with_fresh(m, next, s).0[p] == m[p],
    decreases s.len(),
{
    if s.len() > 0 {
        law_surviving_paths_keep_their_ids(m, next, s.drop_last(), p);
    }
}

} // verus!
