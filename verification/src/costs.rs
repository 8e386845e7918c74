//! Sparse movement costs per tile, in fixed-point units.

use crate::coords::{
    lemma_tile_key_bijective, lemma_tile_key_injective, representable, tile_key, OffsetCoord,
};
use std::collections::HashMap;
use std::collections::HashSet;
use vstd::prelude::*;

verus! {

/// Cost of entering a tile that has no entry of its own: one whole step.
pub const DEFAULT_COST: u32 = 1000;

/// Movement costs by tile. A tile without an entry costs [`DEFAULT_COST`].
pub struct CostMap {
    map: HashMap<u64, u32>,
}

impl View for CostMap {
    type V = Map<(int, int), int>;

    closed spec fn view(&self) -> Map<(int, int), int> {
        Map::new(
            |p: (int, int)| representable(p) && self.map@.contains_key(tile_key(p) as u64),
            |p: (int, int)| self.map@[tile_key(p) as u64] as int,
        )
    }
}

/// Cost of entering `p` under the entries `costs`.
pub open spec fn cost_of(costs: Map<(int, int), int>, p: (int, int)) -> int {
    if costs.contains_key(p) {
        costs[p]
    } else {
        DEFAULT_COST as int
    }
}

/// Every entry is a positive cost that fits 32 bits.
pub open spec fn costs_positive(costs: Map<(int, int), int>) -> bool {
    forall|p: (int, int)| #[trigger] costs.contains_key(p) ==> 1 <= costs[p] <= u32::MAX
}

impl CostMap {
    /// Well-formed: all stored costs are positive.
    pub closed spec fn wf(&self) -> bool {
        forall|k: u64| #[trigger] self.map@.contains_key(k) ==> self.map@[k] >= 1
    }

    pub proof fn lemma_wf_positive(&self)
        requires
            self.wf(),
        ensures
            costs_positive(self@),
    {
        assert forall|p: (int, int)| #[trigger] self@.contains_key(p) implies 1 <= self@[p]
            <= u32::MAX by {
            assert(self.map@.contains_key(tile_key(p) as u64));
        }
    }

    /// A cost map without entries.
    pub fn new() -> (m: CostMap)
        ensures
            m.wf(),
            m@ == Map::<(int, int), int>::empty(),
    {
        let m = CostMap { map: HashMap::new() };
        assert(m@ =~= Map::<(int, int), int>::empty());
        m
    }

    /// Sets the cost of entering `pos`, replacing an earlier entry.
    pub fn insert(&mut self, pos: OffsetCoord, cost: u32)
        requires
            old(self).wf(),
            cost >= 1,
        ensures
            final(self).wf(),
            final(self)@ == old(self)@.insert(pos@, cost as int),
    {
        let k = pos.key();
        self.map.insert(k, cost);
        proof {
            assert forall|p: (int, int)| representable(p) && p != pos@ implies tile_key(p)
                != tile_key(pos@) by {
                if tile_key(p) == tile_key(pos@) {
                    lemma_tile_key_injective(p, pos@);
                }
            }
            lemma_tile_key_bijective(pos@, 0);
            assert(self@ =~= old(self)@.insert(pos@, cost as int));
        }
    }

    /// Cost of entering `pos`.
    pub fn get(&self, pos: OffsetCoord) -> (c: u32)
        ensures
            c == cost_of(self@, pos@),
    {
        let k = pos.key();
        proof {
            lemma_tile_key_bijective(pos@, 0);
        }
        match self.map.get(&k) {
            Some(c) => *c,
            None => DEFAULT_COST,
        }
    }
}

/// The tiles named in a list.
pub open spec fn tile_set(tiles: Seq<OffsetCoord>) -> Set<(int, int)> {
    Set::new(|p: (int, int)| exists|i: int| 0 <= i < tiles.len() && (#[trigger] tiles[i])@ == p)
}

/// Collects the keys of a list of tiles for constant-time membership tests.
pub fn key_set(tiles: &Vec<OffsetCoord>) -> (set: HashSet<u64>)
    ensures
        forall|p: (int, int)|
            representable(p) ==> (set@.contains(tile_key(p) as u64) <==> #[trigger] tile_set(
                tiles@,
            ).contains(p)),
{
    let mut set: HashSet<u64> = HashSet::new();
    let mut i: usize = 0;
    while i < tiles.len()
        invariant
            i <= tiles.len(),
            forall|p: (int, int)|
                representable(p) ==> (set@.contains(tile_key(p) as u64) <==> #[trigger] tile_set(
                    tiles@.take(i as int),
                ).contains(p)),
        decreases tiles.len() - i,
    {
        let t = tiles[i];
        let k = t.key();
        set.insert(k);
        proof {
            let before = tiles@.take(i as int);
            let after = tiles@.take(i + 1);
            lemma_tile_key_bijective(t@, 0);
            assert forall|p: (int, int)| representable(p) implies (set@.contains(
                tile_key(p) as u64,
            ) <==> #[trigger] tile_set(after).contains(p)) by {
                lemma_tile_key_bijective(p, 0);
                if tile_set(before).contains(p) {
                    let j = choose|j: int| 0 <= j < before.len() && (#[trigger] before[j])@ == p;
                    assert(after[j]@ == p);
                }
                if p == t@ {
                    assert(after[i as int]@ == p);
                }
                if tile_set(after).contains(p) {
                    let j = choose|j: int| 0 <= j < after.len() && (#[trigger] after[j])@ == p;
                    if j < i {
                        assert(before[j]@ == p);
                    } else {
                        assert(p == t@);
                    }
                }
                if tile_key(p) == tile_key(t@) {
                    lemma_tile_key_injective(p, t@);
                }
            }
        }
        i = i + 1;
    }
    assert(tiles@.take(i as int) =~= tiles@);
    set
}

} // verus!
