//! What a route over the hex map is, and what it costs.

use crate::coords::{
    adjacent, hex_dist, lemma_dist_one_is_adjacent, lemma_hex_dist_self,
    lemma_hex_dist_triangle, representable,
};
use crate::costs::{cost_of, costs_positive, DEFAULT_COST};
use vstd::prelude::*;

verus! {

/// The ground a search walks on: where it starts, which tiles are closed,
/// what entering a tile costs and how far from the start it may stray.
pub struct Terrain {
    pub origin: (int, int),
    pub blocked: Set<(int, int)>,
    pub costs: Map<(int, int), int>,
    pub max_distance: int,
}

/// A tile that a route may enter.
pub open spec fn passable(t: Terrain, p: (int, int)) -> bool {
    &&& representable(p)
    &&& !t.blocked.contains(p)
    &&& hex_dist(t.origin, p) <= t.max_distance
}

/// Every step of `r` goes to an adjacent, passable tile.
pub open spec fn steps_ok(t: Terrain, r: Seq<(int, int)>) -> bool {
    forall|i: int| 1 <= i < r.len() ==> adjacent(r[i - 1], #[trigger] r[i]) && passable(t, r[i])
}

/// `r` leads from the origin to `to`, which is not blocked, over passable tiles.
pub open spec fn is_route(t: Terrain, r: Seq<(int, int)>, to: (int, int)) -> bool {
    &&& r.len() >= 1
    &&& r[0] == t.origin
    &&& r.last() == to
    &&& !t.blocked.contains(to)
    &&& steps_ok(t, r)
}

/// Sum of the costs of the tiles entered along `r` (all but the first).
pub open spec fn route_cost(costs: Map<(int, int), int>, r: Seq<(int, int)>) -> int
    decreases r.len(),
{
    if r.len() <= 1 {
        0
    } else {
        route_cost(costs, r.drop_last()) + cost_of(costs, r.last())
    }
}

/// Consecutive tiles of a route are one step apart, and none but the first
/// is blocked or beyond the radius.
pub proof fn lemma_route_steps(t: Terrain, r: Seq<(int, int)>, to: (int, int), i: int)
    requires
        is_route(t, r, to),
        1 <= i < r.len(),
    ensures
        hex_dist(r[i - 1], r[i]) == 1,
        !t.blocked.contains(r[i]),
        hex_dist(t.origin, r[i]) <= t.max_distance,
{
    lemma_dist_one_is_adjacent(r[i - 1], r[i]);
}

/// Cost of the first `i + 1` tiles of `r`.
pub open spec fn prefix_cost(costs: Map<(int, int), int>, r: Seq<(int, int)>, i: int) -> int {
    route_cost(costs, r.take(i + 1))
}

pub proof fn lemma_prefix_cost_step(costs: Map<(int, int), int>, r: Seq<(int, int)>, i: int)
    requires
        0 <= i,
        i + 1 < r.len(),
    ensures
        prefix_cost(costs, r, i + 1) == prefix_cost(costs, r, i) + cost_of(costs, r[i + 1]),
        prefix_cost(costs, r, 0) == 0,
{
    assert(r.take(i + 2).drop_last() =~= r.take(i + 1));
    assert(r.take(i + 2).last() == r[i + 1]);
}

pub proof fn lemma_prefix_cost_full(costs: Map<(int, int), int>, r: Seq<(int, int)>)
    requires
        r.len() >= 1,
    ensures
        prefix_cost(costs, r, r.len() - 1) == route_cost(costs, r),
        prefix_cost(costs, r, 0) == 0,
{
    assert(r.take(r.len() as int) =~= r);
}

/// With positive costs, a longer prefix never costs less.
pub proof fn lemma_prefix_cost_monotone(
    costs: Map<(int, int), int>,
    r: Seq<(int, int)>,
    i: int,
    j: int,
)
    requires
        costs_positive(costs),
        0 <= i <= j < r.len(),
    ensures
        0 <= prefix_cost(costs, r, i) <= prefix_cost(costs, r, j),
    decreases j,
{
    if j == 0 {
    } else if i == j {
        lemma_prefix_cost_monotone(costs, r, 0, j - 1);
        lemma_prefix_cost_step(costs, r, j - 1);
    } else {
        lemma_prefix_cost_monotone(costs, r, i, j - 1);
        lemma_prefix_cost_step(costs, r, j - 1);
    }
}

/// Where no tile is cheaper than a default step, the rest of a route costs at
/// least the hex distance that is left, counted in default steps.
pub proof fn lemma_remaining_cost(costs: Map<(int, int), int>, t: Terrain, r: Seq<(int, int)>, j: int, i: int)
    requires
        forall|p: (int, int)| cost_of(costs, p) >= DEFAULT_COST,
        steps_ok(t, r),
        0 <= j <= i < r.len(),
    ensures
        hex_dist(r[j], r[i]) * DEFAULT_COST <= prefix_cost(costs, r, i) - prefix_cost(costs, r, j),
    decreases i - j,
{
    if i == j {
        lemma_hex_dist_self(r[j]);
    } else {
        lemma_remaining_cost(costs, t, r, j, i - 1);
        lemma_prefix_cost_step(costs, r, i - 1);
        lemma_dist_one_is_adjacent(r[i - 1], r[i]);
        lemma_hex_dist_triangle(r[j], r[i - 1], r[i]);
        assert(cost_of(costs, r[i]) >= DEFAULT_COST);
    }
}

} // verus!
