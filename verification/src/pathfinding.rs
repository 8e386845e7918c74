//! A* search over the hex map.

use crate::coords::{
    adjacent, hex_dist, lemma_hex_dist_self, lemma_tile_key_bijective, lemma_tile_key_injective,
    neighbor, representable, tile_key, tiles_of, HexMath, OffsetCoord,
};
use crate::costs::{cost_of, costs_positive, key_set, tile_set, CostMap, DEFAULT_COST};
use crate::open_list::{Node, OpenList};
use crate::routes::{
    is_route, lemma_prefix_cost_full, lemma_prefix_cost_monotone, lemma_prefix_cost_step,
    lemma_remaining_cost, passable, prefix_cost, route_cost, steps_ok, Terrain,
};
use std::collections::HashMap;
use std::collections::HashSet;
use vstd::prelude::*;

verus! {

/// The estimate of the cost from `p` to the goal: the hex distance in default steps.
spec fn estimate(p: (int, int), to: (int, int)) -> int {
    hex_dist(p, to) * DEFAULT_COST
}

spec fn known(g: Map<u64, u64>, p: (int, int)) -> bool {
    g.contains_key(tile_key(p) as u64)
}

/// The same as [`known`], written apart so that a fact about a predecessor
/// does not call for the facts about its own predecessor in turn.
spec fn reached(g: Map<u64, u64>, p: (int, int)) -> bool {
    g.contains_key(tile_key(p) as u64)
}

spec fn gval(g: Map<u64, u64>, p: (int, int)) -> int {
    g[tile_key(p) as u64] as int
}

/// The start is known at cost zero.
spec fn origin_ok(t: Terrain, g: Map<u64, u64>) -> bool {
    representable(t.origin) && known(g, t.origin) && gval(g, t.origin) == 0
}

/// `q` is recorded as the tile from which `p` was reached, consistently with the costs.
spec fn link_ok(t: Terrain, g: Map<u64, u64>, q: (int, int), p: (int, int)) -> bool {
    &&& reached(g, q)
    &&& reached(g, p)
    &&& adjacent(q, p)
    &&& passable(t, p)
    &&& gval(g, q) + cost_of(t.costs, p) <= gval(g, p)
}

/// Every known tile but the start has a consistent predecessor.
spec fn links_ok(t: Terrain, g: Map<u64, u64>, parent: Map<u64, OffsetCoord>) -> bool {
    forall|p: (int, int)|
        representable(p) && #[trigger] known(g, p) && p != t.origin ==> parent.contains_key(
            tile_key(p) as u64,
        ) && link_ok(t, g, parent[tile_key(p) as u64]@, p)
}

spec fn entry_ok(g: Map<u64, u64>, to: (int, int), e: Node) -> bool {
    &&& known(g, e.pos@)
    &&& gval(g, e.pos@) <= e.g
    &&& e.f == e.g + estimate(e.pos@, to)
}

spec fn entries_ok(g: Map<u64, u64>, to: (int, int), open: Seq<Node>) -> bool {
    forall|i: int| 0 <= i < open.len() ==> entry_ok(g, to, #[trigger] open[i])
}

/// The open list holds an entry for `p` at its current cost.
spec fn queued(g: Map<u64, u64>, open: Seq<Node>, p: (int, int)) -> bool {
    exists|i: int| 0 <= i < open.len() && (#[trigger] open[i]).pos@ == p && open[i].g == gval(g, p)
}

/// The step from `p` to `m` cannot improve `m`.
spec fn relaxed(t: Terrain, g: Map<u64, u64>, p: (int, int), m: (int, int)) -> bool {
    passable(t, m) && gval(g, p) + cost_of(t.costs, m) <= u64::MAX ==> known(g, m) && gval(g, m)
        <= gval(g, p) + cost_of(t.costs, m)
}

/// The first `upto` neighbours of `p` are relaxed.
spec fn settled(t: Terrain, g: Map<u64, u64>, p: (int, int), upto: int) -> bool {
    forall|k: int| 0 <= k < upto ==> relaxed(t, g, p, #[trigger] neighbor(p, k))
}

/// Every known tile is queued at its current cost or settled, except that the
/// tile under expansion, if any, is settled only up to `upto`. The goal is never settled.
spec fn frontier_ok(
    t: Terrain,
    to: (int, int),
    g: Map<u64, u64>,
    open: Seq<Node>,
    pending: Option<(int, int)>,
    upto: int,
) -> bool {
    forall|p: (int, int)|
        representable(p) && #[trigger] known(g, p) ==> queued(g, open, p) || (p != to && settled(
            t,
            g,
            p,
            6,
        )) || (pending == Some(p) && p != to && settled(t, g, p, upto))
}

#[verifier::opaque]
spec fn search_inv(
    t: Terrain,
    to: (int, int),
    g: Map<u64, u64>,
    parent: Map<u64, OffsetCoord>,
    open: Seq<Node>,
    pending: Option<(int, int)>,
    upto: int,
) -> bool {
    &&& costs_positive(t.costs)
    &&& origin_ok(t, g)
    &&& links_ok(t, g, parent)
    &&& entries_ok(g, to, open)
    &&& frontier_ok(t, to, g, open, pending, upto)
}

proof fn lemma_inv_parts(
    t: Terrain,
    to: (int, int),
    g: Map<u64, u64>,
    parent: Map<u64, OffsetCoord>,
    open: Seq<Node>,
    pending: Option<(int, int)>,
    upto: int,
)
    requires
        search_inv(t, to, g, parent, open, pending, upto),
    ensures
        costs_positive(t.costs),
        origin_ok(t, g),
        links_ok(t, g, parent),
        entries_ok(g, to, open),
{
    reveal(search_inv);
}

/// What is left to improve: over all keys below `n`, the known cost of the
/// tile, or more than any cost for a tile not reached yet.
spec fn potential(g: Map<u64, u64>, n: nat) -> nat
    decreases n,
{
    if n == 0 {
        0
    } else {
        let k = (n - 1) as u64;
        (if g.contains_key(k) {
            g[k] as nat
        } else {
            0x1_0000_0000_0000_0000nat
        }) + potential(g, (n - 1) as nat)
    }
}

spec fn total_potential(g: Map<u64, u64>) -> nat {
    potential(g, 0x1_0000_0000_0000_0000nat)
}

proof fn lemma_potential_insert(g: Map<u64, u64>, k: u64, v: u64, n: nat)
    requires
        g.contains_key(k) ==> v < g[k],
        n <= 0x1_0000_0000_0000_0000nat,
    ensures
        potential(g.insert(k, v), n) <= potential(g, n),
        n > k ==> potential(g.insert(k, v), n) < potential(g, n),
    decreases n,
{
    if n > 0 {
        lemma_potential_insert(g, k, v, (n - 1) as nat);
    }
}

proof fn lemma_init(t: Terrain, to: (int, int), from: OffsetCoord, e: Node)
    requires
        costs_positive(t.costs),
        t.origin == from@,
        e.pos == from,
        e.g == 0,
        e.f == estimate(from@, to),
    ensures
        search_inv(
            t,
            to,
            Map::<u64, u64>::empty().insert(tile_key(from@) as u64, 0),
            Map::<u64, OffsetCoord>::empty(),
            seq![e],
            None,
            0,
        ),
{
    reveal(search_inv);
    let g = Map::<u64, u64>::empty().insert(tile_key(from@) as u64, 0);
    let open = seq![e];
    lemma_tile_key_bijective(from@, 0);
    assert forall|p: (int, int)| representable(p) && #[trigger] known(g, p) implies p == from@ by {
        lemma_tile_key_bijective(p, 0);
        lemma_tile_key_injective(p, from@);
    }
    assert(open[0].pos@ == from@);
    assert(queued(g, open, from@));
}

/// Taking the entry `e` off the open list, whatever order the rest is left
/// in: either the entry was out of date, or its tile is now the one under
/// expansion, or it is the goal.
proof fn lemma_pop(
    t: Terrain,
    to: (int, int),
    g: Map<u64, u64>,
    parent: Map<u64, OffsetCoord>,
    open: Seq<Node>,
    rest: Seq<Node>,
    e: Node,
)
    requires
        search_inv(t, to, g, parent, open, None, 0),
        open.contains(e),
        forall|x: Node| rest.contains(x) ==> open.contains(x),
        forall|x: Node| open.contains(x) && x != e ==> rest.contains(x),
    ensures
        entry_ok(g, to, e),
        e.g > gval(g, e.pos@) ==> search_inv(t, to, g, parent, rest, None, 0),
        e.g == gval(g, e.pos@) && e.pos@ != to ==> search_inv(
            t,
            to,
            g,
            parent,
            rest,
            Some(e.pos@),
            0,
        ),
{
    reveal(search_inv);
    let at = choose|i: int| 0 <= i < open.len() && open[i] == e;
    assert(entry_ok(g, to, open[at]));
    assert forall|i: int| 0 <= i < rest.len() implies entry_ok(g, to, #[trigger] rest[i]) by {
        assert(rest.contains(rest[i]));
        let k = choose|k: int| 0 <= k < open.len() && open[k] == rest[i];
        assert(entry_ok(g, to, open[k]));
    }
    assert(entries_ok(g, to, rest));
    assert forall|p: (int, int)| queued(g, open, p) && !(p == e.pos@ && e.g == gval(g, p))
        implies queued(g, rest, p) by {
        let i = choose|i: int|
            0 <= i < open.len() && (#[trigger] open[i]).pos@ == p && open[i].g == gval(g, p);
        let x = open[i];
        assert(open.contains(x));
        assert(rest.contains(x));
        let k = choose|k: int| 0 <= k < rest.len() && rest[k] == x;
        assert(rest[k].pos@ == p && rest[k].g == gval(g, p));
    }
    if e.g > gval(g, e.pos@) {
        assert forall|p: (int, int)| representable(p) && #[trigger] known(g, p) implies queued(
            g,
            rest,
            p,
        ) || (p != to && settled(t, g, p, 6)) by {
            if queued(g, open, p) {
                assert(queued(g, rest, p));
            }
        }
        assert(frontier_ok(t, to, g, rest, None, 0));
    }
    if e.g == gval(g, e.pos@) && e.pos@ != to {
        assert forall|p: (int, int)| representable(p) && #[trigger] known(g, p) implies queued(
            g,
            rest,
            p,
        ) || (p != to && settled(t, g, p, 6)) || (Some(e.pos@) == Some(p) && p != to && settled(
            t,
            g,
            p,
            0,
        )) by {
            if p == e.pos@ {
                assert(settled(t, g, p, 0));
            } else if queued(g, open, p) {
                assert(queued(g, rest, p));
            }
        }
        assert(frontier_ok(t, to, g, rest, Some(e.pos@), 0));
    }
}

/// What a list holds after one more entry.
proof fn lemma_push_members(s: Seq<Node>, e: Node, x: Node)
    ensures
        s.push(e).contains(x) <==> (s.contains(x) || x == e),
{
    let t = s.push(e);
    if s.contains(x) {
        let k = choose|k: int| 0 <= k < s.len() && s[k] == x;
        assert(t[k] == x);
    }
    if x == e {
        assert(t[s.len() as int] == x);
    }
    if t.contains(x) {
        let k = choose|k: int| 0 <= k < t.len() && t[k] == x;
        if k < s.len() {
            assert(s[k] == x);
        }
    }
}

/// The invariant does not depend on the order of the open list, only on what it holds.
proof fn lemma_same_members(
    t: Terrain,
    to: (int, int),
    g: Map<u64, u64>,
    parent: Map<u64, OffsetCoord>,
    a: Seq<Node>,
    b: Seq<Node>,
    pending: Option<(int, int)>,
    upto: int,
)
    requires
        search_inv(t, to, g, parent, a, pending, upto),
        forall|x: Node| a.contains(x) <==> b.contains(x),
    ensures
        search_inv(t, to, g, parent, b, pending, upto),
{
    reveal(search_inv);
    assert forall|i: int| 0 <= i < b.len() implies entry_ok(g, to, #[trigger] b[i]) by {
        assert(b.contains(b[i]));
        let k = choose|k: int| 0 <= k < a.len() && a[k] == b[i];
        assert(entry_ok(g, to, a[k]));
    }
    assert forall|p: (int, int)| queued(g, a, p) implies queued(g, b, p) by {
        let i = choose|i: int|
            0 <= i < a.len() && (#[trigger] a[i]).pos@ == p && a[i].g == gval(g, p);
        let x = a[i];
        assert(a.contains(x));
        let k = choose|k: int| 0 <= k < b.len() && b[k] == x;
        assert(b[k].pos@ == p && b[k].g == gval(g, p));
    }
    assert forall|p: (int, int)| representable(p) && #[trigger] known(g, p) implies queued(g, b, p)
        || (p != to && settled(t, g, p, 6)) || (pending == Some(p) && p != to && settled(
        t,
        g,
        p,
        upto,
    )) by {
        if queued(g, a, p) {
            assert(queued(g, b, p));
        }
    }
}

/// The neighbour `k` of the tile under expansion needs no change.
proof fn lemma_relax_skip(
    t: Terrain,
    to: (int, int),
    g: Map<u64, u64>,
    parent: Map<u64, OffsetCoord>,
    open: Seq<Node>,
    n: (int, int),
    k: int,
)
    requires
        search_inv(t, to, g, parent, open, Some(n), k),
        0 <= k < 6,
        relaxed(t, g, n, neighbor(n, k)),
    ensures
        search_inv(t, to, g, parent, open, Some(n), k + 1),
{
    reveal(search_inv);
    assert forall|p: (int, int)| representable(p) && #[trigger] known(g, p) implies queued(
        g,
        open,
        p,
    ) || (p != to && settled(t, g, p, 6)) || (Some(n) == Some(p) && p != to && settled(
        t,
        g,
        p,
        k + 1,
    )) by {
        if !queued(g, open, p) && !(p != to && settled(t, g, p, 6)) {
            assert(p == n && settled(t, g, p, k));
            assert forall|j: int| 0 <= j < k + 1 implies relaxed(
                t,
                g,
                p,
                #[trigger] neighbor(p, j),
            ) by {
                if j < k {
                } else {
                }
            }
        }
    }
}

/// The tile under expansion has all six neighbours relaxed.
proof fn lemma_expanded(
    t: Terrain,
    to: (int, int),
    g: Map<u64, u64>,
    parent: Map<u64, OffsetCoord>,
    open: Seq<Node>,
    n: (int, int),
)
    requires
        search_inv(t, to, g, parent, open, Some(n), 6),
    ensures
        search_inv(t, to, g, parent, open, None, 0),
{
    reveal(search_inv);
}

/// The neighbour `k` of the tile under expansion is reached more cheaply
/// through it: its cost and predecessor change and it gets a new entry.
proof fn lemma_relax_improve(
    t: Terrain,
    to: (int, int),
    g: Map<u64, u64>,
    parent: Map<u64, OffsetCoord>,
    open: Seq<Node>,
    n: OffsetCoord,
    k: int,
    e: Node,
)
    requires
        search_inv(t, to, g, parent, open, Some(n@), k),
        0 <= k < 6,
        known(g, n@),
        e.pos@ == neighbor(n@, k),
        passable(t, e.pos@),
        e.g == gval(g, n@) + cost_of(t.costs, e.pos@),
        e.f == e.g + estimate(e.pos@, to),
        known(g, e.pos@) ==> e.g < gval(g, e.pos@),
    ensures
        search_inv(
            t,
            to,
            g.insert(tile_key(e.pos@) as u64, e.g),
            parent.insert(tile_key(e.pos@) as u64, n),
            open.push(e),
            Some(n@),
            k + 1,
        ),
{
    reveal(search_inv);
    let m = e.pos@;
    let mk = tile_key(m) as u64;
    let g2 = g.insert(mk, e.g);
    let parent2 = parent.insert(mk, n);
    let open2 = open.push(e);
    lemma_tile_key_bijective(m, 0);
    assert(cost_of(t.costs, m) >= 1);
    assert(m != n@);
    assert(m != t.origin);
    assert forall|p: (int, int)| representable(p) && p != m implies tile_key(p) as u64
        != mk by {
        lemma_tile_key_bijective(p, 0);
        if tile_key(p) == tile_key(m) {
            lemma_tile_key_injective(p, m);
        }
    }
    assert forall|p: (int, int)| representable(p) && known(g, p) implies #[trigger] known(g2, p)
        && gval(g2, p) <= gval(g, p) && (p != m ==> gval(g2, p) == gval(g, p)) by {}
    assert forall|p: (int, int)| representable(p) && #[trigger] known(g2, p) implies p == m
        || known(g, p) by {}
    assert(adjacent(n@, m));
    // predecessors
    assert forall|p: (int, int)|
        representable(p) && #[trigger] known(g2, p) && p != t.origin implies parent2.contains_key(
        tile_key(p) as u64,
    ) && link_ok(t, g2, parent2[tile_key(p) as u64]@, p) by {
        if p == m {
            assert(known(g2, n@));
        } else {
            assert(known(g, p));
            let q = parent[tile_key(p) as u64]@;
            assert(link_ok(t, g, q, p));
            assert(known(g2, q));
        }
    }
    // entries
    assert forall|i: int| 0 <= i < open2.len() implies entry_ok(g2, to, #[trigger] open2[i]) by {
        if i < open.len() {
            assert(open2[i] == open[i]);
            assert(entry_ok(g, to, open[i]));
            assert(known(g2, open[i].pos@));
        } else {
            assert(open2[i] == e);
        }
    }
    // frontier
    assert forall|p: (int, int)| representable(p) && #[trigger] known(g2, p) implies queued(
        g2,
        open2,
        p,
    ) || (p != to && settled(t, g2, p, 6)) || (Some(n@) == Some(p) && p != to && settled(
        t,
        g2,
        p,
        k + 1,
    )) by {
        if p == m {
            assert(open2[open.len() as int] == e);
            assert(queued(g2, open2, p));
        } else {
            assert(known(g, p));
            if queued(g, open, p) {
                let i = choose|i: int|
                    0 <= i < open.len() && (#[trigger] open[i]).pos@ == p && open[i].g == gval(
                        g,
                        p,
                    );
                assert(open2[i] == open[i]);
                assert(queued(g2, open2, p));
            } else if p != to && settled(t, g, p, 6) {
                assert forall|j: int| 0 <= j < 6 implies relaxed(
                    t,
                    g2,
                    p,
                    #[trigger] neighbor(p, j),
                ) by {
                    let x = neighbor(p, j);
                    assert(relaxed(t, g, p, x));
                    if passable(t, x) && gval(g, p) + cost_of(t.costs, x) <= u64::MAX {
                        assert(known(g, x));
                        assert(known(g2, x) && gval(g2, x) <= gval(g, x));
                    }
                }
            } else {
                assert(p == n@ && p != to && settled(t, g, p, k));
                assert forall|j: int| 0 <= j < k + 1 implies relaxed(
                    t,
                    g2,
                    p,
                    #[trigger] neighbor(p, j),
                ) by {
                    let x = neighbor(p, j);
                    if j < k {
                        assert(relaxed(t, g, p, x));
                        if passable(t, x) && gval(g, p) + cost_of(t.costs, x) <= u64::MAX {
                            assert(known(g, x));
                            assert(known(g2, x) && gval(g2, x) <= gval(g, x));
                        }
                    } else {
                        assert(x == m);
                    }
                }
            }
        }
    }
}

/// Along a route, either some tile up to position `i` waits in the open list
/// at a cost no higher than that of the route up to it, or the tile at `i` is
/// known at no more than the cost of the route up to it.
proof fn lemma_route_progress(
    t: Terrain,
    to: (int, int),
    g: Map<u64, u64>,
    parent: Map<u64, OffsetCoord>,
    open: Seq<Node>,
    r: Seq<(int, int)>,
    i: int,
)
    requires
        search_inv(t, to, g, parent, open, None, 0),
        r.len() >= 1,
        r[0] == t.origin,
        steps_ok(t, r),
        0 <= i < r.len(),
        route_cost(t.costs, r) <= u64::MAX,
    ensures
        (exists|j: int|
            0 <= j <= i && queued(g, open, #[trigger] r[j]) && gval(g, r[j]) <= prefix_cost(
                t.costs,
                r,
                j,
            )) || (known(g, r[i]) && gval(g, r[i]) <= prefix_cost(t.costs, r, i)),
        representable(r[i]),
    decreases i,
{
    reveal(search_inv);
    lemma_prefix_cost_full(t.costs, r);
    if i == 0 {
    } else {
        lemma_route_progress(t, to, g, parent, open, r, i - 1);
        lemma_prefix_cost_step(t.costs, r, i - 1);
        lemma_prefix_cost_monotone(t.costs, r, i, r.len() - 1);
        let found = exists|j: int|
            0 <= j <= i - 1 && queued(g, open, #[trigger] r[j]) && gval(g, r[j]) <= prefix_cost(
                t.costs,
                r,
                j,
            );
        if found {
            let j = choose|j: int|
                0 <= j <= i - 1 && queued(g, open, #[trigger] r[j]) && gval(g, r[j])
                    <= prefix_cost(t.costs, r, j);
            assert(0 <= j <= i && queued(g, open, r[j]));
        } else {
            let p = r[i - 1];
            assert(known(g, p));
            if queued(g, open, p) {
                assert(0 <= i - 1 <= i && queued(g, open, r[i - 1]));
            } else {
                assert(settled(t, g, p, 6));
                assert(adjacent(p, r[i]));
                let k = choose|k: int| 0 <= k < 6 && r[i] == #[trigger] neighbor(p, k);
                assert(relaxed(t, g, p, neighbor(p, k)));
                assert(passable(t, r[i]));
            }
        }
    }
}

/// When the open list is empty, no route of representable cost reaches the goal.
proof fn lemma_no_route(
    t: Terrain,
    to: (int, int),
    g: Map<u64, u64>,
    parent: Map<u64, OffsetCoord>,
    r: Seq<(int, int)>,
)
    requires
        search_inv(t, to, g, parent, Seq::<Node>::empty(), None, 0),
        is_route(t, r, to),
    ensures
        route_cost(t.costs, r) > u64::MAX,
{
    reveal(search_inv);
    if route_cost(t.costs, r) <= u64::MAX {
        let open = Seq::<Node>::empty();
        lemma_route_progress(t, to, g, parent, open, r, r.len() - 1);
        assert(forall|p: (int, int)| !queued(g, open, p));
        assert(known(g, to));
    }
}

/// When an entry of the goal has the least `f` of the open list and no tile is
/// cheaper than a default step, no route costs less than the goal's known cost.
proof fn lemma_goal_optimal(
    t: Terrain,
    to: (int, int),
    g: Map<u64, u64>,
    parent: Map<u64, OffsetCoord>,
    open: Seq<Node>,
    e: Node,
    r: Seq<(int, int)>,
)
    requires
        search_inv(t, to, g, parent, open, None, 0),
        open.contains(e),
        e.pos@ == to,
        forall|x: Node| open.contains(x) ==> e.f <= x.f,
        forall|p: (int, int)| cost_of(t.costs, p) >= DEFAULT_COST,
        is_route(t, r, to),
    ensures
        gval(g, to) <= route_cost(t.costs, r),
{
    reveal(search_inv);
    let at = choose|i: int| 0 <= i < open.len() && open[i] == e;
    assert(entry_ok(g, to, open[at]));
    if route_cost(t.costs, r) <= u64::MAX {
        let last = r.len() - 1;
        lemma_route_progress(t, to, g, parent, open, r, last);
        lemma_prefix_cost_full(t.costs, r);
        if known(g, r[last]) && gval(g, r[last]) <= prefix_cost(t.costs, r, last) {
        } else {
            let j = choose|j: int|
                0 <= j <= last && queued(g, open, #[trigger] r[j]) && gval(g, r[j])
                    <= prefix_cost(t.costs, r, j);
            let i = choose|i: int|
                0 <= i < open.len() && (#[trigger] open[i]).pos@ == r[j] && open[i].g == gval(
                    g,
                    r[j],
                );
            assert(entry_ok(g, to, open[i]));
            lemma_remaining_cost(t.costs, t, r, j, last);
            lemma_hex_dist_self(to);
            assert(open.contains(open[i]));
            assert(e.f <= open[i].f);
        }
    }
}

/// The tiles from the goal back to `cur`, each reached from the next.
spec fn chain_ok(
    t: Terrain,
    g: Map<u64, u64>,
    rev: Seq<OffsetCoord>,
    cur: (int, int),
    to: (int, int),
) -> bool {
    &&& known(g, cur)
    &&& rev.len() == 0 ==> cur == to
    &&& rev.len() > 0 ==> rev[0]@ == to && link_ok(t, g, cur, rev.last()@)
    &&& forall|j: int| 0 <= j < rev.len() - 1 ==> link_ok(t, g, (#[trigger] rev[j + 1])@, rev[j]@)
}

/// A chain from the goal back to the start, read backwards, costs no more up
/// to each tile than that tile's known cost.
proof fn lemma_chain_cost(t: Terrain, g: Map<u64, u64>, full: Seq<OffsetCoord>, r: Seq<(int, int)>, i: int)
    requires
        origin_ok(t, g),
        full.len() >= 1,
        full.last()@ == t.origin,
        forall|j: int| 0 <= j < full.len() - 1 ==> link_ok(t, g, (#[trigger] full[j + 1])@, full[j]@),
        r.len() == full.len(),
        forall|j: int| 0 <= j < r.len() ==> #[trigger] r[j] == full[full.len() - 1 - j]@,
        0 <= i < r.len(),
    ensures
        prefix_cost(t.costs, r, i) <= gval(g, r[i]),
    decreases i,
{
    lemma_prefix_cost_full(t.costs, r);
    if i > 0 {
        lemma_chain_cost(t, g, full, r, i - 1);
        lemma_prefix_cost_step(t.costs, r, i - 1);
        let j = full.len() - 1 - i;
        assert(link_ok(t, g, full[j + 1]@, full[j]@));
        assert(r[i - 1] == full[full.len() - 1 - (i - 1)]@);
    }
}

/// Follows the predecessors from the goal back to the start and returns the
/// tiles in walking order.
fn reconstruct(
    from: OffsetCoord,
    to: OffsetCoord,
    g_scores: &HashMap<u64, u64>,
    came_from: &HashMap<u64, OffsetCoord>,
    Ghost(t): Ghost<Terrain>,
) -> (path: Vec<OffsetCoord>)
    requires
        costs_positive(t.costs),
        origin_ok(t, g_scores@),
        links_ok(t, g_scores@, came_from@),
        t.origin == from@,
        known(g_scores@, to@),
        !t.blocked.contains(to@),
    ensures
        is_route(t, tiles_of(path@), to@),
        route_cost(t.costs, tiles_of(path@)) <= gval(g_scores@, to@),
        from == to ==> path@ == seq![from],
{
    let mut rev: Vec<OffsetCoord> = Vec::new();
    let mut cur = to;
    while cur != from
        invariant
            costs_positive(t.costs),
            origin_ok(t, g_scores@),
            links_ok(t, g_scores@, came_from@),
            t.origin == from@,
            chain_ok(t, g_scores@, rev@, cur@, to@),
            from == to ==> rev@.len() == 0 && cur == to,
        decreases gval(g_scores@, cur@),
    {
        let k = cur.key();
        proof {
            lemma_tile_key_bijective(cur@, 0);
            assert(known(g_scores@, cur@));
            assert(cost_of(t.costs, cur@) >= 1);
        }
        let prev = *came_from.get(&k).unwrap();
        assert(link_ok(t, g_scores@, prev@, cur@));
        rev.push(cur);
        cur = prev;
    }
    rev.push(from);
    let ghost full = rev@;
    assert(forall|j: int|
        0 <= j < full.len() - 1 ==> link_ok(t, g_scores@, (#[trigger] full[j + 1])@, full[j]@));
    assert(full[0]@ == to@);
    let mut path: Vec<OffsetCoord> = Vec::new();
    let mut i: usize = rev.len();
    while i > 0
        invariant
            i <= rev.len(),
            rev@ == full,
            path@.len() == full.len() - i,
            forall|j: int| 0 <= j < path@.len() ==> #[trigger] path@[j] == full[full.len() - 1 - j],
        decreases i,
    {
        i = i - 1;
        path.push(rev[i]);
    }
    proof {
        let r = tiles_of(path@);
        assert forall|j: int| 1 <= j < r.len() implies adjacent(r[j - 1], #[trigger] r[j])
            && passable(t, r[j]) by {
            let x = full.len() - 1 - j;
            assert(link_ok(t, g_scores@, full[x + 1]@, full[x]@));
            assert(r[j - 1] == path@[j - 1]@);
        }
        lemma_chain_cost(t, g_scores@, full, r, r.len() - 1);
        lemma_prefix_cost_full(t.costs, r);
        if from == to {
            assert(path@ =~= seq![from]);
        }
    }
    path
}

/// The terrain of a search from `from` with the given closed tiles, costs and radius.
pub open spec fn terrain_of(
    from: (int, int),
    blocked: Seq<OffsetCoord>,
    costs: Map<(int, int), int>,
    max_distance: int,
) -> Terrain {
    Terrain { origin: from, blocked: tile_set(blocked), costs: costs, max_distance: max_distance }
}

/// Some route to `to` exists whose cost fits 64 bits.
pub open spec fn reachable(t: Terrain, to: (int, int)) -> bool {
    exists|r: Seq<(int, int)>| #[trigger] is_route(t, r, to) && route_cost(t.costs, r) <= u64::MAX
}

/// No tile is cheaper to enter than a tile without an entry. Under this
/// condition the hex distance never overestimates what is left of a route.
pub open spec fn costs_admissible(costs: Map<(int, int), int>) -> bool {
    forall|p: (int, int)| cost_of(costs, p) >= DEFAULT_COST
}

fn estimate_of(pos: OffsetCoord, to: OffsetCoord) -> (h: u128)
    ensures
        h == estimate(pos@, to@),
{
    let d = HexMath::hex_distance(pos, to);
    (d as u128) * (DEFAULT_COST as u128)
}

impl HexMath {
    /// A* from `from` to `to`. Tiles in `blocked` are never entered, nor tiles
    /// farther than `max_distance` from `from`; entering a tile costs what
    /// `costs` says. Returns the tiles of a route, both ends included, or an
    /// empty list when there is none.
    ///
    /// The route is a cheapest one whenever no tile costs less than
    /// [`DEFAULT_COST`].
    pub fn find_path(
        from: OffsetCoord,
        to: OffsetCoord,
        blocked: &Vec<OffsetCoord>,
        costs: &CostMap,
        max_distance: i32,
    ) -> (path: Vec<OffsetCoord>)
        requires
            costs.wf(),
        ensures
            path@.len() > 0 <==> reachable(
                terrain_of(from@, blocked@, costs@, max_distance as int),
                to@,
            ),
            tile_set(blocked@).contains(to@) ==> path@.len() == 0,
            from == to && !tile_set(blocked@).contains(to@) ==> path@ == seq![from],
            path@.len() > 0 ==> is_route(
                terrain_of(from@, blocked@, costs@, max_distance as int),
                tiles_of(path@),
                to@,
            ),
            path@.len() > 0 && costs_admissible(costs@) ==> forall|r: Seq<(int, int)>|
                #[trigger] is_route(terrain_of(from@, blocked@, costs@, max_distance as int), r, to@)
                    ==> route_cost(costs@, tiles_of(path@)) <= route_cost(costs@, r),
    {
        let ghost t = terrain_of(from@, blocked@, costs@, max_distance as int);
        let blocked_set = key_set(blocked);
        let goal_key = to.key();
        proof {
            costs.lemma_wf_positive();
            lemma_tile_key_bijective(to@, 0);
        }
        if blocked_set.contains(&goal_key) {
            return Vec::new();
        }
        let mut open = OpenList::new();
        let mut came_from: HashMap<u64, OffsetCoord> = HashMap::new();
        let mut g_scores: HashMap<u64, u64> = HashMap::new();
        let start = Node { pos: from, g: 0, f: estimate_of(from, to) };
        g_scores.insert(from.key(), 0);
        open.push(start);
        proof {
            lemma_init(t, to@, from, start);
            assert(seq![start].contains(start)) by {
                assert(seq![start][0] == start);
            }
            assert forall|x: Node| seq![start].contains(x) <==> open@.contains(x) by {
                if seq![start].contains(x) {
                    let k = choose|k: int| 0 <= k < 1 && seq![start][k] == x;
                }
            }
            lemma_same_members(
                t,
                to@,
                g_scores@,
                came_from@,
                seq![start],
                open@,
                None,
                0,
            );
        }
        while open.len() > 0
            invariant
                t == terrain_of(from@, blocked@, costs@, max_distance as int),
                !t.blocked.contains(to@),
                forall|p: (int, int)|
                    representable(p) ==> (blocked_set@.contains(tile_key(p) as u64)
                        <==> #[trigger] tile_set(blocked@).contains(p)),
                open.wf(),
                search_inv(t, to@, g_scores@, came_from@, open@, None, 0),
            decreases total_potential(g_scores@), open@.len(),
        {
            let ghost before = open@;
            let current = open.pop_min();
            proof {
                lemma_pop(t, to@, g_scores@, came_from@, before, open@, current);
            }
            if current.pos == to {
                proof {
                    lemma_inv_parts(t, to@, g_scores@, came_from@, before, None, 0);
                }
                let path = reconstruct(from, to, &g_scores, &came_from, Ghost(t));
                proof {
                    let found = tiles_of(path@);
                    assert(is_route(t, found, to@) && route_cost(t.costs, found) <= u64::MAX);
                    if costs_admissible(costs@) {
                        assert forall|r: Seq<(int, int)>| #[trigger] is_route(t, r, to@) implies route_cost(
                            costs@,
                            found,
                        ) <= route_cost(costs@, r) by {
                            lemma_goal_optimal(
                                t,
                                to@,
                                g_scores@,
                                came_from@,
                                before,
                                current,
                                r,
                            );
                        }
                    }
                }
                return path;
            }
            let cur_key = current.pos.key();
            proof {
                lemma_tile_key_bijective(current.pos@, 0);
            }
            let current_g = *g_scores.get(&cur_key).unwrap();
            if current.g <= current_g {
                let ghost pot0 = total_potential(g_scores@);
                let ghost len0 = open@.len();
                let mut k: usize = 0;
                while k < 6
                    invariant
                        k <= 6,
                        t == terrain_of(from@, blocked@, costs@, max_distance as int),
                        forall|p: (int, int)|
                            representable(p) ==> (blocked_set@.contains(tile_key(p) as u64)
                                <==> #[trigger] tile_set(blocked@).contains(p)),
                        search_inv(
                            t,
                            to@,
                            g_scores@,
                            came_from@,
                            open@,
                            Some(current.pos@),
                            k as int,
                        ),
                        known(g_scores@, current.pos@),
                        gval(g_scores@, current.pos@) == current_g,
                        total_potential(g_scores@) <= pot0,
                        total_potential(g_scores@) == pot0 ==> open@.len() == len0,
                        open.wf(),
                    decreases 6 - k,
                {
                    let ghost m = neighbor(current.pos@, k as int);
                    let mut improved = false;
                    match current.pos.neighbor_at(k) {
                        Some(n) => {
                            let nk = n.key();
                            proof {
                                lemma_tile_key_bijective(n@, 0);
                            }
                            if !blocked_set.contains(&nk) && HexMath::hex_distance(from, n)
                                <= max_distance as i64 {
                                let cost = costs.get(n);
                                match current_g.checked_add(cost as u64) {
                                    Some(tentative) => {
                                        let better = match g_scores.get(&nk) {
                                            Some(prev) => tentative < *prev,
                                            None => true,
                                        };
                                        if better {
                                            let ghost old_open = open@;
                                            let e = Node {
                                                pos: n,
                                                g: tentative,
                                                f: tentative as u128 + estimate_of(n, to),
                                            };
                                            proof {
                                                lemma_relax_improve(
                                                    t,
                                                    to@,
                                                    g_scores@,
                                                    came_from@,
                                                    open@,
                                                    current.pos,
                                                    k as int,
                                                    e,
                                                );
                                                lemma_potential_insert(
                                                    g_scores@,
                                                    nk,
                                                    tentative,
                                                    0x1_0000_0000_0000_0000nat,
                                                );
                                                assert(m != current.pos@);
                                                if tile_key(m) == tile_key(current.pos@) {
                                                    lemma_tile_key_injective(m, current.pos@);
                                                }
                                            }
                                            let ghost pushed = open@.push(e);
                                            g_scores.insert(nk, tentative);
                                            came_from.insert(nk, current.pos);
                                            open.push(e);
                                            improved = true;
                                            proof {
                                                assert forall|x: Node|
                                                    pushed.contains(x) <==> open@.contains(x) by {
                                                    lemma_push_members(old_open, e, x);
                                                }
                                                lemma_same_members(
                                                    t,
                                                    to@,
                                                    g_scores@,
                                                    came_from@,
                                                    pushed,
                                                    open@,
                                                    Some(current.pos@),
                                                    k + 1,
                                                );
                                            }
                                        }
                                    },
                                    None => {},
                                }
                            }
                        },
                        None => {},
                    }
                    proof {
                        if !improved {
                            assert(relaxed(t, g_scores@, current.pos@, m));
                            lemma_relax_skip(
                                t,
                                to@,
                                g_scores@,
                                came_from@,
                                open@,
                                current.pos@,
                                k as int,
                            );
                        }
                    }
                    k = k + 1;
                }
                proof {
                    lemma_expanded(t, to@, g_scores@, came_from@, open@, current.pos@);
                }
            }
        }
        proof {
            assert(open@ =~= Seq::<Node>::empty());
            assert forall|r: Seq<(int, int)>| #[trigger] is_route(t, r, to@) implies route_cost(
                t.costs,
                r,
            ) > u64::MAX by {
                lemma_no_route(t, to@, g_scores@, came_from@, r);
            }
            if from == to {
                let r = seq![from@];
                assert(is_route(t, r, to@));
            }
        }
        Vec::new()
    }
}

} // verus!
