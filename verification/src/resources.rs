//! What each player's tiles yield, summed by player.

use vstd::prelude::*;

verus! {

/// Food, production and gold.
#[derive(Clone, Copy, Debug, PartialEq, Eq, Structural)]
pub struct ResourceTotals {
    pub food: u64,
    pub production: u64,
    pub gold: u64,
}

impl View for ResourceTotals {
    type V = (int, int, int);

    open spec fn view(&self) -> (int, int, int) {
        (self.food as int, self.production as int, self.gold as int)
    }
}

pub struct ResourceCounter;

pub const PLAINS: i32 = 0;

pub const FOREST: i32 = 1;

pub const MOUNTAIN: i32 = 2;

pub const WATER: i32 = 3;

pub const DESERT: i32 = 4;

pub const FERTILE_PLAINS: i32 = 5;

/// Yield `(food, production, gold)` of one tile of the given type. A type
/// outside the table yields nothing.
pub open spec fn tile_yield(tile_type: int) -> (int, int, int) {
    if tile_type == PLAINS {
        (1, 1, 0)
    } else if tile_type == FOREST {
        (0, 2, 0)
    } else if tile_type == MOUNTAIN {
        (0, 3, 1)
    } else if tile_type == WATER {
        (0, 0, 2)
    } else if tile_type == DESERT {
        (1, 0, 1)
    } else if tile_type == FERTILE_PLAINS {
        (3, 1, 0)
    } else {
        (0, 0, 0)
    }
}

pub open spec fn add3(a: (int, int, int), b: (int, int, int)) -> (int, int, int) {
    (a.0 + b.0, a.1 + b.1, a.2 + b.2)
}

pub open spec fn sum3(a: (int, int, int)) -> int {
    a.0 + a.1 + a.2
}

/// Number of tiles that are counted: those present in both grids.
pub open spec fn counted_tiles(tile_types: Seq<i32>, owner_grid: Seq<i32>) -> int {
    if tile_types.len() <= owner_grid.len() {
        tile_types.len() as int
    } else {
        owner_grid.len() as int
    }
}

/// The yields of the first `n` tiles that player `p` owns.
pub open spec fn player_totals(tile_types: Seq<i32>, owner_grid: Seq<i32>, p: int, n: int) -> (
    int,
    int,
    int,
)
    decreases n,
{
    if n <= 0 {
        (0, 0, 0)
    } else {
        let rest = player_totals(tile_types, owner_grid, p, n - 1);
        if owner_grid[n - 1] == p {
            add3(rest, tile_yield(tile_types[n - 1] as int))
        } else {
            rest
        }
    }
}

/// Food, production and gold together, over the players below `np`, from the first `n` tiles.
pub open spec fn all_players_sum(tile_types: Seq<i32>, owner_grid: Seq<i32>, np: int, n: int) -> int
    decreases np,
{
    if np <= 0 {
        0
    } else {
        all_players_sum(tile_types, owner_grid, np - 1, n) + sum3(
            player_totals(tile_types, owner_grid, np - 1, n),
        )
    }
}

/// Food, production and gold together of those of the first `n` tiles whose
/// owner is a player below `np`.
pub open spec fn owned_yield_sum(tile_types: Seq<i32>, owner_grid: Seq<i32>, np: int, n: int) -> int
    decreases n,
{
    if n <= 0 {
        0
    } else {
        owned_yield_sum(tile_types, owner_grid, np, n - 1) + if 0 <= owner_grid[n - 1] < np {
            sum3(tile_yield(tile_types[n - 1] as int))
        } else {
            0
        }
    }
}

proof fn lemma_all_players_step(tile_types: Seq<i32>, owner_grid: Seq<i32>, np: int, n: int)
    requires
        n > 0,
    ensures
        all_players_sum(tile_types, owner_grid, np, n) == all_players_sum(
            tile_types,
            owner_grid,
            np,
            n - 1,
        ) + if 0 <= owner_grid[n - 1] < np {
            sum3(tile_yield(tile_types[n - 1] as int))
        } else {
            0
        },
    decreases np,
{
    if np > 0 {
        lemma_all_players_step(tile_types, owner_grid, np - 1, n);
    }
}

/// The totals of all players together are the yields of exactly the tiles
/// that have one of the players as owner.
pub proof fn lemma_totals_cover_owned_tiles(
    tile_types: Seq<i32>,
    owner_grid: Seq<i32>,
    np: int,
    n: int,
)
    ensures
        all_players_sum(tile_types, owner_grid, np, n) == owned_yield_sum(
            tile_types,
            owner_grid,
            np,
            n,
        ),
    decreases n,
{
    if n > 0 {
        lemma_totals_cover_owned_tiles(tile_types, owner_grid, np, n - 1);
        lemma_all_players_step(tile_types, owner_grid, np, n);
    } else {
        lemma_all_players_zero(tile_types, owner_grid, np, n);
    }
}

proof fn lemma_all_players_zero(tile_types: Seq<i32>, owner_grid: Seq<i32>, np: int, n: int)
    requires
        n <= 0,
    ensures
        all_players_sum(tile_types, owner_grid, np, n) == 0,
    decreases np,
{
    if np > 0 {
        lemma_all_players_zero(tile_types, owner_grid, np - 1, n);
    }
}

/// No component of a player's totals exceeds three per tile.
pub proof fn lemma_player_totals_bounds(tile_types: Seq<i32>, owner_grid: Seq<i32>, p: int, n: int)
    requires
        0 <= n,
    ensures
        0 <= player_totals(tile_types, owner_grid, p, n).0 <= 3 * n,
        0 <= player_totals(tile_types, owner_grid, p, n).1 <= 3 * n,
        0 <= player_totals(tile_types, owner_grid, p, n).2 <= 3 * n,
    decreases n,
{
    if n > 0 {
        lemma_player_totals_bounds(tile_types, owner_grid, p, n - 1);
    }
}

/// Exec form of [`tile_yield`].
pub fn yield_of(tile_type: i32) -> (y: ResourceTotals)
    ensures
        y@ == tile_yield(tile_type as int),
{
    if tile_type == PLAINS {
        ResourceTotals { food: 1, production: 1, gold: 0 }
    } else if tile_type == FOREST {
        ResourceTotals { food: 0, production: 2, gold: 0 }
    } else if tile_type == MOUNTAIN {
        ResourceTotals { food: 0, production: 3, gold: 1 }
    } else if tile_type == WATER {
        ResourceTotals { food: 0, production: 0, gold: 2 }
    } else if tile_type == DESERT {
        ResourceTotals { food: 1, production: 0, gold: 1 }
    } else if tile_type == FERTILE_PLAINS {
        ResourceTotals { food: 3, production: 1, gold: 0 }
    } else {
        ResourceTotals { food: 0, production: 0, gold: 0 }
    }
}

impl ResourceCounter {
    /// The totals of the players `0` to `num_players - 1`, at the index of
    /// each. Tiles beyond the shorter of the two grids are not counted, nor
    /// tiles whose owner is none of these players.
    pub fn compute_resources(&self, tile_types: &Vec<i32>, owner_grid: &Vec<i32>, num_players: i32) -> (totals:
        Vec<ResourceTotals>)
        requires
            3 * counted_tiles(tile_types@, owner_grid@) <= u64::MAX,
        ensures
            totals@.len() == if num_players > 0 {
                num_players as int
            } else {
                0
            },
            forall|p: int|
                0 <= p < totals@.len() ==> (#[trigger] totals@[p])@ == player_totals(
                    tile_types@,
                    owner_grid@,
                    p,
                    counted_tiles(tile_types@, owner_grid@),
                ),
    {
        let np: usize = if num_players > 0 {
            num_players as usize
        } else {
            0
        };
        let mut totals: Vec<ResourceTotals> = Vec::new();
        while totals.len() < np
            invariant
                totals.len() <= np,
                forall|p: int| 0 <= p < totals.len() ==> (#[trigger] totals[p])@ == (0int, 0int, 0int),
            decreases np - totals.len(),
        {
            totals.push(ResourceTotals { food: 0, production: 0, gold: 0 });
        }
        let n: usize = if tile_types.len() <= owner_grid.len() {
            tile_types.len()
        } else {
            owner_grid.len()
        };
        let mut i: usize = 0;
        while i < n
            invariant
                i <= n,
                n == counted_tiles(tile_types@, owner_grid@),
                3 * n <= u64::MAX,
                totals.len() == np,
                np <= i32::MAX,
                forall|p: int|
                    0 <= p < totals.len() ==> (#[trigger] totals[p])@ == player_totals(
                        tile_types@,
                        owner_grid@,
                        p,
                        i as int,
                    ),
            decreases n - i,
        {
            let owner = owner_grid[i];
            if owner >= 0 && (owner as usize) < np {
                let pid = owner as usize;
                let y = yield_of(tile_types[i]);
                let old = totals[pid];
                proof {
                    lemma_player_totals_bounds(tile_types@, owner_grid@, pid as int, i as int);
                }
                totals.set(
                    pid,
                    ResourceTotals {
                        food: old.food + y.food,
                        production: old.production + y.production,
                        gold: old.gold + y.gold,
                    },
                );
            }
            i = i + 1;
        }
        totals
    }
}

} // verus!
