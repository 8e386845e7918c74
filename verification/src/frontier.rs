//! The tiles just outside a player's territory.

use crate::coords::{
    adjacent, hex_neighbors_vec, lemma_tile_key_bijective, lemma_tile_key_injective, neighbor,
    representable, tile_key, tiles_of, OffsetCoord,
};
use std::collections::HashSet;
use vstd::arithmetic::div_mod::{lemma_fundamental_div_mod, lemma_mod_bound};
use vstd::prelude::*;

verus! {

pub struct TerritoryFrontier;

/// The position of the tile with index `i` in a row-major grid `w` wide.
pub open spec fn cell_pos(w: int, i: int) -> (int, int) {
    (i % w, i / w)
}

/// Number of tiles that are scanned: those of the owner grid that lie on the map.
pub open spec fn scanned_tiles(owner_grid: Seq<i32>, w: int, h: int) -> int {
    if w <= 0 || h <= 0 {
        0
    } else if owner_grid.len() <= w * h {
        owner_grid.len() as int
    } else {
        w * h
    }
}

/// A tile on the map, with an entry in the owner grid, that `player_id` does not own.
pub open spec fn foreign_tile(owner_grid: Seq<i32>, player_id: int, w: int, h: int, t: (int, int)) -> bool {
    &&& 0 <= t.0 < w
    &&& 0 <= t.1 < h
    &&& t.1 * w + t.0 < owner_grid.len()
    &&& owner_grid[t.1 * w + t.0] != player_id
}

/// The frontier `acc` after looking at neighbour `k` of the tile with index `i`.
pub open spec fn visit(
    owner_grid: Seq<i32>,
    player_id: int,
    w: int,
    h: int,
    acc: Seq<(int, int)>,
    i: int,
    k: int,
) -> Seq<(int, int)> {
    let n = neighbor(cell_pos(w, i), k);
    if owner_grid[i] == player_id && foreign_tile(owner_grid, player_id, w, h, n) && !acc.contains(n) {
        acc.push(n)
    } else {
        acc
    }
}

/// The frontier found after all tiles below index `i` and the first `k`
/// neighbours of tile `i`, in the order of discovery.
pub open spec fn scan(owner_grid: Seq<i32>, player_id: int, w: int, h: int, i: int, k: int) -> Seq<
    (int, int),
>
    decreases i, k,
{
    if i < 0 || k < 0 {
        Seq::empty()
    } else if k > 0 {
        visit(owner_grid, player_id, w, h, scan(owner_grid, player_id, w, h, i, k - 1), i, k - 1)
    } else if i > 0 {
        scan(owner_grid, player_id, w, h, i - 1, 6)
    } else {
        Seq::empty()
    }
}

/// The frontier of `player_id`: every tile on the map that the player does
/// not own and that touches a tile the player owns, each once, in the order
/// in which a row-major scan of the player's tiles meets them.
pub open spec fn frontier_of(owner_grid: Seq<i32>, player_id: int, w: int, h: int) -> Seq<(int, int)> {
    scan(owner_grid, player_id, w, h, scanned_tiles(owner_grid, w, h), 0)
}

/// `(j, kk)` comes before `(i, k)` in the scan.
pub open spec fn scanned_before(j: int, kk: int, i: int, k: int) -> bool {
    0 <= j && 0 <= kk < 6 && (j < i || (j == i && kk < k))
}

/// Every tile of the scan is foreign and touches an owned tile met so far.
pub proof fn lemma_scan_sound(
    owner_grid: Seq<i32>,
    player_id: int,
    w: int,
    h: int,
    i: int,
    k: int,
    t: (int, int),
)
    requires
        0 <= k <= 6,
        scan(owner_grid, player_id, w, h, i, k).contains(t),
    ensures
        foreign_tile(owner_grid, player_id, w, h, t),
        exists|j: int, kk: int|
            scanned_before(j, kk, i, k) && owner_grid[j] == player_id && t == #[trigger] neighbor(
                cell_pos(w, j),
                kk,
            ),
    decreases i, k,
{
    if i < 0 {
    } else if k > 0 {
        let prev = scan(owner_grid, player_id, w, h, i, k - 1);
        let n = neighbor(cell_pos(w, i), k - 1);
        if prev.contains(t) {
            lemma_scan_sound(owner_grid, player_id, w, h, i, k - 1, t);
            let (j, kk) = choose|j: int, kk: int|
                scanned_before(j, kk, i, k - 1) && owner_grid[j] == player_id && t
                    == #[trigger] neighbor(cell_pos(w, j), kk);
            assert(scanned_before(j, kk, i, k) && t == neighbor(cell_pos(w, j), kk));
        } else {
            let cur = prev.push(n);
            let x = choose|x: int| 0 <= x < cur.len() && cur[x] == t;
            if x < prev.len() {
                assert(prev[x] == t);
            }
            assert(t == n);
            assert(scanned_before(i, k - 1, i, k) && t == neighbor(cell_pos(w, i), k - 1));
        }
    } else if i > 0 {
        lemma_scan_sound(owner_grid, player_id, w, h, i - 1, 6, t);
        let (j, kk) = choose|j: int, kk: int|
            scanned_before(j, kk, i - 1, 6) && owner_grid[j] == player_id && t
                == #[trigger] neighbor(cell_pos(w, j), kk);
        assert(scanned_before(j, kk, i, k) && t == neighbor(cell_pos(w, j), kk));
    }
}

/// Every foreign neighbour of an owned tile met so far is in the scan.
pub proof fn lemma_scan_complete(
    owner_grid: Seq<i32>,
    player_id: int,
    w: int,
    h: int,
    i: int,
    k: int,
    j: int,
    kk: int,
)
    requires
        0 <= k <= 6,
        scanned_before(j, kk, i, k),
        owner_grid[j] == player_id,
        foreign_tile(owner_grid, player_id, w, h, neighbor(cell_pos(w, j), kk)),
    ensures
        scan(owner_grid, player_id, w, h, i, k).contains(neighbor(cell_pos(w, j), kk)),
    decreases i, k,
{
    let t = neighbor(cell_pos(w, j), kk);
    if k > 0 {
        let prev = scan(owner_grid, player_id, w, h, i, k - 1);
        let cur = scan(owner_grid, player_id, w, h, i, k);
        if j == i && kk == k - 1 {
            if prev.contains(t) {
            } else {
                assert(cur == prev.push(t));
                assert(cur[prev.len() as int] == t);
            }
        } else {
            lemma_scan_complete(owner_grid, player_id, w, h, i, k - 1, j, kk);
            let x = choose|x: int| 0 <= x < prev.len() && prev[x] == t;
            assert(cur[x] == t);
        }
    } else {
        lemma_scan_complete(owner_grid, player_id, w, h, i - 1, 6, j, kk);
    }
}

/// No tile occurs twice in the scan.
pub proof fn lemma_scan_distinct(owner_grid: Seq<i32>, player_id: int, w: int, h: int, i: int, k: int)
    requires
        0 <= k <= 6,
    ensures
        scan(owner_grid, player_id, w, h, i, k).no_duplicates(),
    decreases i, k,
{
    if i < 0 {
    } else if k > 0 {
        lemma_scan_distinct(owner_grid, player_id, w, h, i, k - 1);
    } else if i > 0 {
        lemma_scan_distinct(owner_grid, player_id, w, h, i - 1, 6);
    }
}

/// The neighbours of a tile that the player does not own add nothing.
proof fn lemma_scan_skip(owner_grid: Seq<i32>, player_id: int, w: int, h: int, i: int, k: int)
    requires
        0 <= i,
        0 <= k <= 6,
        owner_grid[i] != player_id,
    ensures
        scan(owner_grid, player_id, w, h, i, k) == scan(owner_grid, player_id, w, h, i, 0),
    decreases k,
{
    if k > 0 {
        lemma_scan_skip(owner_grid, player_id, w, h, i, k - 1);
    }
}

/// The frontier holds no tile of the player, and each of its tiles touches a
/// tile of the player.
pub proof fn lemma_frontier_sound(owner_grid: Seq<i32>, player_id: int, w: int, h: int, t: (int, int))
    requires
        frontier_of(owner_grid, player_id, w, h).contains(t),
    ensures
        foreign_tile(owner_grid, player_id, w, h, t),
        exists|j: int|
            0 <= j < scanned_tiles(owner_grid, w, h) && owner_grid[j] == player_id && adjacent(
                #[trigger] cell_pos(w, j),
                t,
            ),
{
    let n = scanned_tiles(owner_grid, w, h);
    lemma_scan_sound(owner_grid, player_id, w, h, n, 0, t);
    let (j, kk) = choose|j: int, kk: int|
        scanned_before(j, kk, n, 0) && owner_grid[j] == player_id && t == #[trigger] neighbor(
            cell_pos(w, j),
            kk,
        );
    assert(adjacent(cell_pos(w, j), t));
}

/// Every foreign tile that touches a scanned tile of the player is in the frontier.
pub proof fn lemma_frontier_complete(
    owner_grid: Seq<i32>,
    player_id: int,
    w: int,
    h: int,
    j: int,
    t: (int, int),
)
    requires
        0 <= j < scanned_tiles(owner_grid, w, h),
        owner_grid[j] == player_id,
        adjacent(cell_pos(w, j), t),
        foreign_tile(owner_grid, player_id, w, h, t),
    ensures
        frontier_of(owner_grid, player_id, w, h).contains(t),
{
    let kk = choose|kk: int| 0 <= kk < 6 && t == #[trigger] neighbor(cell_pos(w, j), kk);
    lemma_scan_complete(owner_grid, player_id, w, h, scanned_tiles(owner_grid, w, h), 0, j, kk);
}

/// No tile occurs twice in the frontier.
pub proof fn lemma_frontier_distinct(owner_grid: Seq<i32>, player_id: int, w: int, h: int)
    ensures
        frontier_of(owner_grid, player_id, w, h).no_duplicates(),
{
    lemma_scan_distinct(owner_grid, player_id, w, h, scanned_tiles(owner_grid, w, h), 0);
}

proof fn lemma_cell_pos(w: int, h: int, i: int)
    requires
        0 < w,
        0 <= i < w * h,
    ensures
        0 <= i % w < w,
        0 <= i / w < h,
{
    lemma_fundamental_div_mod(i, w);
    lemma_mod_bound(i, w);
    let q = i / w;
    let r = i % w;
    assert(0 <= q < h) by (nonlinear_arith)
        requires
            0 <= i < w * h,
            w > 0,
            i == w * q + r,
            0 <= r < w,
    ;
}

impl TerritoryFrontier {
    /// The frontier of `player_id` on a map of `map_width` by `map_height`
    /// tiles, in order of discovery.
    pub fn get_frontier(&self, owner_grid: &Vec<i32>, player_id: i32, map_width: i32, map_height: i32) -> (result:
        Vec<OffsetCoord>)
        ensures
            tiles_of(result@) == frontier_of(
                owner_grid@,
                player_id as int,
                map_width as int,
                map_height as int,
            ),
    {
        let mut result: Vec<OffsetCoord> = Vec::new();
        let ghost og = owner_grid@;
        let ghost pid = player_id as int;
        let ghost wi = map_width as int;
        let ghost hi = map_height as int;
        if map_width <= 0 || map_height <= 0 {
            assert(tiles_of(result@) =~= frontier_of(og, pid, wi, hi));
            return result;
        }
        let w: u64 = map_width as u64;
        let h: u64 = map_height as u64;
        proof {
            assert(0 < w * h <= 0x7fff_ffff * 0x7fff_ffff) by (nonlinear_arith)
                requires
                    0 < w <= 0x7fff_ffff,
                    0 < h <= 0x7fff_ffff,
            ;
        }
        let area: u64 = w * h;
        let len: u64 = owner_grid.len() as u64;
        let count: u64 = if len <= area {
            len
        } else {
            area
        };
        let mut seen: HashSet<u64> = HashSet::new();
        let mut i: u64 = 0;
        assert(tiles_of(result@) =~= scan(og, pid, wi, hi, 0, 0));
        while i < count
            invariant
                og == owner_grid@,
                pid == player_id,
                wi == map_width,
                hi == map_height,
                w == wi,
                h == hi,
                0 < w <= 0x7fff_ffff,
                0 < h <= 0x7fff_ffff,
                len == owner_grid.len(),
                count == scanned_tiles(og, wi, hi),
                count <= len,
                count <= w * h,
                i <= count,
                tiles_of(result@) == scan(og, pid, wi, hi, i as int, 0),
                forall|p: (int, int)|
                    representable(p) ==> (seen@.contains(tile_key(p) as u64) <==> #[trigger] tiles_of(
                        result@,
                    ).contains(p)),
            decreases count - i,
        {
            if owner_grid[i as usize] == player_id {
                let x: u64 = i % w;
                let y: u64 = i / w;
                proof {
                    lemma_cell_pos(wi, hi, i as int);
                }
                let arr = hex_neighbors_vec(x as i32, y as i32);
                let mut k: usize = 0;
                while k < 6
                    invariant
                        og == owner_grid@,
                        pid == player_id,
                        wi == map_width,
                        hi == map_height,
                        w == wi,
                        h == hi,
                        0 < w <= 0x7fff_ffff,
                        0 < h <= 0x7fff_ffff,
                        len == owner_grid.len(),
                        i < count <= len,
                        og[i as int] == pid,
                        k <= 6,
                        forall|j: int|
                            0 <= j < 6 ==> (arr[j].0 as int, arr[j].1 as int) == neighbor(
                                cell_pos(wi, i as int),
                                j,
                            ),
                        tiles_of(result@) == scan(og, pid, wi, hi, i as int, k as int),
                        forall|p: (int, int)|
                            representable(p) ==> (seen@.contains(tile_key(p) as u64)
                                <==> #[trigger] tiles_of(result@).contains(p)),
                    decreases 6 - k,
                {
                    let nx = arr[k].0;
                    let ny = arr[k].1;
                    let ghost n = neighbor(cell_pos(wi, i as int), k as int);
                    let ghost prev = tiles_of(result@);
                    let mut added = false;
                    if nx >= 0 && ny >= 0 && nx < map_width && ny < map_height {
                        proof {
                            assert(0 <= ny * wi + nx < hi * wi) by (nonlinear_arith)
                                requires
                                    0 <= nx < wi,
                                    0 <= ny < hi,
                            ;
                            assert(hi * wi <= 0x7fff_ffff * 0x7fff_ffff) by (nonlinear_arith)
                                requires
                                    0 < wi <= 0x7fff_ffff,
                                    0 < hi <= 0x7fff_ffff,
                            ;
                        }
                        let ni: u64 = (ny as u64) * w + (nx as u64);
                        if ni < len && owner_grid[ni as usize] != player_id {
                            let c = OffsetCoord { col: nx, row: ny };
                            let key = c.key();
                            proof {
                                lemma_tile_key_bijective(n, 0);
                            }
                            if seen.insert(key) {
                                result.push(c);
                                added = true;
                                proof {
                                    let cur = tiles_of(result@);
                                    assert(cur =~= prev.push(n));
                                    assert forall|p: (int, int)| representable(p) implies (
                                    seen@.contains(tile_key(p) as u64) <==> #[trigger] cur.contains(
                                        p,
                                    )) by {
                                        lemma_tile_key_bijective(p, 0);
                                        if tile_key(p) == tile_key(n) {
                                            lemma_tile_key_injective(p, n);
                                        }
                                        if prev.contains(p) {
                                            let x = choose|x: int|
                                                0 <= x < prev.len() && prev[x] == p;
                                            assert(cur[x] == p);
                                        }
                                        if p == n {
                                            assert(cur[prev.len() as int] == p);
                                        }
                                        if cur.contains(p) {
                                            let x = choose|x: int| 0 <= x < cur.len() && cur[x] == p;
                                            if x < prev.len() {
                                                assert(prev[x] == p);
                                            }
                                        }
                                    }
                                }
                            }
                        }
                    }
                    proof {
                        if !added {
                            assert(tiles_of(result@) == prev);
                        }
                    }
                    k = k + 1;
                }
            } else {
                proof {
                    lemma_scan_skip(og, pid, wi, hi, i as int, 6);
                }
            }
            i = i + 1;
        }
        result
    }
}

} // verus!
