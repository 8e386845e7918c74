//! Odd-q offset coordinates, their axial form, hex distance and neighbours.

use vstd::prelude::*;

verus! {

/// A tile position in odd-q offset layout: odd columns sit half a tile lower.
#[derive(Clone, Copy, Debug, PartialEq, Eq, Hash, Structural)]
pub struct OffsetCoord {
    pub col: i32,
    pub row: i32,
}

impl View for OffsetCoord {
    type V = (int, int);

    open spec fn view(&self) -> (int, int) {
        (self.col as int, self.row as int)
    }
}

/// Namespace of the coordinate functions and of the path search.
pub struct HexMath;

pub open spec fn abs_int(x: int) -> int {
    if x < 0 {
        -x
    } else {
        x
    }
}

/// 1 for an odd column, 0 for an even one, negative columns included.
pub open spec fn col_parity(col: int) -> int {
    col % 2
}

/// Axial `(q, r)` of the offset position `(col, row)`.
pub open spec fn axial(p: (int, int)) -> (int, int) {
    (p.0, p.1 - (p.0 - col_parity(p.0)) / 2)
}

/// Offset position of the axial coordinate `(q, r)`.
pub open spec fn offset_of_axial(a: (int, int)) -> (int, int) {
    (a.0, a.1 + (a.0 - col_parity(a.0)) / 2)
}

/// Number of steps between two offset positions.
pub open spec fn hex_dist(a: (int, int), b: (int, int)) -> int {
    let (aq, ar) = axial(a);
    let (bq, br) = axial(b);
    (abs_int(aq - bq) + abs_int(aq + ar - bq - br) + abs_int(ar - br)) / 2
}

/// Step `k` (0 to 5) away from a tile in a column of the given parity.
pub open spec fn neighbor_delta(parity: int, k: int) -> (int, int) {
    if parity == 0 {
        if k == 0 {
            (1, 0)
        } else if k == 1 {
            (1, -1)
        } else if k == 2 {
            (0, -1)
        } else if k == 3 {
            (-1, -1)
        } else if k == 4 {
            (-1, 0)
        } else {
            (0, 1)
        }
    } else {
        if k == 0 {
            (1, 1)
        } else if k == 1 {
            (1, 0)
        } else if k == 2 {
            (0, -1)
        } else if k == 3 {
            (-1, 0)
        } else if k == 4 {
            (-1, 1)
        } else {
            (0, 1)
        }
    }
}

/// The `k`-th neighbour of `p`, for `k` from 0 to 5.
pub open spec fn neighbor(p: (int, int), k: int) -> (int, int) {
    let d = neighbor_delta(col_parity(p.0), k);
    (p.0 + d.0, p.1 + d.1)
}

/// The six neighbours of `p` in their fixed order.
pub open spec fn neighbors_of(p: (int, int)) -> Seq<(int, int)> {
    Seq::new(6, |k: int| neighbor(p, k))
}

/// Two tiles share an edge.
pub open spec fn adjacent(a: (int, int), b: (int, int)) -> bool {
    exists|k: int| 0 <= k < 6 && b == #[trigger] neighbor(a, k)
}

/// The positions of a list of tiles.
pub open spec fn tiles_of(s: Seq<OffsetCoord>) -> Seq<(int, int)> {
    Seq::new(s.len(), |i: int| s[i]@)
}

/// Both components fit a coordinate.
pub open spec fn representable(p: (int, int)) -> bool {
    i32::MIN <= p.0 <= i32::MAX && i32::MIN <= p.1 <= i32::MAX
}

impl OffsetCoord {
    pub fn new(col: i32, row: i32) -> (p: OffsetCoord)
        ensures
            p.col == col,
            p.row == row,
    {
        OffsetCoord { col, row }
    }
}

/// Exec form of [`col_parity`].
pub fn parity_of(col: i32) -> (p: i64)
    ensures
        p == col_parity(col as int),
        p == 0 || p == 1,
{
    let shifted: i64 = col as i64 + 2147483648;
    shifted % 2
}

/// Converts an offset position to axial `(q, r)`.
pub fn to_axial(pos: OffsetCoord) -> (a: (i64, i64))
    ensures
        (a.0 as int, a.1 as int) == axial(pos@),
{
    let p = parity_of(pos.col);
    let shifted: i64 = pos.col as i64 + 2147483648 - p;
    let half: i64 = shifted / 2 - 1073741824;
    (pos.col as i64, pos.row as i64 - half)
}

fn abs_i64(x: i64) -> (r: i64)
    requires
        x > i64::MIN,
    ensures
        r == abs_int(x as int),
{
    if x < 0 {
        -x
    } else {
        x
    }
}

impl HexMath {
    /// Hex distance between two offset positions. Total: the result is wide
    /// enough for any pair of coordinates.
    pub fn hex_distance(from: OffsetCoord, to: OffsetCoord) -> (d: i64)
        ensures
            d == hex_dist(from@, to@),
            0 <= d,
            d == 0 <==> from == to,
    {
        let (aq, ar) = to_axial(from);
        let (bq, br) = to_axial(to);
        proof {
            lemma_hex_dist_zero(from@, to@);
        }
        (abs_i64(aq - bq) + abs_i64(aq + ar - bq - br) + abs_i64(ar - br)) / 2
    }

    /// The six neighbours of `pos`, unfiltered, in their fixed order.
    pub fn hex_neighbors(pos: OffsetCoord) -> (result: Vec<OffsetCoord>)
        requires
            i32::MIN < pos.col < i32::MAX,
            i32::MIN < pos.row < i32::MAX,
        ensures
            tiles_of(result@) == neighbors_of(pos@),
    {
        let arr = hex_neighbors_vec(pos.col, pos.row);
        let mut result: Vec<OffsetCoord> = Vec::new();
        let mut k: usize = 0;
        while k < 6
            invariant
                k <= 6,
                result.len() == k,
                forall|j: int| 0 <= j < 6 ==> (arr[j].0 as int, arr[j].1 as int) == neighbor(pos@, j),
                forall|j: int| 0 <= j < k ==> (#[trigger] result@[j])@ == neighbor(pos@, j),
            decreases 6 - k,
        {
            result.push(OffsetCoord { col: arr[k].0, row: arr[k].1 });
            k = k + 1;
        }
        assert(tiles_of(result@) =~= neighbors_of(pos@));
        result
    }
}

/// The six neighbours of `(x, y)` as pairs, in the same order as
/// [`HexMath::hex_neighbors`].
pub fn hex_neighbors_vec(x: i32, y: i32) -> (arr: [(i32, i32); 6])
    requires
        i32::MIN < x < i32::MAX,
        i32::MIN < y < i32::MAX,
    ensures
        forall|k: int| 0 <= k < 6 ==> (arr[k].0 as int, arr[k].1 as int) == neighbor((x as int, y as int), k),
{
    if parity_of(x) == 0 {
        [(x + 1, y), (x + 1, y - 1), (x, y - 1), (x - 1, y - 1), (x - 1, y), (x, y + 1)]
    } else {
        [(x + 1, y + 1), (x + 1, y), (x, y - 1), (x - 1, y), (x - 1, y + 1), (x, y + 1)]
    }
}

/// The distance is zero exactly between a tile and itself.
pub proof fn lemma_hex_dist_zero(a: (int, int), b: (int, int))
    ensures
        hex_dist(a, b) >= 0,
        hex_dist(a, b) == 0 <==> a == b,
{
}

/// A tile is at distance zero from itself.
pub proof fn lemma_hex_dist_self(p: (int, int))
    ensures
        hex_dist(p, p) == 0,
{
}

/// The distance does not depend on the direction in which it is measured.
pub proof fn lemma_hex_dist_symmetric(a: (int, int), b: (int, int))
    ensures
        hex_dist(a, b) == hex_dist(b, a),
{
}

/// Each of the six neighbours of a tile is at distance one from it.
pub proof fn lemma_neighbor_dist_one(p: (int, int), k: int)
    requires
        0 <= k < 6,
    ensures
        hex_dist(p, neighbor(p, k)) == 1,
        hex_dist(neighbor(p, k), p) == 1,
{
}

/// The tiles at distance one are exactly the six neighbours.
pub proof fn lemma_dist_one_is_adjacent(a: (int, int), b: (int, int))
    ensures
        hex_dist(a, b) == 1 <==> adjacent(a, b),
{
    if adjacent(a, b) {
        let k = choose|k: int| 0 <= k < 6 && b == #[trigger] neighbor(a, k);
        lemma_neighbor_dist_one(a, k);
    }
    if hex_dist(a, b) == 1 {
        assert(b == neighbor(a, 0) || b == neighbor(a, 1) || b == neighbor(a, 2) || b == neighbor(
            a,
            3,
        ) || b == neighbor(a, 4) || b == neighbor(a, 5));
    }
}

/// Triangle inequality of the hex distance.
pub proof fn lemma_hex_dist_triangle(a: (int, int), b: (int, int), c: (int, int))
    ensures
        hex_dist(a, c) <= hex_dist(a, b) + hex_dist(b, c),
{
}

/// Offset to axial and back gives the same tile.
pub proof fn lemma_axial_round_trip(p: (int, int))
    ensures
        offset_of_axial(axial(p)) == p,
        axial(offset_of_axial(p)) == p,
{
}

/// The position of `p` in a numbering of all representable tiles.
pub open spec fn tile_key(p: (int, int)) -> int {
    (p.0 + 0x8000_0000) * 0x1_0000_0000 + (p.1 + 0x8000_0000)
}

/// The tile with the number `k`: the inverse of [`tile_key`].
pub open spec fn tile_of_key(k: int) -> (int, int) {
    (k / 0x1_0000_0000 - 0x8000_0000, k % 0x1_0000_0000 - 0x8000_0000)
}

/// The numbering is one to one between representable tiles and 64-bit keys.
pub proof fn lemma_tile_key_bijective(p: (int, int), k: int)
    ensures
        representable(p) ==> 0 <= tile_key(p) <= u64::MAX && tile_of_key(tile_key(p)) == p,
        0 <= k <= u64::MAX ==> representable(tile_of_key(k)) && tile_key(tile_of_key(k)) == k,
{
}

/// Two representable tiles with the same key are the same tile.
pub proof fn lemma_tile_key_injective(p: (int, int), q: (int, int))
    requires
        representable(p),
        representable(q),
        tile_key(p) == tile_key(q),
    ensures
        p == q,
{
    lemma_tile_key_bijective(p, 0);
    lemma_tile_key_bijective(q, 0);
}

impl OffsetCoord {
    /// Exec form of [`tile_key`].
    pub fn key(&self) -> (k: u64)
        ensures
            k == tile_key(self@),
    {
        let c: u64 = (self.col as i64 + 2147483648) as u64;
        let r: u64 = (self.row as i64 + 2147483648) as u64;
        c * 4294967296 + r
    }

    /// The `k`-th neighbour, where it is representable.
    pub fn neighbor_at(&self, k: usize) -> (r: Option<OffsetCoord>)
        requires
            k < 6,
        ensures
            match r {
                Some(n) => n@ == neighbor(self@, k as int),
                None => !representable(neighbor(self@, k as int)),
            },
    {
        let odd = parity_of(self.col) == 1;
        let dc: i64 = if k <= 1 {
            1
        } else if k == 3 || k == 4 {
            -1
        } else {
            0
        };
        let dr: i64 = if k == 2 {
            -1
        } else if k == 5 {
            1
        } else if odd {
            if k == 0 || k == 4 {
                1
            } else {
                0
            }
        } else {
            if k == 1 || k == 3 {
                -1
            } else {
                0
            }
        };
        let c: i64 = self.col as i64 + dc;
        let r: i64 = self.row as i64 + dr;
        if c < -2147483648 || c > 2147483647 || r < -2147483648 || r > 2147483647 {
            None
        } else {
            Some(OffsetCoord { col: c as i32, row: r as i32 })
        }
    }
}

} // verus!
