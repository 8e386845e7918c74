//! Which units have an opposing unit within reach.
//!
//! Positions and the radius are integers in one unit of the caller's choice.

use vstd::prelude::*;

verus! {

pub struct CombatQuery;

/// A position on the plane.
#[derive(Clone, Copy, Debug, PartialEq, Eq, Structural)]
pub struct Point {
    pub x: i32,
    pub y: i32,
}

/// Squared euclidean distance.
pub open spec fn dist_sq(a: Point, b: Point) -> int {
    (a.x - b.x) * (a.x - b.x) + (a.y - b.y) * (a.y - b.y)
}

/// Unit `i` can reach unit `j`: two units of different owners no farther
/// apart than `radius`.
pub open spec fn in_range(positions: Seq<Point>, owner_ids: Seq<i32>, radius: int, i: int, j: int) -> bool {
    i != j && owner_ids[i] != owner_ids[j] && dist_sq(positions[i], positions[j]) <= radius * radius
}

/// Number of units: those present in both lists.
pub open spec fn unit_count(positions: Seq<Point>, owner_ids: Seq<i32>) -> int {
    if positions.len() <= owner_ids.len() {
        positions.len() as int
    } else {
        owner_ids.len() as int
    }
}

/// The flat list of pairs found among `n` units after all attackers below `i`
/// and, for attacker `i`, the targets below `j`.
pub open spec fn pairs_upto(
    positions: Seq<Point>,
    owner_ids: Seq<i32>,
    radius: int,
    n: int,
    i: int,
    j: int,
) -> Seq<int>
    decreases i, j,
{
    if i < 0 || j < 0 {
        Seq::empty()
    } else if j > 0 {
        let prev = pairs_upto(positions, owner_ids, radius, n, i, j - 1);
        if in_range(positions, owner_ids, radius, i, j - 1) {
            prev.push(i).push(j - 1)
        } else {
            prev
        }
    } else if i > 0 && n >= 0 {
        pairs_upto(positions, owner_ids, radius, n, i - 1, n)
    } else {
        Seq::empty()
    }
}

/// All pairs `(attacker, target)` in range, flat, attackers ascending and
/// targets ascending for each attacker.
pub open spec fn targets_of(positions: Seq<Point>, owner_ids: Seq<i32>, radius: int) -> Seq<int> {
    let n = unit_count(positions, owner_ids);
    pairs_upto(positions, owner_ids, radius, n, n, 0)
}

/// The pair `(i, j)` stands at some even offset of the flat list.
pub open spec fn has_pair(flat: Seq<int>, i: int, j: int) -> bool {
    exists|k: int| 0 <= k && 2 * k + 1 < flat.len() && #[trigger] flat[2 * k] == i && flat[2 * k + 1] == j
}

/// `(a, b)` comes before `(i, j)` in the scan of `n` units.
pub open spec fn pair_before(n: int, a: int, b: int, i: int, j: int) -> bool {
    0 <= a && 0 <= b < n && (a < i || (a == i && b < j))
}

/// The flat list has even length and holds exactly the pairs in range that
/// the scan has passed.
pub proof fn lemma_pairs_upto(
    positions: Seq<Point>,
    owner_ids: Seq<i32>,
    radius: int,
    n: int,
    i: int,
    j: int,
    a: int,
    b: int,
)
    requires
        0 <= j <= n,
    ensures
        pairs_upto(positions, owner_ids, radius, n, i, j).len() % 2 == 0,
        has_pair(pairs_upto(positions, owner_ids, radius, n, i, j), a, b) <==> pair_before(
            n,
            a,
            b,
            i,
            j,
        ) && in_range(positions, owner_ids, radius, a, b),
    decreases i, j,
{
    let cur = pairs_upto(positions, owner_ids, radius, n, i, j);
    if i < 0 {
    } else if j > 0 {
        let prev = pairs_upto(positions, owner_ids, radius, n, i, j - 1);
        lemma_pairs_upto(positions, owner_ids, radius, n, i, j - 1, a, b);
        if has_pair(prev, a, b) {
            let k = choose|k: int|
                0 <= k && 2 * k + 1 < prev.len() && #[trigger] prev[2 * k] == a && prev[2 * k + 1]
                    == b;
            assert(cur[2 * k] == a && cur[2 * k + 1] == b);
        }
        if in_range(positions, owner_ids, radius, i, j - 1) {
            let k = prev.len() as int / 2;
            assert(cur[2 * k] == i && cur[2 * k + 1] == j - 1);
            if has_pair(cur, a, b) {
                let m = choose|m: int|
                    0 <= m && 2 * m + 1 < cur.len() && #[trigger] cur[2 * m] == a && cur[2 * m + 1]
                        == b;
                if m < k {
                    assert(prev[2 * m] == a && prev[2 * m + 1] == b);
                }
            }
        }
    } else if i > 0 {
        lemma_pairs_upto(positions, owner_ids, radius, n, i - 1, n, a, b);
    }
}

/// A pair is listed exactly when both are units, their owners differ and
/// they are no farther apart than the radius.
pub proof fn lemma_targets_exact(positions: Seq<Point>, owner_ids: Seq<i32>, radius: int, i: int, j: int)
    ensures
        has_pair(targets_of(positions, owner_ids, radius), i, j) <==> 0 <= i < unit_count(
            positions,
            owner_ids,
        ) && 0 <= j < unit_count(positions, owner_ids) && in_range(
            positions,
            owner_ids,
            radius,
            i,
            j,
        ),
{
    let n = unit_count(positions, owner_ids);
    lemma_pairs_upto(positions, owner_ids, radius, n, n, 0, i, j);
}

/// With radius zero, only opposing units at the very same position are in range.
pub proof fn lemma_zero_radius(positions: Seq<Point>, owner_ids: Seq<i32>, i: int, j: int)
    ensures
        in_range(positions, owner_ids, 0, i, j) <==> i != j && owner_ids[i] != owner_ids[j]
            && positions[i] == positions[j],
{
    let dx = positions[i].x - positions[j].x;
    let dy = positions[i].y - positions[j].y;
    assert(dx * dx + dy * dy <= 0 <==> dx == 0 && dy == 0) by (nonlinear_arith);
}

/// Being in range is mutual.
pub proof fn lemma_in_range_symmetric(positions: Seq<Point>, owner_ids: Seq<i32>, radius: int, i: int, j: int)
    ensures
        in_range(positions, owner_ids, radius, i, j) == in_range(positions, owner_ids, radius, j, i),
{
    let dx = positions[i].x - positions[j].x;
    let dy = positions[i].y - positions[j].y;
    assert(dx * dx == (-dx) * (-dx)) by (nonlinear_arith);
    assert(dy * dy == (-dy) * (-dy)) by (nonlinear_arith);
}

/// The values of a list of indices.
pub open spec fn indices_of(v: Seq<usize>) -> Seq<int> {
    Seq::new(v.len(), |k: int| v[k] as int)
}

fn within(a: Point, b: Point, r2: i128) -> (ok: bool)
    ensures
        ok == (dist_sq(a, b) <= r2),
{
    let dx: i128 = a.x as i128 - b.x as i128;
    let dy: i128 = a.y as i128 - b.y as i128;
    proof {
        assert(0 <= dx * dx <= 0x1_0000_0000 * 0x1_0000_0000) by (nonlinear_arith)
            requires
                -0x1_0000_0000 <= dx <= 0x1_0000_0000,
        ;
        assert(0 <= dy * dy <= 0x1_0000_0000 * 0x1_0000_0000) by (nonlinear_arith)
            requires
                -0x1_0000_0000 <= dy <= 0x1_0000_0000,
        ;
    }
    dx * dx + dy * dy <= r2
}

impl CombatQuery {
    /// All ordered pairs of units of different owners that are within
    /// `radius` of each other, as a flat list of indices: attacker, target,
    /// attacker, target. A pair in range is listed in both directions.
    pub fn find_targets_in_range(&self, positions: &Vec<Point>, owner_ids: &Vec<i32>, radius: i32) -> (result:
        Vec<usize>)
        ensures
            indices_of(result@) == targets_of(positions@, owner_ids@, radius as int),
    {
        let n: usize = if positions.len() <= owner_ids.len() {
            positions.len()
        } else {
            owner_ids.len()
        };
        proof {
            assert(0 <= radius * radius <= 0x8000_0000 * 0x8000_0000) by (nonlinear_arith)
                requires
                    -0x8000_0000 <= radius <= 0x8000_0000,
            ;
        }
        let r2: i128 = (radius as i128) * (radius as i128);
        let mut result: Vec<usize> = Vec::new();
        let ghost ps = positions@;
        let ghost os = owner_ids@;
        let ghost r = radius as int;
        let mut i: usize = 0;
        assert(indices_of(result@) =~= pairs_upto(ps, os, r, n as int, 0, 0));
        while i < n
            invariant
                ps == positions@,
                os == owner_ids@,
                r == radius,
                r2 == r * r,
                n == unit_count(ps, os),
                i <= n,
                indices_of(result@) == pairs_upto(ps, os, r, n as int, i as int, 0),
            decreases n - i,
        {
            let mut j: usize = 0;
            while j < n
                invariant
                    ps == positions@,
                    os == owner_ids@,
                    r == radius,
                    r2 == r * r,
                    n == unit_count(ps, os),
                    i < n,
                    j <= n,
                    indices_of(result@) == pairs_upto(ps, os, r, n as int, i as int, j as int),
                decreases n - j,
            {
                let ghost prev = indices_of(result@);
                if i != j && owner_ids[i] != owner_ids[j] && within(positions[i], positions[j], r2) {
                    result.push(i);
                    result.push(j);
                    assert(indices_of(result@) =~= prev.push(i as int).push(j as int));
                }
                j = j + 1;
            }
            i = i + 1;
        }
        result
    }
}

} // verus!
