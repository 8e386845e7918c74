//! Per-player influence over the map: a gaussian footprint around every unit
//! and every owned tile, and from it each player's lead over the strongest rival.
//!
//! Influence is held in fixed point: the value 1.0 is stored as [`INFLUENCE_ONE`].

use crate::coords::{abs_int, OffsetCoord};
use vstd::arithmetic::div_mod::lemma_fundamental_div_mod_converse;
use vstd::prelude::*;

verus! {

/// The stored value of an influence of 1.0.
pub const INFLUENCE_ONE: i64 = 8589934592;

/// Weight of a unit's footprint. A unit counts 2.0 and an owned tile 0.5:
/// four to one.
pub const UNIT_WEIGHT: i64 = 4;

/// Weight of an owned tile's footprint.
pub const TERRITORY_WEIGHT: i64 = 1;

/// Footprints are cut off beyond this many cells along either axis (three sigma, sigma = 4).
pub const KERNEL_RADIUS: i64 = 12;

/// The most footprints, in tile weights, that a grid value has room for.
pub const MAX_SOURCES: usize = 2147483647;

/// The units of one player.
pub struct UnitGroup {
    pub player_id: i32,
    pub positions: Vec<OffsetCoord>,
}

/// `exp(-a * a / 32)` in units of 1/65536, for `a` up to the cutoff; zero beyond it.
pub open spec fn decay(a: int) -> int {
    if a == 0 {
        65536
    } else if a == 1 {
        63520
    } else if a == 2 {
        57835
    } else if a == 3 {
        49469
    } else if a == 4 {
        39750
    } else if a == 5 {
        30005
    } else if a == 6 {
        21276
    } else if a == 7 {
        14173
    } else if a == 8 {
        8869
    } else if a == 9 {
        5214
    } else if a == 10 {
        2879
    } else if a == 11 {
        1494
    } else if a == 12 {
        728
    } else {
        0
    }
}

/// The gaussian of the squared grid distance `dx * dx + dy * dy`, as the
/// product of the decays along the two axes: 0.5 is stored as `65536 * 65536`.
pub open spec fn kernel(dx: int, dy: int) -> int {
    decay(abs_int(dx)) * decay(abs_int(dy))
}

pub proof fn lemma_kernel_bounds(dx: int, dy: int)
    ensures
        0 <= kernel(dx, dy) <= 0x1_0000_0000,
        abs_int(dx) > 12 || abs_int(dy) > 12 ==> kernel(dx, dy) == 0,
{
    let a = decay(abs_int(dx));
    let b = decay(abs_int(dy));
    assert(0 <= a * b <= 0x1_0000_0000) by (nonlinear_arith)
        requires
            0 <= a <= 65536,
            0 <= b <= 65536,
    ;
    if a == 0 || b == 0 {
        assert(a * b == 0) by (nonlinear_arith)
            requires
                a == 0 || b == 0,
        ;
    }
}

/// What the units at `positions` add at cell `(x, y)`.
pub open spec fn group_sum(positions: Seq<OffsetCoord>, x: int, y: int) -> int
    decreases positions.len(),
{
    if positions.len() == 0 {
        0
    } else {
        group_sum(positions.drop_last(), x, y) + UNIT_WEIGHT * kernel(
            x - positions.last().col,
            y - positions.last().row,
        )
    }
}

/// What the units of player `p` add at cell `(x, y)`.
pub open spec fn unit_sum(units: Seq<UnitGroup>, p: int, x: int, y: int) -> int
    decreases units.len(),
{
    if units.len() == 0 {
        0
    } else {
        unit_sum(units.drop_last(), p, x, y) + if units.last().player_id == p {
            group_sum(units.last().positions@, x, y)
        } else {
            0
        }
    }
}

/// What the tiles owned by player `p` add at cell `(x, y)` of a map `w` wide.
/// The tile at index `i` of the owner grid lies at column `i % w`, row `i / w`.
pub open spec fn territory_sum(owners: Seq<i32>, w: int, p: int, x: int, y: int) -> int
    decreases owners.len(),
{
    if owners.len() == 0 {
        0
    } else {
        let i = owners.len() - 1;
        territory_sum(owners.drop_last(), w, p, x, y) + if owners.last() == p {
            TERRITORY_WEIGHT * kernel(x - i % w, y - i / w)
        } else {
            0
        }
    }
}

/// [`group_sum`] at the cell with index `c` of a map `w` wide.
pub open spec fn group_at(positions: Seq<OffsetCoord>, w: int, c: int) -> int {
    group_sum(positions, c % w, c / w)
}

/// [`unit_sum`] at the cell with index `c` of a map `w` wide.
pub open spec fn unit_at(units: Seq<UnitGroup>, w: int, p: int, c: int) -> int {
    unit_sum(units, p, c % w, c / w)
}

/// [`territory_sum`] at the cell with index `c` of a map `w` wide.
pub open spec fn territory_at(owners: Seq<i32>, w: int, p: int, c: int) -> int {
    territory_sum(owners, w, p, c % w, c / w)
}

/// Raw influence of player `p` at the cell with index `c` of a map `w` wide.
pub open spec fn raw_value(units: Seq<UnitGroup>, owners: Seq<i32>, w: int, p: int, c: int) -> int {
    unit_at(units, w, p, c) + territory_at(owners, w, p, c)
}

/// The strongest raw influence at cell `c` among the players below `upto`
/// other than `p`; zero where none of them has any.
pub open spec fn rival_max(
    units: Seq<UnitGroup>,
    owners: Seq<i32>,
    w: int,
    p: int,
    c: int,
    upto: int,
) -> int
    decreases upto,
{
    if upto <= 0 {
        0
    } else {
        let rest = rival_max(units, owners, w, p, c, upto - 1);
        let q = upto - 1;
        if q != p && raw_value(units, owners, w, q, c) > rest {
            raw_value(units, owners, w, q, c)
        } else {
            rest
        }
    }
}

/// Net influence of player `p` at cell `c`: its raw influence less that of
/// its strongest rival among `np` players.
pub open spec fn net_value(
    units: Seq<UnitGroup>,
    owners: Seq<i32>,
    w: int,
    np: int,
    p: int,
    c: int,
) -> int {
    raw_value(units, owners, w, p, c) - rival_max(units, owners, w, p, c, np)
}

/// Number of unit positions in all groups.
pub open spec fn total_units(units: Seq<UnitGroup>) -> int
    decreases units.len(),
{
    if units.len() == 0 {
        0
    } else {
        total_units(units.drop_last()) + units.last().positions@.len()
    }
}

/// The highest player id that names a group, or -1.
pub open spec fn max_group_id(units: Seq<UnitGroup>) -> int
    decreases units.len(),
{
    if units.len() == 0 {
        -1
    } else {
        let rest = max_group_id(units.drop_last());
        if units.last().player_id > rest {
            units.last().player_id as int
        } else {
            rest
        }
    }
}

/// The highest owner in the grid, or -1.
pub open spec fn max_owner(owners: Seq<i32>) -> int
    decreases owners.len(),
{
    if owners.len() == 0 {
        -1
    } else {
        let rest = max_owner(owners.drop_last());
        if owners.last() > rest {
            owners.last() as int
        } else {
            rest
        }
    }
}

/// One more than the highest player id seen among the groups and the owners.
pub open spec fn player_count(units: Seq<UnitGroup>, owners: Seq<i32>) -> int {
    if max_group_id(units) > max_owner(owners) {
        max_group_id(units) + 1
    } else {
        max_owner(owners) + 1
    }
}

fn decay_at(a: i64) -> (v: i64)
    requires
        0 <= a,
    ensures
        v == decay(a as int),
        0 <= v <= 65536,
{
    if a == 0 {
        65536
    } else if a == 1 {
        63520
    } else if a == 2 {
        57835
    } else if a == 3 {
        49469
    } else if a == 4 {
        39750
    } else if a == 5 {
        30005
    } else if a == 6 {
        21276
    } else if a == 7 {
        14173
    } else if a == 8 {
        8869
    } else if a == 9 {
        5214
    } else if a == 10 {
        2879
    } else if a == 11 {
        1494
    } else if a == 12 {
        728
    } else {
        0
    }
}

/// Index arithmetic of a row-major grid.
pub proof fn lemma_cell_index(w: int, h: int, x: int, y: int)
    requires
        0 <= x < w,
        0 <= y < h,
    ensures
        0 <= y * w + x < w * h,
        (y * w + x) % w == x,
        (y * w + x) / w == y,
{
    assert(0 <= y * w + x < w * h) by (nonlinear_arith)
        requires
            0 <= x < w,
            0 <= y < h,
    ;
    lemma_fundamental_div_mod_converse(y * w + x, w, y, x);
}

/// Index of the cell in column `x`, row `y` of a grid `w` wide.
pub open spec fn cell_of(w: int, x: int, y: int) -> int {
    y * w + x
}

/// What a footprint of the given weight centred on `(cx, cy)` adds at cell `c`.
pub open spec fn footprint(w: int, cx: int, cy: int, weight: int, c: int) -> int {
    weight * kernel(c % w - cx, c / w - cy)
}

proof fn lemma_footprint(w: int, h: int, cx: int, cy: int, weight: int, c: int)
    requires
        0 <= c < w * h,
        0 <= w,
        0 <= h,
        1 <= weight <= 4,
    ensures
        0 <= footprint(w, cx, cy, weight, c) <= weight * 0x1_0000_0000,
        c == cell_of(w, c % w, c / w),
        0 <= c % w < w,
        0 <= c / w < h,
        c / w < cy - 12 || c / w > cy + 12 || c % w < cx - 12 || c % w > cx + 12 ==> footprint(
            w,
            cx,
            cy,
            weight,
            c,
        ) == 0,
{
    assert(w > 0) by (nonlinear_arith)
        requires
            0 <= c < w * h,
            0 <= w,
    ;
    let kv = kernel(c % w - cx, c / w - cy);
    lemma_kernel_bounds(c % w - cx, c / w - cy);
    assert(0 <= weight * kv <= weight * 0x1_0000_0000) by (nonlinear_arith)
        requires
            0 <= kv <= 0x1_0000_0000,
            1 <= weight <= 4,
    ;
    if kv == 0 {
        assert(weight * kv == 0) by (nonlinear_arith)
            requires
                kv == 0,
        ;
    }
    vstd::arithmetic::div_mod::lemma_fundamental_div_mod(c, w);
    vstd::arithmetic::div_mod::lemma_mod_bound(c, w);
    let q = c / w;
    let r = c % w;
    assert(w * q == q * w) by (nonlinear_arith);
    assert(0 <= q < h) by (nonlinear_arith)
        requires
            0 <= c < w * h,
            w > 0,
            c == w * q + r,
            0 <= r < w,
    ;
}

/// Adds one footprint of the given weight, centred on `(cx, cy)`, to a grid.
fn stamp(grid: &mut Vec<i64>, w: i64, h: i64, cx: i64, cy: i64, weight: i64, Ghost(bound): Ghost<int>)
    requires
        0 <= w <= i32::MAX,
        0 <= h <= i32::MAX,
        old(grid).len() == w * h,
        1 <= weight <= 4,
        -0x8000_0000 <= cx <= 0x8000_0000,
        -0x8000_0000 <= cy <= 0x8000_0000,
        forall|c: int| 0 <= c < old(grid).len() ==> 0 <= #[trigger] old(grid)[c] <= bound,
        bound + weight * 0x1_0000_0000 <= i64::MAX,
    ensures
        final(grid).len() == old(grid).len(),
        forall|c: int|
            0 <= c < old(grid).len() ==> #[trigger] final(grid)[c] == old(grid)[c] + footprint(
                w as int,
                cx as int,
                cy as int,
                weight as int,
                c,
            ),
        forall|c: int|
            0 <= c < old(grid).len() ==> 0 <= #[trigger] final(grid)[c] <= bound + weight
                * 0x1_0000_0000,
{
    let y0: i64 = if cy - KERNEL_RADIUS > 0 {
        cy - KERNEL_RADIUS
    } else {
        0
    };
    let x0: i64 = if cx - KERNEL_RADIUS > 0 {
        cx - KERNEL_RADIUS
    } else {
        0
    };
    let y1: i64 = if cy + KERNEL_RADIUS < h - 1 {
        cy + KERNEL_RADIUS
    } else {
        h - 1
    };
    let x1: i64 = if cx + KERNEL_RADIUS < w - 1 {
        cx + KERNEL_RADIUS
    } else {
        w - 1
    };
    let ghost wi = w as int;
    let ghost fp = |c: int| footprint(wi, cx as int, cy as int, weight as int, c);
    proof {
        assert forall|c: int| 0 <= c < grid.len() implies {
            &&& 0 <= #[trigger] fp(c) <= weight * 0x1_0000_0000
            &&& c == cell_of(wi, c % wi, c / wi)
            &&& 0 <= c % wi < w
            &&& 0 <= c / wi < h
            &&& (c / wi < cy - 12 || c / wi > cy + 12 || c % wi < cx - 12 || c % wi > cx + 12
                ==> fp(c) == 0)
        } by {
            lemma_footprint(wi, h as int, cx as int, cy as int, weight as int, c);
        }
    }
    let mut y: i64 = y0;
    while y <= y1
        invariant
            0 <= w <= i32::MAX,
            0 <= h <= i32::MAX,
            wi == w,
            fp == |c: int| footprint(wi, cx as int, cy as int, weight as int, c),
            grid.len() == old(grid).len(),
            grid.len() == w * h,
            1 <= weight <= 4,
            -0x8000_0000 <= cx <= 0x8000_0000,
            -0x8000_0000 <= cy <= 0x8000_0000,
            bound + weight * 0x1_0000_0000 <= i64::MAX,
            0 <= y0 <= y,
            y1 < h,
            0 <= x0,
            x1 < w,
            x0 == 0 || x0 == cx - 12,
            x1 == w - 1 || x1 == cx + 12,
            y0 == 0 || y0 == cy - 12,
            y1 == h - 1 || y1 == cy + 12,
            forall|c: int| 0 <= c < old(grid).len() ==> 0 <= #[trigger] old(grid)[c] <= bound,
            forall|c: int|
                0 <= c < grid.len() ==> {
                    &&& 0 <= #[trigger] fp(c) <= weight * 0x1_0000_0000
                    &&& c == cell_of(wi, c % wi, c / wi)
                    &&& 0 <= c % wi < w
                    &&& 0 <= c / wi < h
                    &&& (c / wi < cy - 12 || c / wi > cy + 12 || c % wi < cx - 12 || c % wi > cx
                        + 12 ==> fp(c) == 0)
                },
            forall|c: int|
                0 <= c < grid.len() ==> #[trigger] grid[c] == old(grid)[c] + (if c / wi < y {
                    fp(c)
                } else {
                    0
                }),
        decreases y1 + 1 - y,
    {
        let mut x: i64 = x0;
        while x <= x1
            invariant
                0 <= w <= i32::MAX,
                0 <= h <= i32::MAX,
                wi == w,
                fp == |c: int| footprint(wi, cx as int, cy as int, weight as int, c),
                grid.len() == old(grid).len(),
                grid.len() == w * h,
                1 <= weight <= 4,
                -0x8000_0000 <= cx <= 0x8000_0000,
                -0x8000_0000 <= cy <= 0x8000_0000,
                bound + weight * 0x1_0000_0000 <= i64::MAX,
                0 <= y0 <= y <= y1 < h,
                0 <= x0 <= x,
                x1 < w,
                x0 == 0 || x0 == cx - 12,
                x1 == w - 1 || x1 == cx + 12,
                y0 == 0 || y0 == cy - 12,
                y1 == h - 1 || y1 == cy + 12,
                forall|c: int| 0 <= c < old(grid).len() ==> 0 <= #[trigger] old(grid)[c] <= bound,
                forall|c: int|
                    0 <= c < grid.len() ==> {
                        &&& 0 <= #[trigger] fp(c) <= weight * 0x1_0000_0000
                        &&& c == cell_of(wi, c % wi, c / wi)
                        &&& 0 <= c % wi < w
                        &&& 0 <= c / wi < h
                        &&& (c / wi < cy - 12 || c / wi > cy + 12 || c % wi < cx - 12 || c % wi
                            > cx + 12 ==> fp(c) == 0)
                    },
                forall|c: int|
                    0 <= c < grid.len() ==> #[trigger] grid[c] == old(grid)[c] + (if c / wi < y || (
                    c / wi == y && c % wi < x) {
                        fp(c)
                    } else {
                        0
                    }),
            decreases x1 + 1 - x,
        {
            let dx = if x >= cx {
                x - cx
            } else {
                cx - x
            };
            let dy = if y >= cy {
                y - cy
            } else {
                cy - y
            };
            let a = decay_at(dx);
            let b = decay_at(dy);
            proof {
                lemma_cell_index(wi, h as int, x as int, y as int);
                lemma_kernel_bounds(x - cx, y - cy);
                assert(a * b == kernel(x - cx, y - cy));
                assert(0 <= weight * (a * b) <= weight * 0x1_0000_0000) by (nonlinear_arith)
                    requires
                        0 <= a * b <= 0x1_0000_0000,
                        1 <= weight <= 4,
                ;
                assert(fp(cell_of(wi, x as int, y as int)) == weight * (a * b));
                assert(0 <= y * w && w * h <= 0x7fff_ffff * 0x7fff_ffff) by (nonlinear_arith)
                    requires
                        0 <= y,
                        0 <= w <= 0x7fff_ffff,
                        0 <= h <= 0x7fff_ffff,
                ;
            }
            let idx: usize = (y * w + x) as usize;
            let add: i64 = weight * (a * b);
            let cur: i64 = grid[idx];
            grid.set(idx, cur + add);
            x = x + 1;
        }
        y = y + 1;
    }
    proof {
        assert forall|c: int| 0 <= c < old(grid).len() implies #[trigger] grid[c] == old(grid)[c]
            + footprint(w as int, cx as int, cy as int, weight as int, c) by {
            assert(fp(c) == footprint(wi, cx as int, cy as int, weight as int, c));
        }
    }
}

proof fn lemma_group_sum_step(positions: Seq<OffsetCoord>, j: int, x: int, y: int)
    requires
        0 <= j < positions.len(),
    ensures
        group_sum(positions.take(j + 1), x, y) == group_sum(positions.take(j), x, y) + UNIT_WEIGHT
            * kernel(x - positions[j].col, y - positions[j].row),
        group_sum(positions.take(0), x, y) == 0,
{
    assert(positions.take(j + 1).drop_last() =~= positions.take(j));
}

proof fn lemma_unit_sum_step(units: Seq<UnitGroup>, i: int, p: int, x: int, y: int)
    requires
        0 <= i < units.len(),
    ensures
        unit_sum(units.take(i + 1), p, x, y) == unit_sum(units.take(i), p, x, y) + if units[i].player_id
            == p {
            group_sum(units[i].positions@, x, y)
        } else {
            0
        },
        unit_sum(units.take(0), p, x, y) == 0,
{
    assert(units.take(i + 1).drop_last() =~= units.take(i));
}

proof fn lemma_territory_sum_step(owners: Seq<i32>, i: int, w: int, p: int, x: int, y: int)
    requires
        0 <= i < owners.len(),
    ensures
        territory_sum(owners.take(i + 1), w, p, x, y) == territory_sum(owners.take(i), w, p, x, y)
            + if owners[i] == p {
            TERRITORY_WEIGHT * kernel(x - i % w, y - i / w)
        } else {
            0
        },
        territory_sum(owners.take(0), w, p, x, y) == 0,
{
    assert(owners.take(i + 1).drop_last() =~= owners.take(i));
}

proof fn lemma_total_units_take(units: Seq<UnitGroup>, i: int)
    requires
        0 <= i <= units.len(),
    ensures
        0 <= total_units(units.take(i)) <= total_units(units),
        i < units.len() ==> total_units(units.take(i + 1)) == total_units(units.take(i))
            + units[i].positions@.len(),
    decreases units.len() - i,
{
    if i < units.len() {
        assert(units.take(i + 1).drop_last() =~= units.take(i));
        lemma_total_units_take(units, i + 1);
        lemma_total_units_nonneg(units.take(i));
    } else {
        assert(units.take(i) =~= units);
        lemma_total_units_nonneg(units);
    }
}

proof fn lemma_total_units_nonneg(units: Seq<UnitGroup>)
    ensures
        0 <= total_units(units),
    decreases units.len(),
{
    if units.len() > 0 {
        lemma_total_units_nonneg(units.drop_last());
    }
}

/// The raw influence of one player over the whole map.
fn raw_grid(units: &Vec<UnitGroup>, owners: &Vec<i32>, w: i64, h: i64, p: i32) -> (grid: Vec<i64>)
    requires
        0 <= w <= i32::MAX,
        0 <= h <= i32::MAX,
        w * h <= usize::MAX,
        owners.len() + UNIT_WEIGHT * total_units(units@) <= MAX_SOURCES,
    ensures
        grid.len() == w * h,
        forall|c: int|
            0 <= c < grid.len() ==> #[trigger] grid[c] == raw_value(
                units@,
                owners@,
                w as int,
                p as int,
                c,
            ),
        forall|c: int| 0 <= c < grid.len() ==> 0 <= #[trigger] grid[c],
{
    proof {
        assert(0 <= w * h) by (nonlinear_arith)
            requires
                0 <= w,
                0 <= h,
        ;
        assert(w * h <= 0x7fff_ffff * 0x7fff_ffff) by (nonlinear_arith)
            requires
                0 <= w <= 0x7fff_ffff,
                0 <= h <= 0x7fff_ffff,
        ;
        lemma_total_units_take(units@, 0);
    }
    let cells: usize = (w * h) as usize;
    let mut grid: Vec<i64> = Vec::new();
    while grid.len() < cells
        invariant
            grid.len() <= cells,
            forall|c: int| 0 <= c < grid.len() ==> #[trigger] grid[c] == 0,
        decreases cells - grid.len(),
    {
        grid.push(0);
    }
    let ghost wi = w as int;
    let ghost pi = p as int;
    let mut gi: usize = 0;
    while gi < units.len()
        invariant
            0 <= w <= i32::MAX,
            0 <= h <= i32::MAX,
            wi == w,
            pi == p,
            grid.len() == w * h,
            gi <= units.len(),
            owners.len() + UNIT_WEIGHT * total_units(units@) <= MAX_SOURCES,
            0 <= total_units(units@.take(gi as int)) <= total_units(units@),
            forall|c: int|
                0 <= c < grid.len() ==> #[trigger] grid[c] == unit_at(
                    units@.take(gi as int),
                    wi,
                    pi,
                    c,
                ),
            forall|c: int|
                0 <= c < grid.len() ==> 0 <= #[trigger] grid[c] <= UNIT_WEIGHT * total_units(
                    units@.take(gi as int),
                ) * 0x1_0000_0000,
        decreases units.len() - gi,
    {
        let group = &units[gi];
        proof {
            lemma_total_units_take(units@, gi as int);
            lemma_total_units_take(units@, gi + 1);
            assert forall|c: int| 0 <= c < grid.len() implies #[trigger] unit_at(
                units@.take(gi + 1),
                wi,
                pi,
                c,
            ) == unit_at(units@.take(gi as int), wi, pi, c) + if group.player_id == pi {
                group_at(group.positions@, wi, c)
            } else {
                0
            } by {
                lemma_unit_sum_step(units@, gi as int, pi, c % wi, c / wi);
            }
        }
        if group.player_id == p {
            let ghost base = total_units(units@.take(gi as int));
            let ghost start = grid@;
            let mut pj: usize = 0;
            while pj < group.positions.len()
                invariant
                    0 <= w <= i32::MAX,
                    0 <= h <= i32::MAX,
                    wi == w,
                    grid.len() == w * h,
                    grid.len() == start.len(),
                    pj <= group.positions.len(),
                    0 <= base,
                    UNIT_WEIGHT * (base + group.positions.len()) <= MAX_SOURCES,
                    forall|c: int|
                        0 <= c < grid.len() ==> #[trigger] grid[c] == start[c] + group_at(
                            group.positions@.take(pj as int),
                            wi,
                            c,
                        ),
                    forall|c: int|
                        0 <= c < grid.len() ==> 0 <= #[trigger] grid[c] <= UNIT_WEIGHT * (base
                            + pj) * 0x1_0000_0000,
                decreases group.positions.len() - pj,
            {
                let pos = group.positions[pj];
                let ghost before = grid@;
                proof {
                    assert forall|c: int| 0 <= c < grid.len() implies #[trigger] group_at(
                        group.positions@.take(pj + 1),
                        wi,
                        c,
                    ) == group_at(group.positions@.take(pj as int), wi, c) + footprint(
                        wi,
                        pos.col as int,
                        pos.row as int,
                        UNIT_WEIGHT as int,
                        c,
                    ) by {
                        lemma_group_sum_step(group.positions@, pj as int, c % wi, c / wi);
                    }
                }
                stamp(
                    &mut grid,
                    w,
                    h,
                    pos.col as i64,
                    pos.row as i64,
                    UNIT_WEIGHT,
                    Ghost(UNIT_WEIGHT * (base + pj) * 0x1_0000_0000),
                );
                pj = pj + 1;
            }
            proof {
                assert(group.positions@.take(pj as int) =~= group.positions@);
            }
        }
        gi = gi + 1;
    }
    proof {
        assert(units@.take(gi as int) =~= units@);
    }
    if w > 0 {
        let ghost all_units = UNIT_WEIGHT * total_units(units@);
        let ghost start = grid@;
        let mut i: usize = 0;
        while i < owners.len()
            invariant
                0 < w <= i32::MAX,
                0 <= h <= i32::MAX,
                wi == w,
                pi == p,
                grid.len() == w * h,
                grid.len() == start.len(),
                i <= owners.len(),
                0 <= all_units,
                owners.len() + all_units <= MAX_SOURCES,
                forall|c: int|
                    0 <= c < grid.len() ==> #[trigger] grid[c] == start[c] + territory_at(
                        owners@.take(i as int),
                        wi,
                        pi,
                        c,
                    ),
                forall|c: int|
                    0 <= c < grid.len() ==> 0 <= #[trigger] grid[c] <= (all_units + i)
                        * 0x1_0000_0000,
            decreases owners.len() - i,
        {
            proof {
                assert forall|c: int| 0 <= c < grid.len() implies #[trigger] territory_at(
                    owners@.take(i + 1),
                    wi,
                    pi,
                    c,
                ) == territory_at(owners@.take(i as int), wi, pi, c) + if owners[i as int]
                    == pi {
                    footprint(wi, i as int % wi, i as int / wi, TERRITORY_WEIGHT as int, c)
                } else {
                    0
                } by {
                    lemma_territory_sum_step(owners@, i as int, wi, pi, c % wi, c / wi);
                }
            }
            if owners[i] == p {
                let cx: i64 = (i as i64) % w;
                let cy: i64 = (i as i64) / w;
                stamp(
                    &mut grid,
                    w,
                    h,
                    cx,
                    cy,
                    TERRITORY_WEIGHT,
                    Ghost((all_units + i) * 0x1_0000_0000),
                );
            }
            i = i + 1;
        }
        proof {
            assert(owners@.take(i as int) =~= owners@);
        }
    }
    grid
}

/// One player's lead over its strongest rival, cell by cell.
fn net_grid(
    raw: &Vec<Vec<i64>>,
    p: usize,
    cells: usize,
    Ghost(units): Ghost<Seq<UnitGroup>>,
    Ghost(owners): Ghost<Seq<i32>>,
    Ghost(w): Ghost<int>,
) -> (net: Vec<i64>)
    requires
        p < raw.len(),
        forall|q: int| 0 <= q < raw.len() ==> (#[trigger] raw[q]).len() == cells,
        forall|q: int, c: int|
            0 <= q < raw.len() && 0 <= c < cells ==> 0 <= #[trigger] raw[q][c] && raw[q][c]
                == raw_value(units, owners, w, q, c),
    ensures
        net.len() == cells,
        forall|c: int|
            0 <= c < cells ==> #[trigger] net[c] == net_value(
                units,
                owners,
                w,
                raw.len() as int,
                p as int,
                c,
            ),
{
    let mut net: Vec<i64> = Vec::new();
    let mut c: usize = 0;
    while c < cells
        invariant
            c <= cells,
            net.len() == c,
            p < raw.len(),
            forall|q: int| 0 <= q < raw.len() ==> (#[trigger] raw[q]).len() == cells,
            forall|q: int, c: int|
                0 <= q < raw.len() && 0 <= c < cells ==> 0 <= #[trigger] raw[q][c] && raw[q][c]
                    == raw_value(units, owners, w, q, c),
            forall|d: int|
                0 <= d < c ==> #[trigger] net[d] == net_value(
                    units,
                    owners,
                    w,
                    raw.len() as int,
                    p as int,
                    d,
                ),
        decreases cells - c,
    {
        let own = raw[p][c];
        let mut max_enemy: i64 = 0;
        let mut other: usize = 0;
        while other < raw.len()
            invariant
                other <= raw.len(),
                c < cells,
                p < raw.len(),
                forall|q: int| 0 <= q < raw.len() ==> (#[trigger] raw[q]).len() == cells,
                forall|q: int, c: int|
                    0 <= q < raw.len() && 0 <= c < cells ==> 0 <= #[trigger] raw[q][c]
                        && raw[q][c] == raw_value(units, owners, w, q, c),
                max_enemy == rival_max(units, owners, w, p as int, c as int, other as int),
                0 <= max_enemy,
            decreases raw.len() - other,
        {
            if other != p {
                let v = raw[other][c];
                if v > max_enemy {
                    max_enemy = v;
                }
            }
            other = other + 1;
        }
        net.push(own - max_enemy);
        c = c + 1;
    }
    net
}

/// The influence field: one grid of net influence per player, kept until the
/// next [`InfluenceMap::compute`].
pub struct InfluenceMap {
    influence: Vec<Vec<i64>>,
    width: usize,
    height: usize,
    num_players: usize,
}

impl InfluenceMap {
    /// The stored grids, one per player, row-major.
    pub closed spec fn grids(&self) -> Seq<Seq<i64>> {
        Seq::new(self.influence@.len(), |p: int| self.influence@[p]@)
    }

    pub closed spec fn spec_width(&self) -> int {
        self.width as int
    }

    pub closed spec fn spec_height(&self) -> int {
        self.height as int
    }

    pub closed spec fn spec_num_players(&self) -> int {
        self.num_players as int
    }

    /// A field without players or cells.
    pub fn new() -> (m: InfluenceMap)
        ensures
            m.grids().len() == 0,
            m.spec_width() == 0,
            m.spec_height() == 0,
            m.spec_num_players() == 0,
    {
        InfluenceMap { influence: Vec::new(), width: 0, height: 0, num_players: 0 }
    }

    pub fn width(&self) -> (w: usize)
        ensures
            w == self.spec_width(),
    {
        self.width
    }

    pub fn height(&self) -> (h: usize)
        ensures
            h == self.spec_height(),
    {
        self.height
    }

    pub fn num_players(&self) -> (n: usize)
        ensures
            n == self.spec_num_players(),
    {
        self.num_players
    }

    /// Recomputes every player's net influence from the units and the owner
    /// grid, replacing what was stored.
    ///
    /// The players are `0` up to the highest id among the groups and the
    /// owners. Groups with a negative id and tiles with a negative owner add
    /// nothing.
    pub fn compute(
        &mut self,
        unit_positions_by_player: &Vec<UnitGroup>,
        territory_owner_grid: &Vec<i32>,
        map_width: i32,
        map_height: i32,
    )
        requires
            0 <= map_width,
            0 <= map_height,
            map_width * map_height <= usize::MAX,
            territory_owner_grid.len() + UNIT_WEIGHT * total_units(unit_positions_by_player@)
                <= MAX_SOURCES,
        ensures
            final(self).spec_width() == map_width,
            final(self).spec_height() == map_height,
            final(self).spec_num_players() == player_count(
                unit_positions_by_player@,
                territory_owner_grid@,
            ),
            final(self).grids().len() == final(self).spec_num_players(),
            forall|p: int|
                0 <= p < final(self).grids().len() ==> (#[trigger] final(self).grids()[p]).len()
                    == map_width * map_height,
            forall|p: int, c: int|
                0 <= p < final(self).grids().len() && 0 <= c < map_width * map_height
                    ==> #[trigger] final(self).grids()[p][c] == net_value(
                    unit_positions_by_player@,
                    territory_owner_grid@,
                    map_width as int,
                    final(self).spec_num_players(),
                    p,
                    c,
                ),
    {
        let units = unit_positions_by_player;
        let owners = territory_owner_grid;
        let w: i64 = map_width as i64;
        let h: i64 = map_height as i64;
        let mut max_pid: i32 = -1;
        let mut gi: usize = 0;
        while gi < units.len()
            invariant
                gi <= units.len(),
                max_pid >= -1,
                max_pid == max_group_id(units@.take(gi as int)),
            decreases units.len() - gi,
        {
            assert(units@.take(gi + 1).drop_last() =~= units@.take(gi as int));
            if units[gi].player_id > max_pid {
                max_pid = units[gi].player_id;
            }
            gi = gi + 1;
        }
        assert(units@.take(gi as int) =~= units@);
        let mut i: usize = 0;
        while i < owners.len()
            invariant
                i <= owners.len(),
                max_pid >= -1,
                max_group_id(units@) >= -1,
                max_pid == if max_group_id(units@) > max_owner(owners@.take(i as int)) {
                    max_group_id(units@)
                } else {
                    max_owner(owners@.take(i as int))
                },
            decreases owners.len() - i,
        {
            assert(owners@.take(i + 1).drop_last() =~= owners@.take(i as int));
            if owners[i] > max_pid {
                max_pid = owners[i];
            }
            i = i + 1;
        }
        assert(owners@.take(i as int) =~= owners@);
        let np: usize = (max_pid as i64 + 1) as usize;
        proof {
            assert(0 <= w * h <= 0x7fff_ffff * 0x7fff_ffff) by (nonlinear_arith)
                requires
                    0 <= w <= 0x7fff_ffff,
                    0 <= h <= 0x7fff_ffff,
            ;
        }
        let cells: usize = (w * h) as usize;
        let mut raw: Vec<Vec<i64>> = Vec::new();
        let mut pid: usize = 0;
        while pid < np
            invariant
                pid <= np,
                np <= 0x8000_0000,
                raw.len() == pid,
                0 <= w <= i32::MAX,
                0 <= h <= i32::MAX,
                cells == w * h,
                owners.len() + UNIT_WEIGHT * total_units(units@) <= MAX_SOURCES,
                forall|q: int| 0 <= q < raw.len() ==> (#[trigger] raw[q]).len() == cells,
                forall|q: int, c: int|
                    0 <= q < raw.len() && 0 <= c < cells ==> 0 <= #[trigger] raw[q][c]
                        && raw[q][c] == raw_value(units@, owners@, w as int, q, c),
            decreases np - pid,
        {
            let grid = raw_grid(units, owners, w, h, pid as i32);
            raw.push(grid);
            pid = pid + 1;
        }
        let mut influence: Vec<Vec<i64>> = Vec::new();
        let mut pid: usize = 0;
        while pid < np
            invariant
                pid <= np,
                raw.len() == np,
                influence.len() == pid,
                forall|q: int| 0 <= q < raw.len() ==> (#[trigger] raw[q]).len() == cells,
                forall|q: int, c: int|
                    0 <= q < raw.len() && 0 <= c < cells ==> 0 <= #[trigger] raw[q][c]
                        && raw[q][c] == raw_value(units@, owners@, w as int, q, c),
                forall|q: int| 0 <= q < influence.len() ==> (#[trigger] influence[q]).len() == cells,
                forall|q: int, c: int|
                    0 <= q < influence.len() && 0 <= c < cells ==> #[trigger] influence[q][c]
                        == net_value(units@, owners@, w as int, np as int, q, c),
            decreases np - pid,
        {
            let net = net_grid(&raw, pid, cells, Ghost(units@), Ghost(owners@), Ghost(w as int));
            influence.push(net);
            pid = pid + 1;
        }
        self.influence = influence;
        self.width = map_width as usize;
        self.height = map_height as usize;
        self.num_players = np;
    }

    /// A copy of the stored grid of `player_id`; empty for an id that names no
    /// stored grid.
    pub fn get_player_influence(&self, player_id: i32) -> (grid: Vec<i64>)
        ensures
            0 <= player_id < self.grids().len() ==> grid@ == self.grids()[player_id as int],
            !(0 <= player_id < self.grids().len()) ==> grid@.len() == 0,
    {
        let mut grid: Vec<i64> = Vec::new();
        if player_id >= 0 && (player_id as usize) < self.influence.len() {
            let src = &self.influence[player_id as usize];
            let mut c: usize = 0;
            while c < src.len()
                invariant
                    c <= src.len(),
                    grid.len() == c,
                    forall|d: int| 0 <= d < c ==> #[trigger] grid[d] == src[d],
                decreases src.len() - c,
            {
                grid.push(src[c]);
                c = c + 1;
            }
            assert(grid@ =~= self.grids()[player_id as int]);
        }
        grid
    }
}

/// Raw influence is never negative.
pub proof fn lemma_raw_value_nonnegative(units: Seq<UnitGroup>, owners: Seq<i32>, w: int, p: int, c: int)
    ensures
        0 <= raw_value(units, owners, w, p, c),
{
    lemma_unit_sum_nonnegative(units, p, c % w, c / w);
    lemma_territory_sum_nonnegative(owners, w, p, c % w, c / w);
}

proof fn lemma_group_sum_nonnegative(positions: Seq<OffsetCoord>, x: int, y: int)
    ensures
        0 <= group_sum(positions, x, y),
    decreases positions.len(),
{
    if positions.len() > 0 {
        lemma_group_sum_nonnegative(positions.drop_last(), x, y);
        lemma_kernel_bounds(x - positions.last().col, y - positions.last().row);
    }
}

proof fn lemma_unit_sum_nonnegative(units: Seq<UnitGroup>, p: int, x: int, y: int)
    ensures
        0 <= unit_sum(units, p, x, y),
    decreases units.len(),
{
    if units.len() > 0 {
        lemma_unit_sum_nonnegative(units.drop_last(), p, x, y);
        lemma_group_sum_nonnegative(units.last().positions@, x, y);
    }
}

proof fn lemma_territory_sum_nonnegative(owners: Seq<i32>, w: int, p: int, x: int, y: int)
    ensures
        0 <= territory_sum(owners, w, p, x, y),
    decreases owners.len(),
{
    if owners.len() > 0 {
        lemma_territory_sum_nonnegative(owners.drop_last(), w, p, x, y);
        let i = owners.len() - 1;
        lemma_kernel_bounds(x - i % w, y - i / w);
    }
}

/// At a cell where no other player has any raw influence, a player's net
/// influence is its raw influence.
pub proof fn lemma_net_without_rivals(
    units: Seq<UnitGroup>,
    owners: Seq<i32>,
    w: int,
    np: int,
    p: int,
    c: int,
)
    requires
        forall|q: int| 0 <= q < np && q != p ==> raw_value(units, owners, w, q, c) == 0,
    ensures
        rival_max(units, owners, w, p, c, np) == 0,
        net_value(units, owners, w, np, p, c) == raw_value(units, owners, w, p, c),
    decreases np,
{
    if np > 0 {
        lemma_net_without_rivals(units, owners, w, np - 1, p, c);
    }
}

/// The strongest rival is at least as strong as each other player, and a
/// player never leads by more than its own raw influence.
pub proof fn lemma_rival_max_bounds(
    units: Seq<UnitGroup>,
    owners: Seq<i32>,
    w: int,
    np: int,
    p: int,
    c: int,
    q: int,
)
    requires
        0 <= q < np,
        q != p,
    ensures
        0 <= rival_max(units, owners, w, p, c, np),
        raw_value(units, owners, w, q, c) <= rival_max(units, owners, w, p, c, np),
        net_value(units, owners, w, np, p, c) <= raw_value(units, owners, w, p, c) - raw_value(
            units,
            owners,
            w,
            q,
            c,
        ),
    decreases np,
{
    lemma_rival_max_nonnegative(units, owners, w, np, p, c);
    if q < np - 1 {
        lemma_rival_max_bounds(units, owners, w, np - 1, p, c, q);
    }
}

proof fn lemma_rival_max_nonnegative(units: Seq<UnitGroup>, owners: Seq<i32>, w: int, np: int, p: int, c: int)
    ensures
        0 <= rival_max(units, owners, w, p, c, np),
    decreases np,
{
    if np > 0 {
        lemma_rival_max_nonnegative(units, owners, w, np - 1, p, c);
    }
}

} // verus!
