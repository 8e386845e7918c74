//! Line of sight along the straight line between two tiles, traced in cube
//! coordinates with exact rational arithmetic.

use crate::coords::{abs_int, axial, hex_dist, offset_of_axial, to_axial, HexMath, OffsetCoord};
use crate::resources::MOUNTAIN;
use vstd::arithmetic::div_mod::{lemma_fundamental_div_mod, lemma_mod_bound};
use vstd::prelude::*;

verus! {

pub struct HexLOS;

/// Largest magnitude of a numerator, and largest denominator, that
/// [`cube_round`] takes.
pub const ROUND_LIMIT: i128 = 0x10_0000_0000_0000_0000_0000_0000;

/// `n / d` rounded to the nearest integer, halves upwards.
pub open spec fn round_half_up(n: int, d: int) -> int {
    (2 * n + d) / (2 * d)
}

/// The cube hex nearest to the point `(x / d, y / d, z / d)`: each axis is
/// rounded, then the axis that rounding moved most is set to minus the sum of
/// the other two.
pub open spec fn cube_round_spec(x: int, y: int, z: int, d: int) -> (int, int, int) {
    let rx = round_half_up(x, d);
    let ry = round_half_up(y, d);
    let rz = round_half_up(z, d);
    let ex = abs_int(rx * d - x);
    let ey = abs_int(ry * d - y);
    let ez = abs_int(rz * d - z);
    if ex > ey && ex > ez {
        (-ry - rz, ry, rz)
    } else if ey > ez {
        (rx, -rx - rz, rz)
    } else {
        (rx, ry, -rx - ry)
    }
}

/// Rounding moves a value by at most one half.
pub proof fn lemma_round_half_up(n: int, d: int)
    requires
        d > 0,
    ensures
        2 * abs_int(round_half_up(n, d) * d - n) <= d,
        abs_int(round_half_up(n, d)) <= abs_int(n) + 1,
{
    let q = (2 * n + d) / (2 * d);
    lemma_fundamental_div_mod(2 * n + d, 2 * d);
    lemma_mod_bound(2 * n + d, 2 * d);
    let r = (2 * n + d) % (2 * d);
    assert(2 * n + d == (2 * d) * q + r);
    assert((2 * d) * q == 2 * (q * d)) by (nonlinear_arith);
    let m = abs_int(n);
    assert(-(m + 1) <= q <= m + 1) by (nonlinear_arith)
        requires
            2 * n + d == 2 * (q * d) + r,
            0 <= r < 2 * d,
            d > 0,
            -m <= n <= m,
    ;
}

/// The rounded cube coordinates always sum to zero.
pub proof fn lemma_cube_round_sum(x: int, y: int, z: int, d: int)
    ensures
        cube_round_spec(x, y, z, d).0 + cube_round_spec(x, y, z, d).1 + cube_round_spec(
            x,
            y,
            z,
            d,
        ).2 == 0,
{
}

fn round_div(n: i128, d: i128) -> (r: i128)
    requires
        0 < d <= ROUND_LIMIT,
        -ROUND_LIMIT <= n <= ROUND_LIMIT,
    ensures
        r == round_half_up(n as int, d as int),
        2 * abs_int(r * d - n) <= d,
        abs_int(r as int) <= abs_int(n as int) + 1,
{
    proof {
        lemma_round_half_up(n as int, d as int);
    }
    let t: i128 = 2 * n + d;
    let m: i128 = 2 * d;
    if t >= 0 {
        t / m
    } else {
        let up: i128 = (-t + m - 1) / m;
        proof {
            let ti = t as int;
            let mi = m as int;
            let a = -ti + mi - 1;
            lemma_fundamental_div_mod(a, mi);
            lemma_mod_bound(a, mi);
            let q = a / mi;
            let rem = a % mi;
            assert(ti == (-q) * mi + (mi - 1 - rem)) by (nonlinear_arith)
                requires
                    a == mi * q + rem,
                    a == -ti + mi - 1,
            ;
            vstd::arithmetic::div_mod::lemma_fundamental_div_mod_converse(
                ti,
                mi,
                -q,
                mi - 1 - rem,
            );
        }
        -up
    }
}

fn round_error(r: i128, n: i128, d: i128) -> (e: i128)
    requires
        0 < d <= ROUND_LIMIT,
        -ROUND_LIMIT <= n <= ROUND_LIMIT,
        2 * abs_int(r * d - n) <= d,
        abs_int(r as int) <= abs_int(n as int) + 1,
    ensures
        e == abs_int(r * d - n),
{
    proof {
        assert(-ROUND_LIMIT * 2 <= r * d <= ROUND_LIMIT * 2);
    }
    let diff = r * d - n;
    if diff < 0 {
        -diff
    } else {
        diff
    }
}

/// Rounds the point `(x / den, y / den, z / den)` to the nearest cube hex.
pub fn cube_round(x: i128, y: i128, z: i128, den: i128) -> (r: (i128, i128, i128))
    requires
        0 < den <= ROUND_LIMIT,
        -ROUND_LIMIT <= x <= ROUND_LIMIT,
        -ROUND_LIMIT <= y <= ROUND_LIMIT,
        -ROUND_LIMIT <= z <= ROUND_LIMIT,
    ensures
        (r.0 as int, r.1 as int, r.2 as int) == cube_round_spec(
            x as int,
            y as int,
            z as int,
            den as int,
        ),
        r.0 + r.1 + r.2 == 0,
{
    let rx = round_div(x, den);
    let ry = round_div(y, den);
    let rz = round_div(z, den);
    let ex = round_error(rx, x, den);
    let ey = round_error(ry, y, den);
    let ez = round_error(rz, z, den);
    if ex > ey && ex > ez {
        (-ry - rz, ry, rz)
    } else if ey > ez {
        (rx, -rx - rz, rz)
    } else {
        (rx, ry, -rx - ry)
    }
}

/// Numerator, over the distance `dist`, of the point `s` steps of `dist` along
/// the way from `a` to `b`.
pub open spec fn lerp_num(a: int, b: int, s: int, dist: int) -> int {
    a * dist + (b - a) * s
}

/// The tile that the line from `from` to `to` crosses at step `s` of its length.
pub open spec fn line_tile(from: (int, int), to: (int, int), s: int) -> (int, int) {
    let dist = hex_dist(from, to);
    let a = axial(from);
    let b = axial(to);
    let r = cube_round_spec(
        lerp_num(a.0, b.0, s, dist),
        lerp_num(a.1, b.1, s, dist),
        lerp_num(-a.0 - a.1, -b.0 - b.1, s, dist),
        dist,
    );
    offset_of_axial((r.0, r.1))
}

/// A tile that stops the line: one outside the map, or a mountain.
pub open spec fn opaque_tile(tile_types: Seq<i32>, w: int, h: int, t: (int, int)) -> bool {
    ||| t.0 < 0
    ||| t.1 < 0
    ||| t.0 >= w
    ||| t.1 >= h
    ||| (t.1 * w + t.0 < tile_types.len() && tile_types[t.1 * w + t.0] == MOUNTAIN)
}

/// Nothing stands between the two tiles. The end tiles themselves do not count.
pub open spec fn line_of_sight(
    from: (int, int),
    to: (int, int),
    tile_types: Seq<i32>,
    w: int,
    h: int,
) -> bool {
    forall|s: int|
        1 <= s < hex_dist(from, to) ==> !opaque_tile(tile_types, w, h, #[trigger] line_tile(from, to, s))
}

/// A tile sees itself and each of its neighbours, whatever the terrain.
pub proof fn lemma_near_tiles_visible(
    from: (int, int),
    to: (int, int),
    tile_types: Seq<i32>,
    w: int,
    h: int,
)
    requires
        hex_dist(from, to) <= 1,
    ensures
        line_of_sight(from, to, tile_types, w, h),
{
}

fn lerp(a: i64, b: i64, s: i64, dist: i64) -> (n: i128)
    requires
        -0x2_0000_0000 <= a <= 0x2_0000_0000,
        -0x2_0000_0000 <= b <= 0x2_0000_0000,
        0 <= s <= dist <= 0x8_0000_0000,
    ensures
        n == lerp_num(a as int, b as int, s as int, dist as int),
        -ROUND_LIMIT <= n <= ROUND_LIMIT,
{
    proof {
        assert(-0x2_0000_0000 * 0x8_0000_0000 <= a * dist <= 0x2_0000_0000 * 0x8_0000_0000)
            by (nonlinear_arith)
            requires
                -0x2_0000_0000 <= a <= 0x2_0000_0000,
                0 <= dist <= 0x8_0000_0000,
        ;
        assert(-0x4_0000_0000 * 0x8_0000_0000 <= (b - a) * s <= 0x4_0000_0000 * 0x8_0000_0000)
            by (nonlinear_arith)
            requires
                -0x4_0000_0000 <= b - a <= 0x4_0000_0000,
                0 <= s <= 0x8_0000_0000,
        ;
    }
    (a as i128) * (dist as i128) + ((b as i128) - (a as i128)) * (s as i128)
}

impl HexLOS {
    /// Whether `to` can be seen from `from` on a map of `map_width` by
    /// `map_height` tiles: no tile crossed strictly between the two is a
    /// mountain or lies outside the map.
    pub fn has_line_of_sight(
        &self,
        from: OffsetCoord,
        to: OffsetCoord,
        tile_types: &Vec<i32>,
        map_width: i32,
        map_height: i32,
    ) -> (visible: bool)
        ensures
            visible == line_of_sight(
                from@,
                to@,
                tile_types@,
                map_width as int,
                map_height as int,
            ),
            hex_dist(from@, to@) <= 1 ==> visible,
    {
        let dist = HexMath::hex_distance(from, to);
        if dist <= 1 {
            return true;
        }
        let (ax, ay) = to_axial(from);
        let (bx, by) = to_axial(to);
        let az = -ax - ay;
        let bz = -bx - by;
        let mut step: i64 = 1;
        while step < dist
            invariant
                1 <= step <= dist,
                dist == hex_dist(from@, to@),
                dist <= 0x8_0000_0000,
                (ax as int, ay as int) == axial(from@),
                (bx as int, by as int) == axial(to@),
                az == -ax - ay,
                bz == -bx - by,
                forall|s: int|
                    1 <= s < step ==> !opaque_tile(
                        tile_types@,
                        map_width as int,
                        map_height as int,
                        #[trigger] line_tile(from@, to@, s),
                    ),
            decreases dist - step,
        {
            let fx = lerp(ax, bx, step, dist);
            let fy = lerp(ay, by, step, dist);
            let fz = lerp(az, bz, step, dist);
            let (rx, ry, _rz) = cube_round(fx, fy, fz, dist as i128);
            proof {
                lemma_round_half_up(fy as int, dist as int);
                lemma_round_half_up(fx as int, dist as int);
                lemma_round_half_up(fz as int, dist as int);
            }
            assert(line_tile(from@, to@, step as int).0 == rx);
            if rx < 0 || rx >= map_width as i128 {
                return false;
            }
            let row = ry + (rx - rx % 2) / 2;
            assert((rx as int, row as int) == line_tile(from@, to@, step as int));
            if row < 0 || row >= map_height as i128 {
                return false;
            }
            proof {
                assert(0 <= row * map_width + rx < map_height * map_width) by (nonlinear_arith)
                    requires
                        0 <= rx < map_width,
                        0 <= row < map_height,
                ;
                assert(map_height * map_width <= 0x7fff_ffff * 0x7fff_ffff) by (nonlinear_arith)
                    requires
                        0 <= map_height <= 0x7fff_ffff,
                        0 <= map_width <= 0x7fff_ffff,
                ;
            }
            let idx: u64 = (row * (map_width as i128) + rx) as u64;
            if idx < tile_types.len() as u64 && tile_types[idx as usize] == MOUNTAIN {
                return false;
            }
            step = step + 1;
        }
        true
    }
}

} // verus!
