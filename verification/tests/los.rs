use hexgrid::coords::OffsetCoord;
use hexgrid::los::{cube_round, HexLOS};

fn at(col: i32, row: i32) -> OffsetCoord {
    OffsetCoord::new(col, row)
}

fn plains_with_mountain() -> Vec<i32> {
    let mut tiles = vec![0; 25];
    tiles[2 * 5 + 2] = 2;
    tiles
}

#[test]
fn test_cube_round() {
    let (x, y, z) = cube_round(1, -2, 1, 10);
    assert_eq!(x + y + z, 0);
}

#[test]
fn cube_round_exact_values() {
    assert_eq!(cube_round(1, -2, 1, 10), (0, 0, 0));
    assert_eq!(cube_round(30, -20, -10, 10), (3, -2, -1));
    assert_eq!(cube_round(9, -2, -7, 10), (1, 0, -1));
    assert_eq!(cube_round(-26, 13, 13, 10), (-2, 1, 1));
    // a point on the edge between two hexes
    assert_eq!(cube_round(4, -2, -2, 4), (1, 0, -1));
    assert_eq!(cube_round(12, -6, -6, 4), (3, -1, -2));
}

#[test]
fn cube_round_always_sums_to_zero() {
    for x in -12..13 {
        for y in -12..13 {
            for d in 1..6 {
                let (a, b, c) = cube_round(x, y, -x - y, d);
                assert_eq!(a + b + c, 0);
            }
        }
    }
}

#[test]
fn mountain_on_the_line_blocks() {
    let tiles = plains_with_mountain();
    assert!(!HexLOS.has_line_of_sight(at(0, 2), at(4, 2), &tiles, 5, 5));
    assert!(!HexLOS.has_line_of_sight(at(4, 2), at(0, 2), &tiles, 5, 5));
}

#[test]
fn clear_line_is_visible() {
    let tiles = plains_with_mountain();
    assert!(HexLOS.has_line_of_sight(at(0, 0), at(4, 0), &tiles, 5, 5));
}

#[test]
fn a_tile_sees_itself_and_its_neighbors() {
    let tiles = vec![2; 25];
    for col in 0..5 {
        for row in 0..5 {
            let p = at(col, row);
            assert!(HexLOS.has_line_of_sight(p, p, &tiles, 5, 5));
            for k in 0..6 {
                let n = p.neighbor_at(k).unwrap();
                assert!(HexLOS.has_line_of_sight(p, n, &tiles, 5, 5));
            }
        }
    }
}

#[test]
fn mountains_at_the_ends_do_not_block() {
    let mut tiles = vec![0; 25];
    tiles[0] = 2;
    tiles[20] = 2;
    assert!(HexLOS.has_line_of_sight(at(0, 0), at(0, 4), &tiles, 5, 5));
    tiles[10] = 2;
    assert!(!HexLOS.has_line_of_sight(at(0, 0), at(0, 4), &tiles, 5, 5));
}

#[test]
fn line_leaving_the_map_is_blocked() {
    let tiles = vec![0; 25];
    assert!(!HexLOS.has_line_of_sight(at(0, 0), at(8, 0), &tiles, 5, 5));
    assert!(!HexLOS.has_line_of_sight(at(-3, 0), at(0, 0), &tiles, 5, 5));
}

#[test]
fn tiles_past_the_end_of_the_grid_are_clear() {
    let tiles = vec![0; 5];
    assert!(HexLOS.has_line_of_sight(at(0, 0), at(0, 4), &tiles, 5, 5));
}

#[test]
fn far_apart_tiles_on_a_large_map() {
    let w = 300;
    let h = 200;
    let mut tiles = vec![0; (w * h) as usize];
    assert!(HexLOS.has_line_of_sight(at(0, 0), at(299, 199), &tiles, w, h));
    assert!(HexLOS.has_line_of_sight(at(0, 100), at(299, 100), &tiles, w, h));
    tiles[(100 * w + 150) as usize] = 2;
    assert!(!HexLOS.has_line_of_sight(at(0, 100), at(299, 100), &tiles, w, h));
}
