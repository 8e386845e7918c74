use hexgrid::coords::{hex_neighbors_vec, parity_of, to_axial, HexMath, OffsetCoord};

fn at(col: i32, row: i32) -> OffsetCoord {
    OffsetCoord::new(col, row)
}

#[test]
fn test_hex_distance_same() {
    assert_eq!(HexMath::hex_distance(OffsetCoord::new(0, 0), OffsetCoord::new(0, 0)), 0);
}

#[test]
fn test_hex_distance_adjacent() {
    assert_eq!(HexMath::hex_distance(OffsetCoord::new(0, 0), OffsetCoord::new(1, 0)), 1);
}

#[test]
fn test_hex_distance_far() {
    let d = HexMath::hex_distance(OffsetCoord::new(0, 0), OffsetCoord::new(3, 3));
    assert!(d > 0);
}

#[test]
fn hex_distance_exact_values() {
    assert_eq!(HexMath::hex_distance(at(0, 0), at(3, 3)), 5);
    assert_eq!(HexMath::hex_distance(at(0, 0), at(4, 0)), 4);
    assert_eq!(HexMath::hex_distance(at(0, 2), at(4, 2)), 4);
    assert_eq!(HexMath::hex_distance(at(0, 0), at(0, 7)), 7);
    assert_eq!(HexMath::hex_distance(at(1, 1), at(2, 2)), 1);
    assert_eq!(HexMath::hex_distance(at(0, 0), at(-1, 0)), 1);
    assert_eq!(HexMath::hex_distance(at(0, 0), at(-1, -1)), 1);
    assert_eq!(HexMath::hex_distance(at(0, 0), at(-1, 1)), 2);
    assert_eq!(HexMath::hex_distance(at(-3, -3), at(3, 3)), 9);
}

#[test]
fn hex_distance_is_zero_only_on_itself() {
    for col in -3..4 {
        for row in -3..4 {
            for c2 in -3..4 {
                for r2 in -3..4 {
                    let d = HexMath::hex_distance(at(col, row), at(c2, r2));
                    assert_eq!(d == 0, col == c2 && row == r2);
                }
            }
        }
    }
}

#[test]
fn hex_distance_is_symmetric() {
    for col in -4..5 {
        for row in -4..5 {
            let p = at(col, row);
            let q = at(row * 2 - 1, col + 3);
            assert_eq!(HexMath::hex_distance(p, q), HexMath::hex_distance(q, p));
        }
    }
}

#[test]
fn hex_distance_takes_the_widest_coordinates() {
    let lo = at(i32::MIN, i32::MIN);
    let hi = at(i32::MAX, i32::MAX);
    let d = HexMath::hex_distance(lo, hi);
    assert_eq!(d, HexMath::hex_distance(hi, lo));
    assert_eq!(d, 6442450943);
}

#[test]
fn neighbors_of_even_column() {
    let n = HexMath::hex_neighbors(at(0, 0));
    let expected = vec![at(1, 0), at(1, -1), at(0, -1), at(-1, -1), at(-1, 0), at(0, 1)];
    assert_eq!(n, expected);
}

#[test]
fn neighbors_of_odd_column() {
    let n = HexMath::hex_neighbors(at(1, 1));
    let expected = vec![at(2, 2), at(2, 1), at(1, 0), at(0, 1), at(0, 2), at(1, 2)];
    assert_eq!(n, expected);
}

#[test]
fn neighbors_of_negative_odd_column() {
    let n = HexMath::hex_neighbors(at(-1, 0));
    let expected = vec![at(0, 1), at(0, 0), at(-1, -1), at(-2, 0), at(-2, 1), at(-1, 1)];
    assert_eq!(n, expected);
}

#[test]
fn every_neighbor_is_at_distance_one() {
    for col in -3..4 {
        for row in -3..4 {
            let p = at(col, row);
            let n = HexMath::hex_neighbors(p);
            assert_eq!(n.len(), 6);
            for q in n {
                assert_eq!(HexMath::hex_distance(p, q), 1);
                assert_eq!(HexMath::hex_distance(q, p), 1);
            }
        }
    }
}

#[test]
fn neighbor_pairs_match_neighbor_list() {
    let pairs = hex_neighbors_vec(3, -2);
    let list = HexMath::hex_neighbors(at(3, -2));
    for k in 0..6 {
        assert_eq!(at(pairs[k].0, pairs[k].1), list[k]);
        assert_eq!(at(3, -2).neighbor_at(k), Some(list[k]));
    }
}

#[test]
fn neighbor_outside_the_coordinate_range_is_none() {
    let corner = at(i32::MAX, i32::MAX);
    assert_eq!(corner.neighbor_at(0), None);
    assert_eq!(corner.neighbor_at(2), Some(at(i32::MAX, i32::MAX - 1)));
    assert_eq!(corner.neighbor_at(5), None);
    assert_eq!(at(i32::MIN, 0).neighbor_at(3), None);
}

#[test]
fn axial_of_offset() {
    assert_eq!(to_axial(at(0, 0)), (0, 0));
    assert_eq!(to_axial(at(4, 0)), (4, -2));
    assert_eq!(to_axial(at(3, 3)), (3, 2));
    assert_eq!(to_axial(at(-1, 0)), (-1, 1));
    assert_eq!(to_axial(at(-2, 0)), (-2, 1));
    assert_eq!(to_axial(at(-3, 5)), (-3, 7));
}

#[test]
fn parity_of_negative_columns() {
    assert_eq!(parity_of(0), 0);
    assert_eq!(parity_of(1), 1);
    assert_eq!(parity_of(-1), 1);
    assert_eq!(parity_of(-2), 0);
    assert_eq!(parity_of(i32::MIN), 0);
    assert_eq!(parity_of(i32::MAX), 1);
}

#[test]
fn keys_are_distinct_and_ordered_by_column_then_row() {
    assert_eq!(at(i32::MIN, i32::MIN).key(), 0);
    assert_eq!(at(i32::MAX, i32::MAX).key(), u64::MAX);
    assert_eq!(at(0, 0).key(), 0x8000_0000_8000_0000);
    assert!(at(0, 1).key() > at(0, 0).key());
    assert!(at(1, -5).key() > at(0, 5).key());
}
