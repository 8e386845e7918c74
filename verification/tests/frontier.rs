use hexgrid::coords::{HexMath, OffsetCoord};
use hexgrid::frontier::TerritoryFrontier;

fn at(col: i32, row: i32) -> OffsetCoord {
    OffsetCoord::new(col, row)
}

#[test]
fn frontier_of_one_tile_is_its_neighbors_in_order() {
    let mut owners = vec![-1; 9];
    owners[4] = 0;
    let f = TerritoryFrontier.get_frontier(&owners, 0, 3, 3);
    assert_eq!(f, vec![at(2, 2), at(2, 1), at(1, 0), at(0, 1), at(0, 2), at(1, 2)]);
}

#[test]
fn frontier_is_cut_at_the_map_edge() {
    let mut owners = vec![-1; 9];
    owners[0] = 0;
    let f = TerritoryFrontier.get_frontier(&owners, 0, 3, 3);
    assert_eq!(f, vec![at(1, 0), at(0, 1)]);
}

#[test]
fn frontier_lists_each_tile_once_in_first_discovery_order() {
    // tiles (0,0) and (1,0) owned; both touch (0,1) and (1,1)
    let owners = vec![0, 0, -1, -1, 1, -1, -1, -1, -1];
    let f = TerritoryFrontier.get_frontier(&owners, 0, 3, 3);
    assert_eq!(f, vec![at(0, 1), at(2, 1), at(2, 0), at(1, 1)]);
}

#[test]
fn frontier_includes_tiles_of_other_players() {
    let owners = vec![0, 1, 2, -1];
    let f = TerritoryFrontier.get_frontier(&owners, 0, 4, 1);
    assert_eq!(f, vec![at(1, 0)]);
    let f = TerritoryFrontier.get_frontier(&owners, 1, 4, 1);
    assert_eq!(f, vec![at(2, 0), at(0, 0)]);
}

#[test]
fn frontier_is_empty_without_territory() {
    assert!(TerritoryFrontier.get_frontier(&vec![-1; 9], 0, 3, 3).is_empty());
    assert!(TerritoryFrontier.get_frontier(&vec![0; 9], 0, 3, 3).is_empty());
    assert!(TerritoryFrontier.get_frontier(&Vec::new(), 0, 3, 3).is_empty());
}

#[test]
fn frontier_is_empty_on_a_map_without_area() {
    assert!(TerritoryFrontier.get_frontier(&vec![0, -1], 0, 0, 5).is_empty());
    assert!(TerritoryFrontier.get_frontier(&vec![0, -1], 0, 2, 0).is_empty());
    assert!(TerritoryFrontier.get_frontier(&vec![0, -1], 0, -2, 1).is_empty());
}

#[test]
fn frontier_of_a_short_owner_grid_stops_at_its_end() {
    // 3x3 map, but only the first row and one more tile are given
    let owners = vec![-1, 0, -1, -1];
    let f = TerritoryFrontier.get_frontier(&owners, 0, 3, 3);
    assert_eq!(f, vec![at(2, 0), at(0, 0), at(0, 1)]);
}

#[test]
fn frontier_ignores_owner_entries_beyond_the_map() {
    let owners = vec![-1, -1, -1, -1, 0, 0];
    let f = TerritoryFrontier.get_frontier(&owners, 0, 2, 2);
    assert!(f.is_empty());
}

#[test]
fn frontier_tiles_are_foreign_and_touch_the_territory() {
    let w = 6;
    let h = 5;
    let mut owners = vec![-1; 30];
    for i in [7, 8, 13, 14, 20, 29] {
        owners[i] = 3;
    }
    owners[9] = 1;
    let f = TerritoryFrontier.get_frontier(&owners, 3, w, h);
    let owned: Vec<OffsetCoord> = (0..30).filter(|i| owners[*i as usize] == 3).map(|i| at(i % w, i / w)).collect();
    for (n, t) in f.iter().enumerate() {
        assert!(t.col >= 0 && t.col < w && t.row >= 0 && t.row < h);
        assert_ne!(owners[(t.row * w + t.col) as usize], 3);
        assert!(owned.iter().any(|o| HexMath::hex_distance(*o, *t) == 1));
        assert!(!f[..n].contains(t));
    }
    for col in 0..w {
        for row in 0..h {
            let t = at(col, row);
            let expected = owners[(row * w + col) as usize] != 3
                && owned.iter().any(|o| HexMath::hex_distance(*o, t) == 1);
            assert_eq!(f.contains(&t), expected);
        }
    }
}
