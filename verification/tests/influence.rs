use hexgrid::coords::OffsetCoord;
use hexgrid::influence::{InfluenceMap, UnitGroup, INFLUENCE_ONE};

fn group(player_id: i32, positions: &[(i32, i32)]) -> UnitGroup {
    UnitGroup {
        player_id,
        positions: positions.iter().map(|p| OffsetCoord::new(p.0, p.1)).collect(),
    }
}

#[test]
fn new_field_has_no_grids() {
    let field = InfluenceMap::new();
    assert_eq!(field.num_players(), 0);
    assert_eq!(field.width(), 0);
    assert_eq!(field.height(), 0);
    assert!(field.get_player_influence(0).is_empty());
}

#[test]
fn lone_unit_spreads_a_gaussian() {
    let mut field = InfluenceMap::new();
    field.compute(&vec![group(0, &[(2, 2)])], &vec![-1; 25], 5, 5);
    assert_eq!(field.num_players(), 1);
    assert_eq!(field.width(), 5);
    assert_eq!(field.height(), 5);
    let grid = field.get_player_influence(0);
    assert_eq!(grid.len(), 25);
    assert_eq!(grid[12], 2 * INFLUENCE_ONE);
    assert_eq!(grid[12], 17179869184);
    assert_eq!(grid[13], 16651386880);
    assert_eq!(grid[11], 16651386880);
    assert_eq!(grid[7], 16651386880);
    assert_eq!(grid[17], 16651386880);
    assert_eq!(grid[0], 13379548900);
    assert_eq!(grid[24], 13379548900);
    assert_eq!(grid[6], 4 * 63520 * 63520);
}

#[test]
fn owned_tile_counts_a_quarter_of_a_unit() {
    let mut owners = vec![-1; 9];
    owners[4] = 0;
    let mut field = InfluenceMap::new();
    field.compute(&Vec::new(), &owners, 3, 3);
    let grid = field.get_player_influence(0);
    assert_eq!(grid.len(), 9);
    assert_eq!(grid[4], INFLUENCE_ONE / 2);
    assert_eq!(grid[4], 4294967296);
    assert_eq!(grid[5], 65536 * 63520);
    assert_eq!(grid[0], 63520 * 63520);
}

#[test]
fn net_is_raw_less_strongest_rival() {
    let mut field = InfluenceMap::new();
    field.compute(&vec![group(0, &[(0, 0)]), group(1, &[(4, 4)])], &vec![-1; 25], 5, 5);
    assert_eq!(field.num_players(), 2);
    let a = field.get_player_influence(0);
    let b = field.get_player_influence(1);
    assert_eq!(a[0], 17179869184 - 6320250000);
    assert_eq!(b[0], 6320250000 - 17179869184);
    assert_eq!(a[24], -b[24]);
    for c in 0..25 {
        assert_eq!(a[c], -b[c]);
    }
    // equally far from both
    assert_eq!(a[12], 0);
}

#[test]
fn third_player_only_takes_off_the_strongest() {
    let units = vec![group(0, &[(0, 0)]), group(1, &[(4, 0)]), group(2, &[(2, 0)])];
    let mut field = InfluenceMap::new();
    field.compute(&units, &vec![-1; 5], 5, 1);
    assert_eq!(field.num_players(), 3);
    let a = field.get_player_influence(0);
    let own = 4 * 65536 * 65536_i64;
    let near = 4 * 57835 * 65536_i64;
    let far = 4 * 39750 * 65536_i64;
    assert!(near > far);
    assert_eq!(a[0], own - near);
    let c = field.get_player_influence(2);
    assert_eq!(c[2], own - near);
    assert_eq!(c[0], near - own);
}

#[test]
fn player_without_rivals_keeps_raw_influence() {
    let mut field = InfluenceMap::new();
    field.compute(&vec![group(0, &[(1, 1), (1, 1)])], &vec![-1; 4], 2, 2);
    let grid = field.get_player_influence(0);
    assert_eq!(grid[3], 4 * INFLUENCE_ONE);
    assert_eq!(grid[0], 2 * 4 * 63520 * 63520);
}

#[test]
fn unknown_player_has_an_empty_grid() {
    let mut field = InfluenceMap::new();
    field.compute(&vec![group(1, &[(0, 0)])], &vec![0, -1, -1, -1], 2, 2);
    assert_eq!(field.num_players(), 2);
    assert_eq!(field.get_player_influence(0).len(), 4);
    assert_eq!(field.get_player_influence(1).len(), 4);
    assert!(field.get_player_influence(2).is_empty());
    assert!(field.get_player_influence(-1).is_empty());
    assert!(field.get_player_influence(i32::MAX).is_empty());
}

#[test]
fn player_count_follows_the_highest_id() {
    let mut field = InfluenceMap::new();
    field.compute(&Vec::new(), &vec![-1, -1, 3, -1], 2, 2);
    assert_eq!(field.num_players(), 4);
    for p in 0..3 {
        let g = field.get_player_influence(p);
        assert_eq!(g.len(), 4);
        assert!(g.iter().all(|v| *v < 0));
    }
    field.compute(&vec![group(-5, &[(0, 0)])], &vec![-1; 4], 2, 2);
    assert_eq!(field.num_players(), 0);
    assert!(field.get_player_influence(0).is_empty());
}

#[test]
fn compute_replaces_what_was_stored() {
    let mut field = InfluenceMap::new();
    field.compute(&vec![group(2, &[(0, 0)])], &vec![-1; 4], 2, 2);
    assert_eq!(field.get_player_influence(2).len(), 4);
    field.compute(&vec![group(0, &[(0, 0)])], &vec![-1; 6], 3, 2);
    assert_eq!(field.num_players(), 1);
    assert_eq!(field.get_player_influence(0).len(), 6);
    assert!(field.get_player_influence(2).is_empty());
}

#[test]
fn footprint_ends_at_the_cutoff() {
    let mut field = InfluenceMap::new();
    field.compute(&vec![group(0, &[(0, 0)])], &vec![-1; 15], 15, 1);
    let grid = field.get_player_influence(0);
    assert_eq!(grid[12], 4 * 728 * 65536);
    assert_eq!(grid[13], 0);
    assert_eq!(grid[14], 0);
}

#[test]
fn unit_off_the_map_still_reaches_it() {
    let mut field = InfluenceMap::new();
    field.compute(&vec![group(0, &[(-1, 0)])], &vec![-1; 2], 2, 1);
    let grid = field.get_player_influence(0);
    assert_eq!(grid[0], 4 * 63520 * 65536);
    assert_eq!(grid[1], 4 * 57835 * 65536);
}

#[test]
fn empty_map_has_empty_grids() {
    let mut field = InfluenceMap::new();
    field.compute(&vec![group(0, &[(0, 0)])], &vec![0, 0], 0, 0);
    assert_eq!(field.num_players(), 1);
    assert!(field.get_player_influence(0).is_empty());
}
