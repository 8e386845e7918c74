use hexgrid::coords::{HexMath, OffsetCoord};
use hexgrid::costs::{CostMap, DEFAULT_COST};

fn at(col: i32, row: i32) -> OffsetCoord {
    OffsetCoord::new(col, row)
}

fn path_cost(path: &Vec<OffsetCoord>, costs: &CostMap) -> u64 {
    let mut total: u64 = 0;
    for p in path.iter().skip(1) {
        total += costs.get(*p) as u64;
    }
    total
}

fn assert_walkable(path: &Vec<OffsetCoord>, from: OffsetCoord, to: OffsetCoord, blocked: &Vec<OffsetCoord>, max_distance: i32) {
    assert_eq!(path[0], from);
    assert_eq!(path[path.len() - 1], to);
    for i in 1..path.len() {
        assert_eq!(HexMath::hex_distance(path[i - 1], path[i]), 1);
        assert!(!blocked.contains(&path[i]));
        assert!(HexMath::hex_distance(from, path[i]) <= max_distance as i64);
    }
}

#[test]
fn blocked_goal_gives_no_path() {
    let blocked = vec![at(2, 0)];
    let path = HexMath::find_path(at(0, 0), at(2, 0), &blocked, &CostMap::new(), 10);
    assert!(path.is_empty());
}

#[test]
fn blocked_goal_gives_no_path_even_at_the_start() {
    let blocked = vec![at(0, 0)];
    let path = HexMath::find_path(at(0, 0), at(0, 0), &blocked, &CostMap::new(), 10);
    assert!(path.is_empty());
}

#[test]
fn path_to_itself_is_the_single_tile() {
    for d in [-1, 0, 5] {
        let path = HexMath::find_path(at(3, -2), at(3, -2), &Vec::new(), &CostMap::new(), d);
        assert_eq!(path, vec![at(3, -2)]);
    }
}

#[test]
fn open_ground_path_has_distance_plus_one_tiles() {
    let blocked = Vec::new();
    let costs = CostMap::new();
    for (c, r) in [(3, 0), (3, 3), (-2, 4), (0, -5), (-4, -1)] {
        let path = HexMath::find_path(at(0, 0), at(c, r), &blocked, &costs, 20);
        let d = HexMath::hex_distance(at(0, 0), at(c, r));
        assert_eq!(path.len() as i64, d + 1);
        assert_walkable(&path, at(0, 0), at(c, r), &blocked, 20);
        assert_eq!(path_cost(&path, &costs), d as u64 * DEFAULT_COST as u64);
    }
}

#[test]
fn path_avoids_the_expensive_tile() {
    let mut costs = CostMap::new();
    costs.insert(at(1, 0), 5000);
    let path = HexMath::find_path(at(0, 0), at(2, 0), &Vec::new(), &costs, 10);
    assert_eq!(path, vec![at(0, 0), at(1, -1), at(2, 0)]);
}

#[test]
fn path_takes_the_expensive_tile_when_the_detour_costs_more() {
    let mut costs = CostMap::new();
    costs.insert(at(1, 0), 1500);
    costs.insert(at(1, -1), 1600);
    let path = HexMath::find_path(at(0, 0), at(2, 0), &Vec::new(), &costs, 10);
    assert_eq!(path, vec![at(0, 0), at(1, 0), at(2, 0)]);
    assert_eq!(path_cost(&path, &costs), 2500);
}

#[test]
fn path_goes_around_a_blocked_tile() {
    let blocked = vec![at(1, 0), at(1, -1)];
    let costs = CostMap::new();
    let path = HexMath::find_path(at(0, 0), at(2, 0), &blocked, &costs, 10);
    assert_eq!(path.len(), 5);
    assert_walkable(&path, at(0, 0), at(2, 0), &blocked, 10);
}

#[test]
fn enclosed_goal_gives_no_path() {
    let goal = at(5, 5);
    let blocked = HexMath::hex_neighbors(goal);
    let path = HexMath::find_path(at(0, 0), goal, &blocked, &CostMap::new(), 12);
    assert!(path.is_empty());
}

#[test]
fn goal_beyond_the_radius_gives_no_path() {
    let path = HexMath::find_path(at(0, 0), at(3, 0), &Vec::new(), &CostMap::new(), 2);
    assert!(path.is_empty());
    let path = HexMath::find_path(at(0, 0), at(3, 0), &Vec::new(), &CostMap::new(), 3);
    assert_eq!(path.len(), 4);
}

#[test]
fn radius_is_measured_from_the_start_not_along_the_path() {
    // A wall forces a detour of more steps than the radius; every tile of it
    // stays within the radius of the start.
    let blocked = vec![at(1, 0), at(1, -1), at(1, 1), at(1, -2)];
    let costs = CostMap::new();
    let path = HexMath::find_path(at(0, 0), at(2, 0), &blocked, &costs, 3);
    assert!(path.len() > 4);
    assert_walkable(&path, at(0, 0), at(2, 0), &blocked, 3);
}

#[test]
fn negative_radius_reaches_only_the_start() {
    let path = HexMath::find_path(at(0, 0), at(1, 0), &Vec::new(), &CostMap::new(), -1);
    assert!(path.is_empty());
}

#[test]
fn cheapest_path_wins_over_shortest() {
    // Straight row of costly tiles between start and goal; the cheap way
    // round is longer in steps.
    let mut costs = CostMap::new();
    costs.insert(at(0, 1), 9000);
    costs.insert(at(0, 2), 9000);
    let blocked = Vec::new();
    let path = HexMath::find_path(at(0, 0), at(0, 3), &blocked, &costs, 10);
    assert_walkable(&path, at(0, 0), at(0, 3), &blocked, 10);
    assert_eq!(path_cost(&path, &costs), 4000);
    assert_eq!(path.len(), 5);
}

#[test]
fn path_near_the_edge_of_the_coordinate_range() {
    let from = at(i32::MAX, i32::MAX);
    let to = at(i32::MAX - 2, i32::MAX);
    let blocked = Vec::new();
    let path = HexMath::find_path(from, to, &blocked, &CostMap::new(), 4);
    assert_eq!(path.len(), 3);
    assert_walkable(&path, from, to, &blocked, 4);
}

#[test]
fn cost_map_defaults_and_overrides() {
    let mut costs = CostMap::new();
    assert_eq!(costs.get(at(0, 0)), DEFAULT_COST);
    costs.insert(at(0, 0), 1);
    costs.insert(at(-7, 9), 250);
    assert_eq!(costs.get(at(0, 0)), 1);
    assert_eq!(costs.get(at(-7, 9)), 250);
    assert_eq!(costs.get(at(9, -7)), 1000);
    costs.insert(at(0, 0), 77);
    assert_eq!(costs.get(at(0, 0)), 77);
}

struct Lcg(u64);

impl Lcg {
    fn next(&mut self, bound: u64) -> u64 {
        self.0 = self.0.wrapping_mul(6364136223846793005).wrapping_add(1442695040888963407);
        (self.0 >> 33) % bound
    }
}

/// Cheapest cost from `from` to every tile by repeated relaxation, over the
/// tiles within `radius` that are not blocked.
fn cheapest_costs(
    from: OffsetCoord,
    blocked: &Vec<OffsetCoord>,
    costs: &CostMap,
    radius: i32,
) -> Vec<(OffsetCoord, u64)> {
    let mut best: Vec<(OffsetCoord, u64)> = vec![(from, 0)];
    loop {
        let mut changed = false;
        let mut i = 0;
        while i < best.len() {
            let (p, g) = best[i];
            for n in HexMath::hex_neighbors(p) {
                if blocked.contains(&n) || HexMath::hex_distance(from, n) > radius as i64 {
                    continue;
                }
                let cand = g + costs.get(n) as u64;
                match best.iter().position(|e| e.0 == n) {
                    Some(k) => {
                        if cand < best[k].1 {
                            best[k].1 = cand;
                            changed = true;
                        }
                    }
                    None => {
                        best.push((n, cand));
                        changed = true;
                    }
                }
            }
            i += 1;
        }
        if !changed {
            return best;
        }
    }
}

#[test]
fn found_paths_are_cheapest_on_random_maps() {
    let mut rng = Lcg(2024);
    for _ in 0..60 {
        let radius = 2 + rng.next(3) as i32;
        let from = at(rng.next(7) as i32 - 3, rng.next(7) as i32 - 3);
        let to = at(from.col + rng.next(9) as i32 - 4, from.row + rng.next(9) as i32 - 4);
        let mut blocked = Vec::new();
        let mut costs = CostMap::new();
        for col in from.col - 5..from.col + 6 {
            for row in from.row - 5..from.row + 6 {
                match rng.next(6) {
                    0 => blocked.push(at(col, row)),
                    1 => costs.insert(at(col, row), 1000 + rng.next(4000) as u32),
                    2 => costs.insert(at(col, row), 1000),
                    _ => {}
                }
            }
        }
        let path = HexMath::find_path(from, to, &blocked, &costs, radius);
        let best = cheapest_costs(from, &blocked, &costs, radius);
        let expected = if blocked.contains(&to) {
            None
        } else {
            best.iter().find(|e| e.0 == to).map(|e| e.1)
        };
        match expected {
            None => assert!(path.is_empty()),
            Some(cost) => {
                assert!(!path.is_empty());
                assert_walkable(&path, from, to, &blocked, radius);
                assert_eq!(path_cost(&path, &costs), cost);
            }
        }
    }
}

#[test]
fn tiles_cheaper_than_a_default_step_can_hide_a_cheaper_detour() {
    // The estimate counts every step left as a default step. With cheaper
    // tiles it overestimates, and the goal is taken from the open list before
    // the detour over the cheap tiles has been looked at.
    let mut costs = CostMap::new();
    costs.insert(at(0, 1), 1);
    costs.insert(at(1, 1), 1);
    costs.insert(at(2, 1), 1);
    let blocked = Vec::new();
    let path = HexMath::find_path(at(0, 0), at(2, 0), &blocked, &costs, 10);
    assert_walkable(&path, at(0, 0), at(2, 0), &blocked, 10);
    assert_eq!(path_cost(&path, &costs), 2000);
    let detour = vec![at(0, 0), at(0, 1), at(1, 1), at(2, 1), at(2, 0)];
    assert_walkable(&detour, at(0, 0), at(2, 0), &blocked, 10);
    assert_eq!(path_cost(&detour, &costs), 1003);
}
