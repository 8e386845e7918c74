use hexgrid::combat::{CombatQuery, Point};

fn pts(list: &[(i32, i32)]) -> Vec<Point> {
    list.iter().map(|p| Point { x: p.0, y: p.1 }).collect()
}

#[test]
fn opposing_units_in_range_are_listed_both_ways() {
    let r = CombatQuery.find_targets_in_range(&pts(&[(0, 0), (3, 4)]), &vec![0, 1], 5);
    assert_eq!(r, vec![0, 1, 1, 0]);
}

#[test]
fn range_is_inclusive_and_exact() {
    let p = pts(&[(0, 0), (3, 4)]);
    assert!(CombatQuery.find_targets_in_range(&p, &vec![0, 1], 4).is_empty());
    assert_eq!(CombatQuery.find_targets_in_range(&p, &vec![0, 1], 5).len(), 4);
    assert_eq!(CombatQuery.find_targets_in_range(&p, &vec![0, 1], -5).len(), 4);
}

#[test]
fn same_owner_is_never_a_target() {
    let r = CombatQuery.find_targets_in_range(&pts(&[(0, 0), (1, 0), (0, 1)]), &vec![7, 7, 7], 100);
    assert!(r.is_empty());
}

#[test]
fn pairs_come_by_attacker_then_target() {
    let p = pts(&[(0, 0), (1, 0), (2, 0), (50, 50)]);
    let r = CombatQuery.find_targets_in_range(&p, &vec![0, 1, 0, 1], 1);
    assert_eq!(r, vec![0, 1, 1, 0, 1, 2, 2, 1]);
}

#[test]
fn zero_radius_matches_only_overlapping_opponents() {
    let p = pts(&[(5, 5), (5, 5), (5, 6), (5, 5)]);
    let r = CombatQuery.find_targets_in_range(&p, &vec![0, 1, 1, 0], 0);
    assert_eq!(r, vec![0, 1, 1, 0, 1, 3, 3, 1]);
    let apart = pts(&[(0, 0), (0, 1), (1, 0)]);
    assert!(CombatQuery.find_targets_in_range(&apart, &vec![0, 1, 2], 0).is_empty());
}

#[test]
fn shorter_list_limits_the_units() {
    let p = pts(&[(0, 0), (1, 0), (2, 0)]);
    let r = CombatQuery.find_targets_in_range(&p, &vec![0, 1], 10);
    assert_eq!(r, vec![0, 1, 1, 0]);
    let r = CombatQuery.find_targets_in_range(&pts(&[(0, 0)]), &vec![0, 1, 2], 10);
    assert!(r.is_empty());
}

#[test]
fn widest_coordinates_do_not_overflow() {
    let p = pts(&[(i32::MIN, i32::MIN), (i32::MAX, i32::MAX)]);
    assert!(CombatQuery.find_targets_in_range(&p, &vec![0, 1], i32::MAX).is_empty());
    let q = pts(&[(i32::MIN, 0), (-1, 0)]);
    assert_eq!(CombatQuery.find_targets_in_range(&q, &vec![0, 1], i32::MAX), vec![0, 1, 1, 0]);
}

#[test]
fn a_pair_appears_exactly_when_owners_differ_and_distance_fits() {
    let p = pts(&[(0, 0), (2, 1), (-3, 2), (4, 4), (1, -1), (0, 0)]);
    let owners = vec![0, 1, 2, 0, 1, 2];
    let radius = 3;
    let r = CombatQuery.find_targets_in_range(&p, &owners, radius);
    assert_eq!(r.len() % 2, 0);
    for i in 0..p.len() {
        for j in 0..p.len() {
            let dx = (p[i].x - p[j].x) as i64;
            let dy = (p[i].y - p[j].y) as i64;
            let expected = i != j && owners[i] != owners[j] && dx * dx + dy * dy <= 9;
            let listed = r.chunks(2).filter(|c| c[0] == i && c[1] == j).count();
            assert_eq!(listed, if expected { 1 } else { 0 });
        }
    }
}
