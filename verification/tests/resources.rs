use hexgrid::resources::{yield_of, ResourceCounter, ResourceTotals};

fn totals(food: u64, production: u64, gold: u64) -> ResourceTotals {
    ResourceTotals { food, production, gold }
}

#[test]
fn yield_table() {
    assert_eq!(yield_of(0), totals(1, 1, 0));
    assert_eq!(yield_of(1), totals(0, 2, 0));
    assert_eq!(yield_of(2), totals(0, 3, 1));
    assert_eq!(yield_of(3), totals(0, 0, 2));
    assert_eq!(yield_of(4), totals(1, 0, 1));
    assert_eq!(yield_of(5), totals(3, 1, 0));
    assert_eq!(yield_of(6), totals(0, 0, 0));
    assert_eq!(yield_of(-1), totals(0, 0, 0));
}

#[test]
fn totals_by_player() {
    let types = vec![0, 1, 2, 3, 4, 5, 0, 9];
    let owners = vec![0, 0, 1, 1, 0, 1, -1, 0];
    let t = ResourceCounter.compute_resources(&types, &owners, 2);
    assert_eq!(t, vec![totals(2, 3, 1), totals(3, 4, 3)]);
}

#[test]
fn players_without_tiles_are_listed_with_zero() {
    let t = ResourceCounter.compute_resources(&vec![5, 5], &vec![2, 2], 4);
    assert_eq!(t, vec![totals(0, 0, 0), totals(0, 0, 0), totals(6, 2, 0), totals(0, 0, 0)]);
}

#[test]
fn owners_outside_the_players_are_not_counted() {
    let t = ResourceCounter.compute_resources(&vec![0, 0, 0, 0], &vec![-1, 2, 7, 1], 2);
    assert_eq!(t, vec![totals(0, 0, 0), totals(1, 1, 0)]);
}

#[test]
fn shorter_grid_limits_the_count() {
    let t = ResourceCounter.compute_resources(&vec![2, 2, 2], &vec![0], 1);
    assert_eq!(t, vec![totals(0, 3, 1)]);
    let t = ResourceCounter.compute_resources(&vec![2], &vec![0, 0, 0], 1);
    assert_eq!(t, vec![totals(0, 3, 1)]);
    let t = ResourceCounter.compute_resources(&Vec::new(), &vec![0, 0, 0], 1);
    assert_eq!(t, vec![totals(0, 0, 0)]);
}

#[test]
fn no_players_no_totals() {
    assert!(ResourceCounter.compute_resources(&vec![0], &vec![0], 0).is_empty());
    assert!(ResourceCounter.compute_resources(&vec![0], &vec![0], -3).is_empty());
}

#[test]
fn all_totals_together_are_the_yields_of_owned_tiles() {
    let types = vec![0, 1, 2, 3, 4, 5, 6, 0, 1, 2, 3, 4, 5];
    let owners = vec![0, 1, 2, 3, -1, 0, 1, 5, 2, 2, 0, 1, 3];
    let np = 3;
    let t = ResourceCounter.compute_resources(&types, &owners, np);
    let mut sum = 0;
    for p in &t {
        sum += p.food + p.production + p.gold;
    }
    let mut expected = 0;
    for i in 0..types.len() {
        if owners[i] >= 0 && owners[i] < np {
            let y = yield_of(types[i]);
            expected += y.food + y.production + y.gold;
        }
    }
    assert_eq!(sum, expected);
    assert_eq!(sum, 22);
}
