use hexgrid::coords::OffsetCoord;
use hexgrid::costs::key_set;
use hexgrid::open_list::{Node, OpenList};

fn node(tag: i32, f: u128) -> Node {
    Node { pos: OffsetCoord::new(tag, 0), g: tag as u64, f }
}

#[test]
fn entries_leave_least_first() {
    let mut list = OpenList::new();
    assert_eq!(list.len(), 0);
    let values: [u128; 12] = [50, 7, 7, 93, 1, 28, 64, 3, 3, 3, 100, 0];
    for (i, f) in values.iter().enumerate() {
        list.push(node(i as i32, *f));
        assert_eq!(list.len(), i + 1);
    }
    let mut sorted = values.to_vec();
    sorted.sort();
    let mut tags = Vec::new();
    for f in sorted {
        let e = list.pop_min();
        assert_eq!(e.f, f);
        assert_eq!(values[e.pos.col as usize], f);
        assert_eq!(e.g, e.pos.col as u64);
        tags.push(e.pos.col);
    }
    assert_eq!(list.len(), 0);
    tags.sort();
    assert_eq!(tags, (0..12).collect::<Vec<i32>>());
}

#[test]
fn pushes_and_pops_interleave() {
    let mut list = OpenList::new();
    let mut state: u64 = 99;
    let mut held: Vec<u128> = Vec::new();
    for round in 0..500 {
        state = state.wrapping_mul(6364136223846793005).wrapping_add(1442695040888963407);
        let v = (state >> 40) as u128 % 1000;
        if round % 3 == 2 && !held.is_empty() {
            let e = list.pop_min();
            let least = *held.iter().min().unwrap();
            assert_eq!(e.f, least);
            let at = held.iter().position(|x| *x == least).unwrap();
            held.remove(at);
        } else {
            list.push(node(round, v));
            held.push(v);
        }
        assert_eq!(list.len(), held.len());
    }
}

#[test]
fn key_set_holds_the_keys_of_the_tiles() {
    let tiles = vec![OffsetCoord::new(1, 2), OffsetCoord::new(-3, 4), OffsetCoord::new(1, 2)];
    let set = key_set(&tiles);
    assert_eq!(set.len(), 2);
    assert!(set.contains(&OffsetCoord::new(1, 2).key()));
    assert!(set.contains(&OffsetCoord::new(-3, 4).key()));
    assert!(!set.contains(&OffsetCoord::new(2, 1).key()));
    assert!(key_set(&Vec::new()).is_empty());
}
