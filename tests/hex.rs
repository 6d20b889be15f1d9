use std::collections::HashSet;
use hive::hex::{origin, Hex};

fn assert_set_equality(got: Vec<Hex>, expected: Vec<Hex>) {
    let got_set: HashSet<Hex> = got.iter().cloned().collect();
    let expected_set: HashSet<Hex> = expected.iter().cloned().collect();
    assert_eq!(got_set, expected_set);
}

#[test]
fn hex_test_neighbors() {
    assert_set_equality(origin().neighbors(), vec![
        Hex::new(1, -1, 0), Hex::new(1, 0, -1), Hex::new(0, 1, -1),
        Hex::new(-1, 1, 0), Hex::new(-1, 0, 1), Hex::new(0, -1, 1),
    ]);
}

#[test]
fn hex_test_dist() {
    for neighbor in origin().neighbors() {
        assert_eq!(origin().dist(neighbor), 1);
    }

    let mut inner_ring = origin().neighbors();
    inner_ring.push(origin());
    for neighbor in Hex::get_empty_neighbors(&inner_ring) {
        assert_eq!(origin().dist(neighbor), 2);
    }
}

#[test]
fn hex_test_get_empty_neighbors() {
    let hexes = vec![origin(), Hex::new(-1, 1, 0)];
    assert_set_equality(Hex::get_empty_neighbors(&hexes), vec![
        Hex::new(1, -1, 0), Hex::new(1, 0, -1), Hex::new(0, 1, -1), Hex::new(0, -1, 1), Hex::new(-1, 0, 1),
        Hex::new(-2, 1, 1), Hex::new(-2, 2, 0), Hex::new(-1, 2, -1),
    ]);
}

#[test]
fn hex_test_all_contiguous() {
    let o = origin();
    // positive cases
    assert!(Hex::all_contiguous(&vec![o]));
    assert!(Hex::all_contiguous(&vec![o, o.e()]));

    // negative cases
    assert!(!Hex::all_contiguous(&vec![]));
    assert!(!Hex::all_contiguous(&vec![o, o.e().e()]));
    assert!(!Hex::all_contiguous(&vec![o, o.w(), o.e().e()]));
}

#[test]
fn hex_test_pathfinding() {
    let o = origin();
    let map = vec![
        o,
        o.e(), o.e().se(), o.e().ne(),
        o.w(), o.w().nw(), o.w().nw().nw(),
    ];
    let barriers = vec![
        o.ne(), o.e().e(), o.nw(), o.nw().nw(), o.ne().ne(),
        o.e().e().ne(), o.e().e().se(),
    ];
    assert_set_equality(o.pathfind(&map, &barriers, Some(0)), vec![o]);
    assert_set_equality(o.pathfind(&map, &barriers, Some(1)), vec![
        o.e(), o.w()
    ]);
    assert_set_equality(o.pathfind(&map, &barriers, Some(2)), vec![
        o.e().se(), o.w().nw(),
    ]);
    assert_set_equality(o.pathfind(&map, &barriers, None), vec![
        o.e(), o.e().se(),
        o.w(), o.w().nw(), o.w().nw().nw(),
    ]);
}

#[test]
fn hex_test_pathfinding_multiple_paths() {
    let o = origin();
    let barriers = vec![];
    let map = vec![o, o.nw(), o.w(), o.w().w(), o.nw().ne()];
    assert_set_equality(o.pathfind(&map, &barriers, Some(2)), vec![
        o.nw(), o.w(), o.w().w(), o.nw().ne()
    ]);
}

#[test]
fn hex_test_get_pincers() {
    let o = origin();
    assert_eq!(o.get_pincers(o), None);
    let p = o.get_pincers(o.e());
    assert!(p == Some((o.se(), o.ne())) || p == Some((o.ne(), o.se())));
    let p = o.get_pincers(o.nw());
    assert!(p == Some((o.w(), o.ne())) || p == Some((o.ne(), o.w())));
}

#[test]
fn empty_neighbors_are_listed_once() {
    let hexes = vec![origin(), origin().e()];
    let got = Hex::get_empty_neighbors(&hexes);
    let unique: HashSet<Hex> = got.iter().cloned().collect();
    assert_eq!(unique.len(), got.len());
    assert_eq!(got.len(), 8);
}

#[test]
fn contiguity_ignores_repeated_hexes() {
    assert!(Hex::all_contiguous(&vec![origin(), origin()]));
}

#[test]
fn hex_arithmetic_and_adjacency() {
    let a = Hex::new(2, -1, -1);
    let b = Hex::new(-1, 3, -2);
    assert_eq!(a.add(b), Hex::new(1, 2, -3));
    assert_eq!(a.sub(b), Hex::new(3, -4, 1));
    assert_eq!(a.dist(b), 4);
    assert!(origin().is_adj(origin().sw()));
    assert!(!origin().is_adj(origin()));
    assert!(!origin().is_adj(origin().e().e()));
}
