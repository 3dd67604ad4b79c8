use std::collections::HashMap;

use pathfinding::Frontier;
use pathfinding::InvCmpHolder;
use pathfinding::reverse_path;

#[test]
fn holder_ordering_is_reversed() {
    let small = InvCmpHolder { key: 1u64, payload: () };
    let large = InvCmpHolder { key: 2u64, payload: () };
    assert!(small > large);
    assert!(large < small);
    assert!(!(small < large));
}

#[test]
fn holder_equality_ignores_payload() {
    let a = InvCmpHolder { key: 3u64, payload: 1usize };
    let b = InvCmpHolder { key: 3u64, payload: 9usize };
    assert!(a == b);
    let c = InvCmpHolder { key: 4u64, payload: 1usize };
    assert!(a != c);
}

#[test]
fn frontier_pops_least_key_first() {
    let mut f = Frontier::new();
    f.push(InvCmpHolder { key: 5, payload: 10usize });
    f.push(InvCmpHolder { key: 3, payload: 11usize });
    f.push(InvCmpHolder { key: 7, payload: 12usize });
    let first = f.pop_max().unwrap();
    assert_eq!(first.key, 3);
    assert_eq!(first.payload, 11);
    assert_eq!(f.pop_max().unwrap().key, 5);
    assert_eq!(f.pop_max().unwrap().key, 7);
    assert!(f.pop_max().is_none());
}

#[test]
fn reverse_path_rebuilds_chain() {
    let mut parents: HashMap<usize, usize> = HashMap::new();
    parents.insert(1, 0);
    parents.insert(2, 1);
    assert_eq!(reverse_path(parents, 2), vec![0, 1, 2]);
}

#[test]
fn reverse_path_without_parent_is_singleton() {
    let parents: HashMap<usize, usize> = HashMap::new();
    assert_eq!(reverse_path(parents, 7), vec![7]);
}

#[test]
fn reverse_path_ignores_entries_off_the_chain() {
    let mut parents: HashMap<usize, usize> = HashMap::new();
    parents.insert(1, 0);
    parents.insert(9, 4);
    assert_eq!(reverse_path(parents, 1), vec![0, 1]);
}
