use perfect_dominating_posets::interval::ColoringError;
use perfect_dominating_posets::interval::Interval;
use perfect_dominating_posets::preprocessing::relations;
use perfect_dominating_posets::preprocessing::SharedSet;
use perfect_dominating_posets::preprocessing::UpDown;
use perfect_dominating_posets::preprocessing::VecInner;
use perfect_dominating_posets::resolve::UnsharedSet;
use std::collections::HashMap;

fn entry(up: Vec<VecInner>, down: Vec<VecInner>) -> UpDown {
    UpDown { upset: SharedSet(up), downset: SharedSet(down) }
}

fn link(target: u64) -> VecInner {
    VecInner::Link { target, owning: false }
}

#[test]
fn up_set_is_successors_and_their_up_sets() {
    // 1 < 2 < 4, 1 < 3 < 4, 4 < 5
    let edges: Vec<(u64, u64)> = vec![(1, 2), (1, 3), (2, 4), (3, 4), (4, 5)];
    let (map, _) = relations(&edges);
    let up = |v: u64| UnsharedSet::from_set(&map, true, &map[&v].upset).ok().unwrap().0;
    let down = |v: u64| UnsharedSet::from_set(&map, false, &map[&v].downset).ok().unwrap().0;
    assert_eq!(up(1), vec![2, 3, 4, 5]);
    assert_eq!(up(2), vec![4, 5]);
    assert_eq!(up(3), vec![4, 5]);
    assert_eq!(up(4), vec![5]);
    assert_eq!(up(5), Vec::<u64>::new());
    assert_eq!(down(5), vec![1, 2, 3, 4]);
    assert_eq!(down(4), vec![1, 2, 3]);
    assert_eq!(down(1), Vec::<u64>::new());
    // the up-set of 1 is its successors 2 and 3 with their up-sets
    let mut union: Vec<u64> = vec![2, 3];
    union.extend(up(2));
    union.extend(up(3));
    union.sort();
    union.dedup();
    assert_eq!(up(1), union);
}

#[test]
fn later_edges_reach_earlier_links() {
    // the link from 1 to the up-set of 2 is made before 2 gets its successor
    let edges: Vec<(u64, u64)> = vec![(1, 2), (2, 3)];
    let (map, _) = relations(&edges);
    let up = UnsharedSet::from_set(&map, true, &map[&1].upset).ok().unwrap();
    assert_eq!(up.0, vec![2, 3]);
}

#[test]
fn resolved_set_is_sorted_and_free_of_duplicates() {
    let mut map: HashMap<u64, UpDown> = HashMap::new();
    map.insert(1, entry(vec![VecInner::Num(9), VecInner::Num(3), VecInner::Num(9), link(2)], vec![]));
    map.insert(2, entry(vec![VecInner::Num(3), VecInner::Num(1)], vec![]));
    let up = UnsharedSet::from_set(&map, true, &map[&1].upset).ok().unwrap();
    assert_eq!(up.0, vec![1, 3, 9]);
}

#[test]
fn dangling_link_is_reported() {
    let mut map: HashMap<u64, UpDown> = HashMap::new();
    map.insert(1, entry(vec![VecInner::Num(2), link(2)], vec![]));
    assert!(matches!(
        UnsharedSet::from_set(&map, true, &map[&1].upset),
        Err(ColoringError::DanglingLink)
    ));
    assert!(UnsharedSet::from_set(&map, false, &map[&1].downset).is_ok());
    assert!(matches!(Interval::new(map), Err(ColoringError::DanglingLink)));
}

#[test]
fn dangling_owning_link_is_reported_too() {
    let mut map: HashMap<u64, UpDown> = HashMap::new();
    map.insert(7, entry(vec![], vec![VecInner::Link { target: 8, owning: true }]));
    assert!(matches!(Interval::new(map), Err(ColoringError::DanglingLink)));
}

#[test]
fn dangling_link_deep_in_a_chain_is_reported() {
    let mut map: HashMap<u64, UpDown> = HashMap::new();
    map.insert(1, entry(vec![link(2)], vec![]));
    map.insert(2, entry(vec![link(3)], vec![]));
    map.insert(3, entry(vec![link(4)], vec![]));
    assert!(matches!(
        UnsharedSet::from_set(&map, true, &map[&1].upset),
        Err(ColoringError::DanglingLink)
    ));
}

#[test]
fn dangling_link_comes_before_the_count_of_distinct_sets() {
    // the up-sets alone would fail the ranking (two distinct up-sets, one
    // distinct down-set)
    let mut map: HashMap<u64, UpDown> = HashMap::new();
    map.insert(1, entry(vec![VecInner::Num(5)], vec![]));
    map.insert(2, entry(vec![], vec![link(3)]));
    assert!(matches!(Interval::new(map), Err(ColoringError::DanglingLink)));
}

#[test]
fn links_in_a_cycle_resolve() {
    let mut map: HashMap<u64, UpDown> = HashMap::new();
    map.insert(1, entry(vec![VecInner::Num(10), link(2)], vec![]));
    map.insert(2, entry(vec![VecInner::Num(20), link(3)], vec![]));
    map.insert(3, entry(vec![VecInner::Num(30), link(1), link(3)], vec![]));
    for v in [1u64, 2, 3] {
        let up = UnsharedSet::from_set(&map, true, &map[&v].upset).ok().unwrap();
        assert_eq!(up.0, vec![10, 20, 30]);
    }
}

#[test]
fn set_outside_the_store_resolves_against_the_store() {
    let edges: Vec<(u64, u64)> = vec![(1, 2), (2, 3)];
    let (map, _) = relations(&edges);
    let set = SharedSet(vec![VecInner::Num(40), link(2)]);
    let up = UnsharedSet::from_set(&map, true, &set).ok().unwrap();
    assert_eq!(up.0, vec![3, 40]);
    let down = UnsharedSet::from_set(&map, false, &set).ok().unwrap();
    assert_eq!(down.0, vec![1, 40]);
}

#[test]
fn inner_takes_members_in_and_defers_links() {
    let mut new_set: Vec<u64> = vec![2, 8];
    let mut pending: Vec<u64> = vec![];
    UnsharedSet::inner(&mut new_set, &mut pending, &VecInner::Num(5));
    UnsharedSet::inner(&mut new_set, &mut pending, &VecInner::Num(8));
    UnsharedSet::inner(&mut new_set, &mut pending, &link(3));
    assert_eq!(new_set, vec![2, 5, 8]);
    assert_eq!(pending, vec![3]);
}
