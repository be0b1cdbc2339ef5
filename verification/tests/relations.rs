use perfect_dominating_posets::preprocessing::add_to_toplist;
use perfect_dominating_posets::preprocessing::add_to_updown;
use perfect_dominating_posets::preprocessing::add_to_updown2nd;
use perfect_dominating_posets::preprocessing::parse_buff;
use perfect_dominating_posets::preprocessing::relations;
use perfect_dominating_posets::preprocessing::EdgeLike;
use perfect_dominating_posets::preprocessing::GraphConvertable;
use perfect_dominating_posets::preprocessing::UpDown;
use perfect_dominating_posets::preprocessing::VecInner;
use std::collections::HashMap;
use std::collections::HashSet;

fn weak(target: u64) -> VecInner {
    VecInner::Link { target, owning: false }
}

fn strong(target: u64) -> VecInner {
    VecInner::Link { target, owning: true }
}

#[test]
fn every_edge_makes_its_ends_mutually_adjacent() {
    let edges: Vec<(u64, u64)> = vec![(1, 2), (1, 3), (2, 4), (3, 4), (9, 4), (4, 9)];
    let (_, topology) = relations(&edges);
    for (a, b) in &edges {
        assert!(topology[a].contains(b));
        assert!(topology[b].contains(a));
    }
    assert_eq!(topology.len(), 5);
    let four: HashSet<u64> = [2u64, 3, 9].into_iter().collect();
    assert_eq!(topology[&4], four);
}

#[test]
fn linked_sets_hold_each_neighbour_and_a_link_in_edge_order() {
    let edges: Vec<(u64, u64)> = vec![(1, 2), (2, 3), (1, 3)];
    let (map, _) = relations(&edges);
    assert_eq!(map.len(), 3);
    assert_eq!(map[&1].upset.0, vec![VecInner::Num(2), weak(2), VecInner::Num(3), weak(3)]);
    assert_eq!(map[&1].downset.0, Vec::<VecInner>::new());
    assert_eq!(map[&2].upset.0, vec![VecInner::Num(3), weak(3)]);
    assert_eq!(map[&2].downset.0, vec![VecInner::Num(1), strong(1)]);
    assert_eq!(map[&3].upset.0, Vec::<VecInner>::new());
    assert_eq!(
        map[&3].downset.0,
        vec![VecInner::Num(2), strong(2), VecInner::Num(1), strong(1)]
    );
}

#[test]
fn repeated_edge_is_entered_again_in_the_linked_sets_but_not_in_the_topology() {
    let edges: Vec<(u64, u64)> = vec![(5, 6), (5, 6)];
    let (map, topology) = relations(&edges);
    assert_eq!(map[&5].upset.0, vec![VecInner::Num(6), weak(6), VecInner::Num(6), weak(6)]);
    assert_eq!(topology[&5].len(), 1);
    assert_eq!(topology[&6].len(), 1);
}

#[test]
fn add_to_toplist_creates_and_extends_entries() {
    let mut topology: HashMap<u64, HashSet<u64>> = HashMap::new();
    add_to_toplist(&mut topology, 1, 2);
    add_to_toplist(&mut topology, 1, 3);
    add_to_toplist(&mut topology, 1, 2);
    let expected: HashSet<u64> = [2u64, 3].into_iter().collect();
    assert_eq!(topology.len(), 1);
    assert_eq!(topology[&1], expected);
}

#[test]
fn add_to_updown_pushes_onto_the_up_set() {
    let mut map: HashMap<u64, UpDown> = HashMap::new();
    add_to_updown(&mut map, 1, 2);
    assert_eq!(map[&1].upset.0, vec![VecInner::Num(2)]);
    assert!(map[&1].downset.0.is_empty());
    add_to_updown(&mut map, 1, 7);
    assert_eq!(map[&1].upset.0, vec![VecInner::Num(2), VecInner::Num(7)]);
    assert_eq!(map.len(), 1);
}

#[test]
fn add_to_updown2nd_pushes_member_and_owning_link_onto_the_down_set() {
    let mut map: HashMap<u64, UpDown> = HashMap::new();
    add_to_updown(&mut map, 1, 2);
    add_to_updown2nd(&mut map, 1, 2);
    assert_eq!(map.len(), 2);
    assert_eq!(map[&2].downset.0, vec![VecInner::Num(1), strong(1)]);
    assert!(map[&2].upset.0.is_empty());
    assert_eq!(map[&1].upset.0, vec![VecInner::Num(2)]);
}

struct Pairs(Vec<Pair>);

#[derive(Clone)]
struct Pair(u64, u64);

impl EdgeLike for Pair {
    fn split_edge(&self) -> (u64, u64) {
        (self.0, self.1)
    }
}

impl GraphConvertable<Pair> for Pairs {
    fn split(&self) -> Vec<Pair> {
        self.0.clone()
    }
}

#[test]
fn parse_buff_builds_from_any_edge_source() {
    let (map, topology) = parse_buff(Pairs(vec![Pair(1, 2), Pair(2, 3)]));
    let (same_map, same_topology) = relations(&vec![(1, 2), (2, 3)]);
    assert_eq!(topology, same_topology);
    assert_eq!(map.len(), same_map.len());
    for (k, v) in &map {
        assert_eq!(v.upset.0, same_map[k].upset.0);
        assert_eq!(v.downset.0, same_map[k].downset.0);
    }
}

#[test]
fn parse_buff_takes_a_vector_of_pairs() {
    let edges: Vec<(u64, u64)> = vec![(3, 1), (1, 2)];
    let (map, topology) = parse_buff(edges);
    assert_eq!(map[&3].upset.0, vec![VecInner::Num(1), weak(1)]);
    assert_eq!(map[&1].downset.0, vec![VecInner::Num(3), strong(3)]);
    assert_eq!(topology[&1].len(), 2);
}
