use perfect_dominating_posets::interval::ColoringError;
use perfect_dominating_posets::interval::Interval;
use perfect_dominating_posets::preprocessing::relations;
use perfect_dominating_posets::solve::dominating_set;
use std::collections::HashMap;
use std::collections::HashSet;

fn set_of(items: &[u64]) -> HashSet<u64> {
    items.iter().copied().collect()
}

#[test]
fn single_edge_has_symmetric_topology_and_an_even_chain() {
    let edges: Vec<(u64, u64)> = vec![(1, 2)];
    let (map, topology) = relations(&edges);
    let mut expected: HashMap<u64, HashSet<u64>> = HashMap::new();
    expected.insert(1, set_of(&[2]));
    expected.insert(2, set_of(&[1]));
    assert_eq!(topology, expected);
    assert_eq!(map.len(), 2);

    let interval = match Interval::new(map) {
        Ok(interval) => interval,
        Err(e) => panic!("ranking failed: {:?}", e),
    };
    let coloring = interval.color();
    assert_eq!(coloring.len(), 1);
    assert_eq!(coloring.get(&0), Some(&set_of(&[1, 2])));
    assert_eq!(
        interval.find_dominating_set(topology),
        Err(ColoringError::OutsideAlgoScope)
    );
    assert_eq!(dominating_set(&edges), Err(ColoringError::OutsideAlgoScope));
}

#[test]
fn two_plus_two_with_pivot_fails_at_ranking() {
    // 1 < 2, 1 < 4, 3 < 4, 3 < 5: the chains 1 < 2 and 3 < 5 are unrelated.
    // Up-sets {2,4}, {4,5}, {} (three); down-sets {}, {1}, {1,3}, {3} (four).
    let edges: Vec<(u64, u64)> = vec![(1, 2), (1, 4), (3, 4), (3, 5)];
    let (map, _) = relations(&edges);
    assert!(matches!(
        Interval::new(map),
        Err(ColoringError::TwoPlusTwoFound)
    ));
    assert_eq!(dominating_set(&edges), Err(ColoringError::TwoPlusTwoFound));
}

#[test]
fn two_disjoint_edges_pass_ranking_and_fail_on_even_chains() {
    // Three distinct up-sets and three distinct down-sets: the counts agree.
    let edges: Vec<(u64, u64)> = vec![(1, 2), (3, 4)];
    let (map, _) = relations(&edges);
    let interval = match Interval::new(map) {
        Ok(interval) => interval,
        Err(e) => panic!("ranking failed: {:?}", e),
    };
    let coloring = interval.color();
    assert_eq!(coloring.len(), 2);
    assert_eq!(coloring.get(&0), Some(&set_of(&[1, 2])));
    assert_eq!(coloring.get(&1), Some(&set_of(&[3, 4])));
    assert_eq!(dominating_set(&edges), Err(ColoringError::OutsideAlgoScope));
}

#[test]
fn chain_of_three_is_one_class_dominated_by_its_middle() {
    let edges: Vec<(u64, u64)> = vec![(1, 2), (2, 3)];
    let (map, topology) = relations(&edges);
    let interval = match Interval::new(map) {
        Ok(interval) => interval,
        Err(e) => panic!("ranking failed: {:?}", e),
    };
    let coloring = interval.color();
    assert_eq!(coloring.len(), 1);
    assert_eq!(coloring.get(&0), Some(&set_of(&[1, 2, 3])));

    let chosen = interval.find_dominating_set(topology.clone()).unwrap();
    assert_eq!(chosen, vec![2]);
    // the closed second neighbourhood of the chosen element covers all three
    let mut covered: HashSet<u64> = HashSet::new();
    covered.insert(2);
    for n in &topology[&2] {
        covered.insert(*n);
        for far in &topology[n] {
            covered.insert(*far);
        }
    }
    assert_eq!(covered, set_of(&[1, 2, 3]));
    assert_eq!(dominating_set(&edges), Ok(vec![2]));
}

#[test]
fn chain_of_five_needs_a_second_pass() {
    let edges: Vec<(u64, u64)> = vec![(1, 2), (2, 3), (3, 4), (4, 5)];
    assert_eq!(dominating_set(&edges), Ok(vec![2, 5]));
}

#[test]
fn diamond_is_dominated_by_its_bottom() {
    let edges: Vec<(u64, u64)> = vec![(1, 2), (1, 3), (2, 4), (3, 4)];
    assert_eq!(dominating_set(&edges), Ok(vec![1]));
}

#[test]
fn several_classes_take_turns_largest_first() {
    let edges: Vec<(u64, u64)> = vec![(1, 2), (1, 3), (1, 4), (2, 6), (5, 6)];
    let (map, topology) = relations(&edges);
    let interval = Interval::new(map).ok().unwrap();
    let coloring = interval.color();
    assert_eq!(coloring.len(), 4);
    assert_eq!(coloring.get(&0), Some(&set_of(&[1, 2, 6])));
    assert_eq!(coloring.get(&1), Some(&set_of(&[5])));
    assert_eq!(coloring.get(&2), Some(&set_of(&[3])));
    assert_eq!(coloring.get(&3), Some(&set_of(&[4])));
    assert_eq!(interval.find_dominating_set(topology), Ok(vec![1, 5]));
}

#[test]
fn empty_edge_list_gives_empty_dominating_set() {
    let edges: Vec<(u64, u64)> = Vec::new();
    let (map, topology) = relations(&edges);
    assert!(map.is_empty());
    assert!(topology.is_empty());
    assert_eq!(dominating_set(&edges), Ok(Vec::new()));
}

#[test]
fn running_twice_gives_the_same_coloring_and_dominating_set() {
    let edges: Vec<(u64, u64)> = vec![(1, 2), (1, 3), (1, 4), (2, 6), (5, 6)];
    let (first_map, first_topology) = relations(&edges);
    let (second_map, second_topology) = relations(&edges);
    assert_eq!(first_topology, second_topology);
    let first = Interval::new(first_map).ok().unwrap();
    let second = Interval::new(second_map).ok().unwrap();
    assert_eq!(first.nodes(), second.nodes());
    assert_eq!(first.color(), second.color());
    assert_eq!(
        first.find_dominating_set(first_topology),
        second.find_dominating_set(second_topology)
    );
    assert_eq!(dominating_set(&edges), dominating_set(&edges));
}

#[test]
fn element_ids_are_not_limited_to_a_byte() {
    let edges: Vec<(u64, u64)> = vec![(255, 256), (256, 70000)];
    assert_eq!(dominating_set(&edges), Ok(vec![256]));
    let edges: Vec<(u64, u64)> = vec![(0, u64::MAX), (u64::MAX, 7)];
    assert_eq!(dominating_set(&edges), Ok(vec![u64::MAX]));
}

#[test]
fn self_loop_is_a_single_element_adjacent_to_itself() {
    let edges: Vec<(u64, u64)> = vec![(4, 4)];
    let (map, topology) = relations(&edges);
    assert_eq!(map.len(), 1);
    assert_eq!(topology.get(&4), Some(&set_of(&[4])));
    assert_eq!(dominating_set(&edges), Ok(vec![4]));
}

fn dominated_within_two(edges: &[(u64, u64)], chosen: &[u64]) -> bool {
    let (_, topology) = relations(&edges.to_vec());
    let mut covered: HashSet<u64> = HashSet::new();
    for x in chosen {
        covered.insert(*x);
        for n in &topology[x] {
            covered.insert(*n);
            for far in &topology[n] {
                covered.insert(*far);
            }
        }
    }
    topology.keys().all(|v| covered.contains(v))
}

#[test]
fn larger_posets_are_dominated_within_two_steps() {
    let cases: Vec<(Vec<(u64, u64)>, Vec<u64>)> = vec![
        (
            vec![(4, 8), (9, 10), (6, 10), (8, 10), (5, 7), (3, 9), (4, 5), (5, 10)],
            vec![5, 3],
        ),
        (
            vec![(4, 7), (6, 7), (5, 6), (3, 7), (1, 6), (1, 3), (2, 5)],
            vec![7, 2],
        ),
        (
            vec![(8, 9), (1, 2), (7, 8), (5, 7), (3, 5), (2, 3), (3, 6), (3, 9), (1, 4)],
            vec![3, 4],
        ),
        (vec![(5, 7), (1, 6), (1, 3), (6, 7)], vec![1, 5]),
    ];
    for (edges, expected) in cases {
        let chosen = dominating_set(&edges).unwrap();
        assert_eq!(chosen, expected);
        assert!(dominated_within_two(&edges, &chosen));
        let unique: HashSet<u64> = chosen.iter().copied().collect();
        assert_eq!(unique.len(), chosen.len());
    }
}

#[test]
fn ranks_may_cross_on_posets_outside_the_class() {
    // here some element gets a lower bound above its upper bound; the
    // intervals are coloured and the selection runs all the same
    let edges: Vec<(u64, u64)> =
        vec![(1, 9), (6, 7), (7, 8), (2, 5), (2, 4), (2, 6), (8, 9), (3, 5)];
    let (map, _) = relations(&edges);
    let interval = Interval::new(map).ok().unwrap();
    assert!(interval.nodes().iter().any(|n| n.lower > n.upper));
    assert_eq!(dominating_set(&edges), Ok(vec![2, 8]));
}
