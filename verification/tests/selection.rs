use perfect_dominating_posets::collect::keys_of;
use perfect_dominating_posets::collect::members;
use perfect_dominating_posets::dominate::all_visited;
use perfect_dominating_posets::dominate::order_classes;
use perfect_dominating_posets::dominate::run_pass;
use perfect_dominating_posets::dominate::ClassKey;
use perfect_dominating_posets::interval::ColoringError;
use perfect_dominating_posets::interval::Interval;
use perfect_dominating_posets::order::sorted;
use perfect_dominating_posets::preprocessing::relations;
use std::collections::HashMap;
use std::collections::HashSet;

fn topology_of(pairs: &[(u64, u64)]) -> HashMap<u64, HashSet<u64>> {
    let mut topology: HashMap<u64, HashSet<u64>> = HashMap::new();
    for (a, b) in pairs {
        topology.entry(*a).or_default().insert(*b);
        topology.entry(*b).or_default().insert(*a);
    }
    topology
}

fn set_of(items: &[u64]) -> HashSet<u64> {
    items.iter().copied().collect()
}

#[test]
fn classes_are_ordered_largest_first_and_by_colour_among_equals() {
    let classes = vec![vec![1], vec![2, 3, 4], vec![5], vec![6, 7, 8], vec![9, 10, 11, 12, 13]];
    assert_eq!(
        order_classes(&classes),
        vec![vec![9, 10, 11, 12, 13], vec![2, 3, 4], vec![6, 7, 8], vec![1], vec![5]]
    );
    assert_eq!(order_classes(&Vec::new()), Vec::<Vec<u64>>::new());
}

#[test]
fn class_keys_sort_by_size_descending_then_colour() {
    let keys = vec![
        ClassKey { size: 1, color: 0 },
        ClassKey { size: 3, color: 1 },
        ClassKey { size: 3, color: 2 },
        ClassKey { size: 5, color: 3 },
    ];
    let order: Vec<usize> = sorted(&keys).iter().map(|k| k.color).collect();
    assert_eq!(order, vec![3, 1, 2, 0]);
}

#[test]
fn pass_picks_the_first_member_of_largest_degree() {
    // path 1 - 2 - 3 - 4 - 5: elements 2, 3 and 4 have degree two
    let classes = vec![vec![1, 2, 3, 4, 5]];
    let mut topology = topology_of(&[(1, 2), (2, 3), (3, 4), (4, 5)]);
    let mut visited: HashSet<u64> = HashSet::new();
    let mut chosen: Vec<u64> = Vec::new();
    run_pass(&classes, &mut visited, &mut topology, &mut chosen);
    assert_eq!(chosen, vec![2]);
    // 2, its neighbours 1 and 3, and their neighbours 2 and 4
    assert_eq!(visited, set_of(&[1, 2, 3, 4]));
    // 1 and 3 are struck from the sets of all other elements, the entry of 2 is gone
    assert_eq!(topology.len(), 4);
    assert_eq!(topology[&1], set_of(&[2]));
    assert_eq!(topology[&3], set_of(&[2, 4]));
    assert_eq!(topology[&4], set_of(&[5]));
    assert_eq!(topology[&5], set_of(&[4]));
    assert!(!all_visited(&classes, &visited));

    run_pass(&classes, &mut visited, &mut topology, &mut chosen);
    assert_eq!(chosen, vec![2, 5]);
    assert!(all_visited(&classes, &visited));
}

#[test]
fn pass_skips_a_class_without_unvisited_member() {
    let classes = vec![vec![1, 2, 3], vec![4]];
    let mut topology = topology_of(&[(1, 2), (2, 3), (2, 4)]);
    let mut visited: HashSet<u64> = HashSet::new();
    let mut chosen: Vec<u64> = Vec::new();
    run_pass(&classes, &mut visited, &mut topology, &mut chosen);
    assert_eq!(chosen, vec![2]);
    assert_eq!(visited, set_of(&[1, 2, 3, 4]));
    assert!(all_visited(&classes, &visited));
}

#[test]
fn neighbour_keeps_itself_in_its_own_set_when_struck() {
    // 2 is adjacent to itself: picking 1 strikes 2 from the sets of the others
    let classes = vec![vec![1]];
    let mut topology = topology_of(&[(1, 2), (2, 2), (2, 3)]);
    let mut visited: HashSet<u64> = HashSet::new();
    let mut chosen: Vec<u64> = Vec::new();
    run_pass(&classes, &mut visited, &mut topology, &mut chosen);
    assert_eq!(chosen, vec![1]);
    assert_eq!(visited, set_of(&[1, 2, 3]));
    assert_eq!(topology.len(), 2);
    assert_eq!(topology[&2], set_of(&[1, 2, 3]));
    assert_eq!(topology[&3], set_of(&[]));
}

#[test]
fn elements_without_neighbours_are_picked_one_per_pass() {
    let edges: Vec<(u64, u64)> = vec![(1, 2), (2, 3)];
    let (map, _) = relations(&edges);
    let interval = Interval::new(map).ok().unwrap();
    assert_eq!(interval.find_dominating_set(HashMap::new()), Ok(vec![1, 2, 3]));
}

#[test]
fn adjacency_to_elements_outside_the_classes_does_not_stop_the_selection() {
    let edges: Vec<(u64, u64)> = vec![(1, 2), (2, 3)];
    let (map, _) = relations(&edges);
    let interval = Interval::new(map).ok().unwrap();
    let topology = topology_of(&[(1, 70), (1, 71), (1, 72), (2, 3)]);
    // 1 has the largest degree; 2 and 3 are left for the second pass
    assert_eq!(interval.find_dominating_set(topology), Ok(vec![1, 2]));
}

#[test]
fn even_chain_is_outside_the_scope() {
    let edges: Vec<(u64, u64)> = vec![(1, 2), (2, 3), (3, 4)];
    let (map, topology) = relations(&edges);
    let interval = Interval::new(map).ok().unwrap();
    assert_eq!(
        interval.find_dominating_set(topology),
        Err(ColoringError::OutsideAlgoScope)
    );
}

#[test]
fn check_len_adds_the_class_sizes() {
    assert_eq!(Interval::check_len(&vec![vec![1, 2, 3], vec![], vec![4]]), 4);
    assert_eq!(Interval::check_len(&Vec::new()), 0);
}

#[test]
fn verify_chain_wants_every_class_odd() {
    assert!(Interval::verify_chain(&vec![vec![1, 2, 3], vec![4]]));
    assert!(!Interval::verify_chain(&vec![vec![1, 2, 3], vec![4, 5]]));
    assert!(!Interval::verify_chain(&vec![vec![]]));
    assert!(Interval::verify_chain(&Vec::new()));
}

#[test]
fn members_and_keys_list_each_item_once() {
    let set = set_of(&[3, 1, 2]);
    let mut listed = members(&set);
    listed.sort();
    assert_eq!(listed, vec![1, 2, 3]);
    let topology = topology_of(&[(1, 2), (2, 3)]);
    let mut keys = keys_of(&topology);
    keys.sort();
    assert_eq!(keys, vec![1, 2, 3]);
}
