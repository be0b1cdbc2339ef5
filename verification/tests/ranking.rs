use perfect_dominating_posets::coloring::Node;
use perfect_dominating_posets::interval::Interval;
use perfect_dominating_posets::preprocessing::relations;
use perfect_dominating_posets::rank::count_distinct;
use perfect_dominating_posets::rank::leaders;
use perfect_dominating_posets::rank::rank_of;
use perfect_dominating_posets::rank::same;
use perfect_dominating_posets::rank::sorted_ids;
use perfect_dominating_posets::resolve::UnsharedSet;
use std::collections::HashSet;

fn nodes_of(edges: Vec<(u64, u64)>) -> Vec<Node> {
    let (map, _) = relations(&edges);
    Interval::new(map).ok().unwrap().nodes().clone()
}

fn node(id: u64, lower: u64, upper: u64) -> Node {
    Node { id, lower, upper }
}

#[test]
fn chain_gets_one_point_interval_per_element() {
    assert_eq!(
        nodes_of(vec![(1, 2), (2, 3)]),
        vec![node(1, 0, 0), node(2, 1, 1), node(3, 2, 2)]
    );
}

#[test]
fn nodes_come_in_increasing_order_of_id() {
    let nodes = nodes_of(vec![(30, 20), (20, 10)]);
    assert_eq!(nodes, vec![node(10, 2, 2), node(20, 1, 1), node(30, 0, 0)]);
}

#[test]
fn equal_sets_share_a_rank() {
    // up-sets: {2,3,4}, {4}, {4}, {}; down-sets: {}, {1}, {1}, {1,2,3}
    assert_eq!(
        nodes_of(vec![(1, 2), (1, 3), (2, 4), (3, 4)]),
        vec![node(1, 0, 0), node(2, 1, 1), node(3, 1, 1), node(4, 2, 2)]
    );
}

#[test]
fn up_sets_rank_by_descending_and_down_sets_by_ascending_size() {
    // up-sets: 1:{2,3,4,6} 2:{6} 3:{} 4:{} 5:{6} 6:{}
    // down-sets: 1:{} 2:{1} 3:{1} 4:{1} 5:{} 6:{1,2,5}
    assert_eq!(
        nodes_of(vec![(1, 2), (1, 3), (1, 4), (2, 6), (5, 6)]),
        vec![
            node(1, 0, 0),
            node(2, 1, 1),
            node(3, 1, 2),
            node(4, 1, 2),
            node(5, 0, 1),
            node(6, 2, 2),
        ]
    );
}

#[test]
fn sets_of_one_size_rank_by_their_smallest_element() {
    // up-sets {2} (of 1), {4} (of 3) and {}: the set of element 1 comes first
    // down-sets {}, {1} (of 2) and {3} (of 4): the set of element 2 comes first
    assert_eq!(
        nodes_of(vec![(1, 2), (3, 4)]),
        vec![node(1, 0, 0), node(2, 1, 2), node(3, 0, 1), node(4, 2, 2)]
    );
    assert_eq!(
        nodes_of(vec![(3, 4), (1, 2)]),
        vec![node(1, 0, 0), node(2, 1, 2), node(3, 0, 1), node(4, 2, 2)]
    );
}

#[test]
fn ranks_number_the_distinct_sets_without_gaps() {
    let edges: Vec<(u64, u64)> = vec![(1, 2), (1, 3), (1, 4), (2, 6), (5, 6), (6, 7), (4, 7)];
    let (map, _) = relations(&edges);
    let mut ids: Vec<u64> = map.keys().copied().collect();
    ids.sort();
    let mut ups: Vec<Vec<u64>> = Vec::new();
    for v in &ids {
        ups.push(UnsharedSet::from_set(&map, true, &map[v].upset).ok().unwrap().0);
    }
    let distinct: HashSet<Vec<u64>> = ups.iter().cloned().collect();
    let nodes = Interval::new(map).ok().unwrap().nodes().clone();
    let ranks: HashSet<u64> = nodes.iter().map(|n| n.upper).collect();
    let expected: HashSet<u64> = (0..distinct.len() as u64).collect();
    assert_eq!(ranks, expected);
    for (i, a) in nodes.iter().enumerate() {
        for (j, b) in nodes.iter().enumerate() {
            assert_eq!(a.upper == b.upper, ups[i] == ups[j]);
            if ups[i].len() > ups[j].len() {
                assert!(a.upper < b.upper);
            }
        }
    }
}

#[test]
fn leaders_point_at_the_first_equal_set() {
    let canon = vec![
        UnsharedSet(vec![1, 2]),
        UnsharedSet(vec![]),
        UnsharedSet(vec![1, 2]),
        UnsharedSet(vec![2]),
        UnsharedSet(vec![]),
    ];
    let lead = leaders(&canon);
    assert_eq!(lead, vec![0, 1, 0, 3, 1]);
    let ks: Vec<u64> = vec![10, 20, 30, 40, 50];
    assert_eq!(count_distinct(&ks, &canon, &lead), 3);
    // descending: {1,2} -> 0, {2} -> 1, {} -> 2
    assert_eq!(rank_of(&ks, &canon, &lead, true, 0), 0);
    assert_eq!(rank_of(&ks, &canon, &lead, true, 1), 2);
    assert_eq!(rank_of(&ks, &canon, &lead, true, 2), 0);
    assert_eq!(rank_of(&ks, &canon, &lead, true, 3), 1);
    assert_eq!(rank_of(&ks, &canon, &lead, true, 4), 2);
    // ascending: {} -> 0, {2} -> 1, {1,2} -> 2
    assert_eq!(rank_of(&ks, &canon, &lead, false, 0), 2);
    assert_eq!(rank_of(&ks, &canon, &lead, false, 1), 0);
    assert_eq!(rank_of(&ks, &canon, &lead, false, 3), 1);
}

#[test]
fn same_compares_item_by_item() {
    assert!(same(&vec![], &vec![]));
    assert!(same(&vec![1, 2, 3], &vec![1, 2, 3]));
    assert!(!same(&vec![1, 2, 3], &vec![1, 2]));
    assert!(!same(&vec![1, 2, 3], &vec![1, 2, 4]));
}

#[test]
fn sorted_ids_sorts_and_drops_repeats() {
    assert_eq!(sorted_ids(&vec![5, 1, 9, 1, 5, 0]), vec![0, 1, 5, 9]);
    assert_eq!(sorted_ids(&vec![]), Vec::<u64>::new());
}
