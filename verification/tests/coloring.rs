use perfect_dominating_posets::coloring::chains_from;
use perfect_dominating_posets::coloring::Node;
use perfect_dominating_posets::interval::Interval;
use perfect_dominating_posets::order::insert_sorted;
use perfect_dominating_posets::order::sorted;
use perfect_dominating_posets::order::Ordered;
use perfect_dominating_posets::preprocessing::relations;
use std::collections::HashMap;

fn node(id: u64, lower: u64, upper: u64) -> Node {
    Node { id, lower, upper }
}

#[test]
fn nodes_sort_by_lower_bound_then_length_then_id() {
    let nodes = vec![node(1, 2, 2), node(2, 0, 3), node(3, 0, 1), node(4, 0, 1), node(5, 1, 1)];
    let queue = sorted(&nodes);
    let ids: Vec<u64> = queue.iter().map(|n| n.id).collect();
    assert_eq!(ids, vec![3, 4, 2, 5, 1]);
}

#[test]
fn node_order_compares_lengths_not_upper_bounds_alone() {
    assert!(node(1, 0, 5).le(&node(2, 1, 1)));
    assert!(!node(2, 1, 1).le(&node(1, 0, 5)));
    assert!(node(1, 3, 4).le(&node(2, 3, 5)));
    assert!(node(1, 3, 4).le(&node(2, 3, 4)));
    assert!(!node(2, 3, 4).le(&node(1, 3, 4)));
    assert!(node(7, 3, 4).le(&node(7, 3, 4)));
}

#[test]
fn node_gets_the_smallest_colour_that_ended_before_it_starts() {
    // colour 0: [0,0] then [1,1] then [2,2]; colour 1: [0,1] then [2,3];
    // [1,2] fits neither colour 0 (ends at 1) nor colour 1 (ends at 1)
    let nodes = vec![
        node(10, 0, 0),
        node(11, 0, 1),
        node(12, 1, 1),
        node(13, 1, 2),
        node(14, 2, 2),
        node(15, 2, 3),
    ];
    let classes = chains_from(&nodes);
    assert_eq!(classes, vec![vec![10, 12, 14], vec![11, 15], vec![13]]);
}

#[test]
fn touching_intervals_do_not_share_a_colour() {
    // the second interval starts where the first ends
    let classes = chains_from(&vec![node(1, 0, 4), node(2, 4, 6)]);
    assert_eq!(classes, vec![vec![1], vec![2]]);
    let classes = chains_from(&vec![node(1, 0, 4), node(2, 5, 6)]);
    assert_eq!(classes, vec![vec![1, 2]]);
}

#[test]
fn interval_with_upper_below_lower_is_placed_all_the_same() {
    // length -2 sorts before length 0 at the same lower bound, and the
    // colour then ends at 1, before the last interval starts
    let classes = chains_from(&vec![node(1, 3, 3), node(2, 3, 1), node(3, 2, 2)]);
    assert_eq!(classes, vec![vec![3, 2, 1]]);
    // with the lengths the other way round the colour ends at 3
    let classes = chains_from(&vec![node(1, 3, 1), node(2, 3, 3), node(3, 2, 2)]);
    assert_eq!(classes, vec![vec![3, 1, 2]]);
    let classes = chains_from(&vec![node(1, 3, 4), node(2, 3, 3), node(3, 2, 2)]);
    assert_eq!(classes, vec![vec![3, 2], vec![1]]);
}

#[test]
fn no_nodes_give_no_classes() {
    assert_eq!(chains_from(&Vec::new()), Vec::<Vec<u64>>::new());
}

#[test]
fn members_of_one_colour_do_not_overlap() {
    let edges: Vec<(u64, u64)> =
        vec![(1, 2), (1, 3), (1, 4), (2, 6), (5, 6), (6, 7), (4, 7), (3, 8), (7, 8)];
    let (map, _) = relations(&edges);
    let interval = Interval::new(map).ok().unwrap();
    let by_id: HashMap<u64, Node> = interval.nodes().iter().map(|n| (n.id, *n)).collect();
    let classes = chains_from(interval.nodes());
    let mut seen = 0;
    for class in &classes {
        assert!(!class.is_empty());
        for i in 0..class.len() {
            for j in (i + 1)..class.len() {
                assert!(by_id[&class[i]].upper < by_id[&class[j]].lower);
            }
        }
        seen += class.len();
    }
    assert_eq!(seen, interval.nodes().len());
    let coloring = interval.color();
    assert_eq!(coloring.len(), classes.len());
    for (c, class) in classes.iter().enumerate() {
        let ids = &coloring[&(c as u64)];
        assert_eq!(ids.len(), class.len());
        for id in class {
            assert!(ids.contains(id));
        }
    }
}

#[test]
fn insert_sorted_keeps_order_and_ignores_repeats() {
    let mut v: Vec<u64> = Vec::new();
    for x in [5u64, 1, 3, 5, 0, 9, 3] {
        insert_sorted(&mut v, x);
    }
    assert_eq!(v, vec![0, 1, 3, 5, 9]);
}
