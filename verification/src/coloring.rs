//! The chain colorer: intervals are sorted and placed greedily, each on the
//! first chain whose last interval ends before it starts.
use crate::dominate::is_member;
use crate::order::Ordered;
use crate::order::order_of;
use crate::order::sorted;
use vstd::prelude::*;

verus! {

/// The interval of one element: the rank of its down-set and the rank of
/// its up-set.
#[derive(Debug, Clone, Copy, PartialEq, Eq)]
pub struct Node {
    pub id: u64,
    pub lower: u64,
    pub upper: u64,
}

impl Ordered for Node {
    /// By lower bound, then by length, then by id.
    open spec fn leq(self, other: Self) -> bool {
        ||| self.lower < other.lower
        ||| (self.lower == other.lower && self.upper - self.lower < other.upper - other.lower)
        ||| (self.lower == other.lower && self.upper - self.lower == other.upper - other.lower
            && self.id <= other.id)
    }

    proof fn leq_is_total() {
        let r = |a: Self, b: Self| a.leq(b);
        assert(vstd::relations::reflexive(r));
        assert(vstd::relations::antisymmetric(r)) by {
            assert forall|x: Self, y: Self| #[trigger] r(x, y) && #[trigger] r(y, x) implies x
                == y by {
                assert(x.id == y.id && x.lower == y.lower && x.upper == y.upper);
            }
        }
        assert(vstd::relations::transitive(r));
        assert(vstd::relations::strongly_connected(r));
    }

    fn le(&self, other: &Self) -> (b: bool) {
        if self.lower != other.lower {
            self.lower < other.lower
        } else if self.upper != other.upper {
            self.upper < other.upper
        } else {
            self.id <= other.id
        }
    }
}

/// The chain ends before the interval of `node` starts.
pub open spec fn fits(chain: Seq<Node>, node: Node) -> bool {
    chain.last().upper < node.lower
}

/// `c` is the smallest colour whose chain `node` fits, or the next unused
/// colour where it fits none.
pub open spec fn is_first_fit(chains: Seq<Seq<Node>>, node: Node, c: int) -> bool {
    &&& 0 <= c <= chains.len()
    &&& c < chains.len() ==> fits(chains[c], node)
    &&& forall|d: int| 0 <= d < c ==> !fits(#[trigger] chains[d], node)
}

/// The colour that `node` gets.
pub open spec fn first_fit(chains: Seq<Seq<Node>>, node: Node) -> int {
    choose|c: int| is_first_fit(chains, node, c)
}

/// The chains after `node` was placed on the chain of its colour.
pub open spec fn place(chains: Seq<Seq<Node>>, node: Node) -> Seq<Seq<Node>> {
    let c = first_fit(chains, node);
    if c < chains.len() {
        chains.update(c, chains[c].push(node))
    } else {
        chains.push(seq![node])
    }
}

/// The chains after the nodes were placed one by one, in the order given.
/// The chain at index `c` is the class of colour `c`.
pub open spec fn chains_of(nodes: Seq<Node>) -> Seq<Seq<Node>>
    decreases nodes.len(),
{
    if nodes.len() == 0 {
        Seq::empty()
    } else {
        place(chains_of(nodes.drop_last()), nodes.last())
    }
}

/// The greedy colouring: the nodes are sorted by lower bound, then by
/// length, then by id, and placed in that order.
pub open spec fn coloring(nodes: Seq<Node>) -> Seq<Seq<Node>> {
    chains_of(nodes.sort_by(order_of::<Node>()))
}

/// The ids of the nodes of a chain, in order.
pub open spec fn ids_of(chain: Seq<Node>) -> Seq<u64> {
    Seq::new(chain.len(), |i: int| chain[i].id)
}

/// The chains as sequences of ids.
pub open spec fn classes_of(chains: Seq<Seq<Node>>) -> Seq<Seq<u64>> {
    Seq::new(chains.len(), |c: int| ids_of(chains[c]))
}

/// The colouring as a mapping from colour to the set of its elements.
pub open spec fn coloring_map(classes: Seq<Seq<u64>>) -> Map<u64, Set<u64>> {
    Map::new(|c: u64| c < classes.len(), |c: u64| classes[c as int].to_set())
}

/// The first fit is unique.
pub proof fn lemma_first_fit(chains: Seq<Seq<Node>>, node: Node, c: int)
    requires
        is_first_fit(chains, node, c),
    ensures
        first_fit(chains, node) == c,
{
    let d = first_fit(chains, node);
    assert(is_first_fit(chains, node, d));
    if d < c {
        assert(!fits(chains[d], node));
    } else if c < d {
        assert(!fits(chains[c], node));
    }
}

/// Every interval of the chain ends before the intervals behind it start.
pub open spec fn chained(chain: Seq<Node>) -> bool {
    forall|i: int, j: int| 0 <= i < j < chain.len() ==> chain[i].upper < chain[j].lower
}

/// Among the first `n` chains, some colour is the first fit, or none fits.
proof fn lemma_first_fit_upto(chains: Seq<Seq<Node>>, node: Node, n: int) -> (c: int)
    requires
        0 <= n <= chains.len(),
    ensures
        0 <= c <= n,
        c < n ==> fits(chains[c], node),
        forall|d: int| 0 <= d < c ==> !fits(#[trigger] chains[d], node),
    decreases n,
{
    if n == 0 {
        0
    } else {
        let c = lemma_first_fit_upto(chains, node, n - 1);
        if c < n - 1 {
            c
        } else if fits(chains[n - 1], node) {
            n - 1
        } else {
            n
        }
    }
}

/// The colour that a node gets is its first fit.
pub proof fn lemma_first_fit_exists(chains: Seq<Seq<Node>>, node: Node)
    ensures
        is_first_fit(chains, node, first_fit(chains, node)),
{
    let c = lemma_first_fit_upto(chains, node, chains.len() as int);
    assert(is_first_fit(chains, node, c));
}

/// Placing nodes in sorted order keeps every chain non-empty, made of nodes
/// that were placed, and ordered: each interval ends before the next starts.
proof fn lemma_chains_of_sorted(nodes: Seq<Node>)
    requires
        vstd::relations::sorted_by(nodes, order_of::<Node>()),
    ensures
        forall|c: int|
            0 <= c < chains_of(nodes).len() ==> {
                &&& (#[trigger] chains_of(nodes)[c]).len() > 0
                &&& chained(chains_of(nodes)[c])
                &&& forall|k: int|
                    0 <= k < chains_of(nodes)[c].len() ==> nodes.contains(
                        #[trigger] chains_of(nodes)[c][k],
                    )
            },
    decreases nodes.len(),
{
    if nodes.len() > 0 {
        let init = nodes.drop_last();
        let node = nodes.last();
        let before = chains_of(init);
        let after = chains_of(nodes);
        assert(vstd::relations::sorted_by(init, order_of::<Node>())) by {
            assert forall|i: int, j: int| 0 <= i < j < init.len() implies #[trigger] order_of::<
                Node,
            >()(init[i], init[j]) by {
                assert(order_of::<Node>()(nodes[i], nodes[j]));
            }
        }
        lemma_chains_of_sorted(init);
        lemma_first_fit_exists(before, node);
        let c = first_fit(before, node);
        assert(after == place(before, node));
        assert forall|d: int| 0 <= d < after.len() implies {
            &&& (#[trigger] after[d]).len() > 0
            &&& chained(after[d])
            &&& forall|k: int| 0 <= k < after[d].len() ==> nodes.contains(#[trigger] after[d][k])
        } by {
            if d == c {
                if c < before.len() {
                    let old_chain = before[c];
                    let chain = after[d];
                    assert(chain == old_chain.push(node));
                    assert forall|k: int| 0 <= k < chain.len() implies nodes.contains(
                        #[trigger] chain[k],
                    ) by {
                        if k < old_chain.len() {
                            assert(init.contains(old_chain[k]));
                            let a = choose|a: int| 0 <= a < init.len() && init[a] == old_chain[k];
                            assert(nodes[a] == chain[k]);
                        } else {
                            assert(nodes[nodes.len() - 1] == chain[k]);
                        }
                    }
                    assert forall|i: int, j: int| 0 <= i < j < chain.len() implies chain[i].upper
                        < chain[j].lower by {
                        if j < old_chain.len() {
                            assert(old_chain[i].upper < old_chain[j].lower);
                        } else {
                            let last = old_chain.len() - 1;
                            assert(old_chain[last].upper < node.lower);
                            if i < last {
                                assert(old_chain[i].upper < old_chain[last].lower);
                                assert(init.contains(old_chain[last]));
                                let a = choose|a: int|
                                    0 <= a < init.len() && init[a] == old_chain[last];
                                assert(order_of::<Node>()(nodes[a], nodes[nodes.len() - 1]));
                            }
                        }
                    }
                } else {
                    assert(after[d] == seq![node]);
                    assert(nodes[nodes.len() - 1] == after[d][0]);
                }
            } else {
                assert(after[d] == before[d]);
                assert forall|k: int| 0 <= k < after[d].len() implies nodes.contains(
                    #[trigger] after[d][k],
                ) by {
                    assert(init.contains(before[d][k]));
                    let a = choose|a: int| 0 <= a < init.len() && init[a] == before[d][k];
                    assert(nodes[a] == after[d][k]);
                }
            }
        }
    }
}

/// In the greedy colouring the members of one colour form a chain: taken in
/// the order in which they were placed, each interval ends before the next
/// one starts, so no two intervals of one colour overlap. Every member of a
/// chain is one of the nodes.
pub proof fn lemma_coloring_chains(nodes: Seq<Node>)
    ensures
        forall|c: int|
            0 <= c < coloring(nodes).len() ==> {
                &&& (#[trigger] coloring(nodes)[c]).len() > 0
                &&& chained(coloring(nodes)[c])
                &&& forall|k: int|
                    0 <= k < coloring(nodes)[c].len() ==> nodes.contains(
                        #[trigger] coloring(nodes)[c][k],
                    )
            },
{
    let queue = nodes.sort_by(order_of::<Node>());
    Node::leq_is_total();
    nodes.lemma_sort_by_ensures(order_of::<Node>());
    lemma_chains_of_sorted(queue);
}

/// `x` stands on one of the chains.
pub open spec fn placed(chains: Seq<Seq<Node>>, x: Node) -> bool {
    exists|c: int, k: int|
        0 <= c < chains.len() && 0 <= k < chains[c].len() && #[trigger] chains[c][k] == x
}

/// No node stands at two places of the chains.
pub open spec fn apart(chains: Seq<Seq<Node>>) -> bool {
    forall|c: int, k: int, d: int, l: int|
        0 <= c < chains.len() && 0 <= k < chains[c].len() && 0 <= d < chains.len() && 0 <= l
            < chains[d].len() && #[trigger] chains[c][k] == #[trigger] chains[d][l] ==> c == d && k
            == l
}

/// Placing nodes that are all different puts each of them at one place, and
/// nothing else on the chains.
proof fn lemma_chains_of_distinct(nodes: Seq<Node>)
    requires
        nodes.no_duplicates(),
    ensures
        apart(chains_of(nodes)),
        forall|i: int| 0 <= i < nodes.len() ==> placed(chains_of(nodes), #[trigger] nodes[i]),
        forall|c: int, k: int|
            0 <= c < chains_of(nodes).len() && 0 <= k < chains_of(nodes)[c].len()
                ==> nodes.contains(#[trigger] chains_of(nodes)[c][k]),
    decreases nodes.len(),
{
    if nodes.len() > 0 {
        let init = nodes.drop_last();
        let node = nodes.last();
        let before = chains_of(init);
        let after = chains_of(nodes);
        lemma_chains_of_distinct(init);
        lemma_first_fit_exists(before, node);
        let c = first_fit(before, node);
        assert(after == place(before, node));
        assert(!init.contains(node)) by {
            if init.contains(node) {
                let a = choose|a: int| 0 <= a < init.len() && init[a] == node;
                assert(nodes[a] == nodes[nodes.len() - 1]);
            }
        }
        // every place of `before` holds the same node in `after`
        assert forall|d: int, l: int|
            0 <= d < before.len() && 0 <= l < before[d].len() implies d < after.len() && l
            < after[d].len() && #[trigger] after[d][l] == before[d][l] by {}
        // every place of `after` is a place of `before`, or the new place
        assert forall|d: int, l: int| 0 <= d < after.len() && 0 <= l < after[d].len() implies (d
            < before.len() && l < before[d].len() && #[trigger] after[d][l] == before[d][l]) || (d
            == c && l == after[d].len() - 1 && after[d][l] == node) by {}
        assert forall|d: int, l: int|
            0 <= d < after.len() && 0 <= l < after[d].len() implies nodes.contains(
            #[trigger] after[d][l],
        ) by {
            if d < before.len() && l < before[d].len() && after[d][l] == before[d][l] {
                assert(init.contains(before[d][l]));
                let a = choose|a: int| 0 <= a < init.len() && init[a] == before[d][l];
                assert(nodes[a] == after[d][l]);
            } else {
                assert(nodes[nodes.len() - 1] == after[d][l]);
            }
        }
        assert forall|i: int| 0 <= i < nodes.len() implies placed(after, #[trigger] nodes[i]) by {
            if i < init.len() {
                assert(placed(before, init[i]));
                let (d, l) = choose|d: int, l: int|
                    0 <= d < before.len() && 0 <= l < before[d].len() && #[trigger] before[d][l]
                        == init[i];
                assert(after[d][l] == nodes[i]);
            } else {
                assert(after[c][after[c].len() - 1] == nodes[i]);
            }
        }
        assert forall|d: int, l: int, e: int, m: int|
            0 <= d < after.len() && 0 <= l < after[d].len() && 0 <= e < after.len() && 0 <= m
                < after[e].len() && #[trigger] after[d][l] == #[trigger] after[e][m] implies d == e
            && l == m by {
            let old_dl = d < before.len() && l < before[d].len() && after[d][l] == before[d][l];
            let old_em = e < before.len() && m < before[e].len() && after[e][m] == before[e][m];
            if old_dl && old_em {
                assert(before[d][l] == before[e][m]);
            } else if old_dl {
                assert(init.contains(before[d][l]));
            } else if old_em {
                assert(init.contains(before[e][m]));
            }
        }
    }
}

/// No id stands at two places of the classes.
pub open spec fn disjoint(classes: Seq<Seq<u64>>) -> bool {
    forall|c: int, k: int, d: int, l: int|
        0 <= c < classes.len() && 0 <= k < classes[c].len() && 0 <= d < classes.len() && 0 <= l
            < classes[d].len() && #[trigger] classes[c][k] == #[trigger] classes[d][l] ==> c == d
            && k == l
}

/// `x` is the id of one of the nodes.
pub open spec fn is_id(nodes: Seq<Node>, x: u64) -> bool {
    exists|i: int| 0 <= i < nodes.len() && #[trigger] nodes[i].id == x
}

/// The greedy colouring is a partition: where no two nodes have the same
/// id, the members of the classes are exactly the ids of the nodes, and no
/// id stands at two places; so a class has as many elements as its chain is
/// long.
pub proof fn lemma_coloring_partition(nodes: Seq<Node>)
    requires
        forall|i: int, j: int| 0 <= i < j < nodes.len() ==> nodes[i].id != nodes[j].id,
    ensures
        forall|x: u64| is_id(nodes, x) <==> is_member(classes_of(coloring(nodes)), x),
        disjoint(classes_of(coloring(nodes))),
        forall|c: int|
            0 <= c < coloring(nodes).len() ==> (#[trigger] classes_of(
                coloring(nodes),
            )[c]).to_set().len() == coloring(nodes)[c].len(),
{
    let queue = nodes.sort_by(order_of::<Node>());
    let chains = coloring(nodes);
    let classes = classes_of(chains);
    Node::leq_is_total();
    nodes.lemma_sort_by_ensures(order_of::<Node>());
    assert(nodes.no_duplicates());
    nodes.lemma_multiset_has_no_duplicates();
    queue.lemma_multiset_has_no_duplicates_conv();
    lemma_chains_of_distinct(queue);
    // the same id means the same node
    assert forall|x: Node, y: Node| nodes.contains(x) && nodes.contains(y) && x.id
        == y.id implies x == y by {
        let i = choose|i: int| 0 <= i < nodes.len() && nodes[i] == x;
        let j = choose|j: int| 0 <= j < nodes.len() && nodes[j] == y;
        assert(i == j);
    }
    assert forall|c: int, k: int| 0 <= c < chains.len() && 0 <= k < chains[c].len() implies nodes.contains(
        #[trigger] chains[c][k],
    ) by {
        assert(queue.contains(chains[c][k]));
    }
    assert forall|x: u64| is_id(nodes, x) implies is_member(classes, x) by {
        let i = choose|i: int| 0 <= i < nodes.len() && #[trigger] nodes[i].id == x;
        assert(nodes.contains(nodes[i]));
        vstd::seq_lib::to_multiset_contains(nodes, nodes[i]);
        vstd::seq_lib::to_multiset_contains(queue, nodes[i]);
        let a = choose|a: int| 0 <= a < queue.len() && queue[a] == nodes[i];
        assert(placed(chains, queue[a]));
        let (c, k) = choose|c: int, k: int|
            0 <= c < chains.len() && 0 <= k < chains[c].len() && #[trigger] chains[c][k]
                == queue[a];
        assert(classes[c][k] == x);
    }
    assert forall|x: u64| is_member(classes, x) implies is_id(nodes, x) by {
        let (c, k) = choose|c: int, k: int|
            0 <= c < classes.len() && 0 <= k < classes[c].len() && #[trigger] classes[c][k] == x;
        assert(nodes.contains(chains[c][k]));
        let i = choose|i: int| 0 <= i < nodes.len() && nodes[i] == chains[c][k];
        assert(nodes[i].id == x);
    }
    assert forall|c: int, k: int, d: int, l: int|
        0 <= c < classes.len() && 0 <= k < classes[c].len() && 0 <= d < classes.len() && 0 <= l
            < classes[d].len() && #[trigger] classes[c][k] == #[trigger] classes[d][l] implies c
        == d && k == l by {
        assert(nodes.contains(chains[c][k]));
        assert(nodes.contains(chains[d][l]));
        assert(chains[c][k].id == chains[d][l].id);
        assert(chains[c][k] == chains[d][l]);
    }
    assert forall|c: int| 0 <= c < chains.len() implies (#[trigger] classes[c]).to_set().len()
        == chains[c].len() by {
        classes[c].unique_seq_to_set();
    }
}

/// The intervals of two nodes share a point.
pub open spec fn overlap(a: Node, b: Node) -> bool {
    a.lower <= b.upper && b.lower <= a.upper
}

/// `colour` gives every node one of the colours below `m`, and nodes whose
/// intervals share a point different colours.
pub open spec fn separates(nodes: Seq<Node>, colour: spec_fn(Node) -> int, m: nat) -> bool {
    &&& forall|i: int| 0 <= i < nodes.len() ==> 0 <= colour(#[trigger] nodes[i]) < m
    &&& forall|i: int, j: int|
        0 <= i < nodes.len() && 0 <= j < nodes.len() && i != j && overlap(
            #[trigger] nodes[i],
            #[trigger] nodes[j],
        ) ==> colour(nodes[i]) != colour(nodes[j])
}

/// Among nodes that were placed in sorted order there are as many whose
/// intervals share one point as there are chains.
proof fn lemma_crowd(nodes: Seq<Node>) -> (r: (Set<Node>, int))
    requires
        vstd::relations::sorted_by(nodes, order_of::<Node>()),
        nodes.no_duplicates(),
        forall|i: int| 0 <= i < nodes.len() ==> (#[trigger] nodes[i]).lower <= nodes[i].upper,
    ensures
        r.0.finite(),
        r.0.len() == chains_of(nodes).len(),
        forall|x: Node| #[trigger]
            r.0.contains(x) ==> nodes.contains(x) && x.lower <= r.1 <= x.upper,
    decreases nodes.len(),
{
    if nodes.len() == 0 {
        (Set::empty(), 0)
    } else {
        let init = nodes.drop_last();
        let node = nodes.last();
        let before = chains_of(init);
        assert(vstd::relations::sorted_by(init, order_of::<Node>())) by {
            assert forall|i: int, j: int| 0 <= i < j < init.len() implies #[trigger] order_of::<
                Node,
            >()(init[i], init[j]) by {
                assert(order_of::<Node>()(nodes[i], nodes[j]));
            }
        }
        assert forall|i: int| 0 <= i < init.len() implies (#[trigger] init[i]).lower
            <= init[i].upper by {
            assert(init[i] == nodes[i]);
        }
        let (crowd, point) = lemma_crowd(init);
        lemma_first_fit_exists(before, node);
        let c = first_fit(before, node);
        if c < before.len() {
            assert forall|x: Node| #[trigger] crowd.contains(x) implies nodes.contains(x) by {
                assert(init.contains(x));
                let a = choose|a: int| 0 <= a < init.len() && init[a] == x;
                assert(nodes[a] == x);
            }
            (crowd, point)
        } else {
            lemma_chains_of_sorted(init);
            lemma_chains_of_distinct(init);
            let n = before.len() as int;
            let last_of = |d: int| before[d].last();
            let colours = vstd::set_lib::set_int_range(0, n);
            let lasts = colours.map(last_of);
            vstd::set_lib::lemma_int_range(0, n);
            assert(vstd::relations::injective_on(last_of, colours)) by {
                assert forall|d: int, e: int|
                    colours.contains(d) && colours.contains(e) && #[trigger] last_of(d)
                        == #[trigger] last_of(e) implies d == e by {
                    assert(before[d][before[d].len() - 1] == before[e][before[e].len() - 1]);
                }
            }
            vstd::set_lib::lemma_map_size(colours, lasts, last_of);
            assert(nodes[nodes.len() - 1] == node);
            assert forall|x: Node| lasts.contains(x) implies init.contains(x) && x.lower
                <= node.lower <= x.upper by {
                let d = choose|d: int| colours.contains(d) && x == last_of(d);
                assert(!fits(before[d], node));
                assert(init.contains(before[d][before[d].len() - 1]));
                let a = choose|a: int| 0 <= a < init.len() && init[a] == x;
                assert(order_of::<Node>()(nodes[a], nodes[nodes.len() - 1]));
            }
            assert(!lasts.contains(node)) by {
                if lasts.contains(node) {
                    let a = choose|a: int| 0 <= a < init.len() && init[a] == node;
                    assert(nodes[a] == nodes[nodes.len() - 1]);
                }
            }
            assert forall|x: Node| #[trigger]
                lasts.insert(node).contains(x) implies nodes.contains(x) && x.lower <= node.lower
                <= x.upper by {
                if x != node {
                    let a = choose|a: int| 0 <= a < init.len() && init[a] == x;
                    assert(nodes[a] == x);
                }
            }
            (lasts.insert(node), node.lower as int)
        }
    }
}

/// The greedy colouring uses as few colours as any colouring can: where no
/// node stands twice and no interval ends before it starts, every way to
/// give nodes with overlapping intervals different colours takes at least
/// as many colours.
pub proof fn lemma_coloring_minimal(nodes: Seq<Node>, colour: spec_fn(Node) -> int, m: nat)
    requires
        nodes.no_duplicates(),
        forall|i: int| 0 <= i < nodes.len() ==> (#[trigger] nodes[i]).lower <= nodes[i].upper,
        separates(nodes, colour, m),
    ensures
        coloring(nodes).len() <= m,
{
    let queue = nodes.sort_by(order_of::<Node>());
    Node::leq_is_total();
    nodes.lemma_sort_by_ensures(order_of::<Node>());
    nodes.lemma_multiset_has_no_duplicates();
    queue.lemma_multiset_has_no_duplicates_conv();
    assert forall|i: int| 0 <= i < queue.len() implies (#[trigger] queue[i]).lower
        <= queue[i].upper by {
        assert(queue.contains(queue[i]));
        assert(nodes.contains(queue[i]));
        let a = choose|a: int| 0 <= a < nodes.len() && nodes[a] == queue[i];
        assert(nodes[a].lower <= nodes[a].upper);
    }
    let (crowd, point) = lemma_crowd(queue);
    let image = crowd.map(colour);
    assert(vstd::relations::injective_on(colour, crowd)) by {
        assert forall|x: Node, y: Node|
            crowd.contains(x) && crowd.contains(y) && #[trigger] colour(x) == #[trigger] colour(
                y,
            ) implies x == y by {
            assert(queue.contains(x) && queue.contains(y));
            assert(nodes.contains(x) && nodes.contains(y));
            let i = choose|i: int| 0 <= i < nodes.len() && nodes[i] == x;
            let j = choose|j: int| 0 <= j < nodes.len() && nodes[j] == y;
            if i != j {
                assert(overlap(nodes[i], nodes[j]));
            }
        }
    }
    vstd::set_lib::lemma_map_size(crowd, image, colour);
    vstd::set_lib::lemma_int_range(0, m as int);
    assert(image.subset_of(vstd::set_lib::set_int_range(0, m as int))) by {
        assert forall|v: int| image.contains(v) implies vstd::set_lib::set_int_range(
            0,
            m as int,
        ).contains(v) by {
            let x = choose|x: Node| crowd.contains(x) && v == colour(x);
            assert(queue.contains(x));
            assert(nodes.contains(x));
            let i = choose|i: int| 0 <= i < nodes.len() && nodes[i] == x;
            assert(0 <= colour(nodes[i]) < m);
        }
    }
    vstd::set_lib::lemma_len_subset(image, vstd::set_lib::set_int_range(0, m as int));
}

/// Places the nodes, sorted, on chains; returns the chains as vectors of
/// ids, the class of colour `c` at index `c`.
pub fn chains_from(nodes: &Vec<Node>) -> (classes: Vec<Vec<u64>>)
    ensures
        crate::dominate::chains_view(classes) == classes_of(coloring(nodes@)),
{
    let queue = sorted(nodes);
    let mut classes: Vec<Vec<u64>> = Vec::new();
    let mut bounds: Vec<u64> = Vec::new();
    let ghost mut chains: Seq<Seq<Node>> = Seq::empty();
    let mut i: usize = 0;
    assert(queue@.take(0) =~= Seq::<Node>::empty());
    while i < queue.len()
        invariant
            0 <= i <= queue.len(),
            chains == chains_of(queue@.take(i as int)),
            classes.len() == chains.len(),
            bounds.len() == chains.len(),
            forall|c: int|
                0 <= c < chains.len() ==> {
                    &&& (#[trigger] chains[c]).len() > 0
                    &&& bounds@[c] == chains[c].last().upper
                    &&& classes@[c]@ == ids_of(chains[c])
                },
        decreases queue.len() - i,
    {
        let node = queue[i];
        let mut c: usize = 0;
        while c < bounds.len() && bounds[c] >= node.lower
            invariant
                0 <= c <= bounds.len(),
                bounds.len() == chains.len(),
                forall|d: int|
                    0 <= d < chains.len() ==> bounds@[d] == (#[trigger] chains[d]).last().upper,
                forall|d: int| 0 <= d < c ==> !fits(#[trigger] chains[d], node),
            decreases bounds.len() - c,
        {
            c += 1;
        }
        proof {
            assert(is_first_fit(chains, node, c as int));
            lemma_first_fit(chains, node, c as int);
            assert(queue@.take(i + 1).drop_last() =~= queue@.take(i as int));
            assert(queue@.take(i + 1).last() == node);
        }
        if c < classes.len() {
            classes[c].push(node.id);
            bounds[c] = node.upper;
            proof {
                let before = chains;
                chains = place(before, node);
                assert(ids_of(before[c as int].push(node)) =~= ids_of(before[c as int]).push(
                    node.id,
                ));
            }
        } else {
            let mut class: Vec<u64> = Vec::new();
            class.push(node.id);
            classes.push(class);
            bounds.push(node.upper);
            proof {
                chains = place(chains, node);
                assert(ids_of(seq![node]) =~= seq![node.id]);
            }
        }
        i += 1;
    }
    assert(queue@.take(queue.len() as int) =~= queue@);
    assert(crate::dominate::chains_view(classes) =~= classes_of(chains));
    classes
}

} // verus!
