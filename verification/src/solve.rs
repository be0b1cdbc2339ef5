//! The whole computation, from cover edges to a dominating set.
use crate::coloring::Node;
use crate::coloring::classes_of;
use crate::coloring::coloring;
use crate::coloring::coloring_map;
use crate::coloring::is_id;
use crate::dominate::dominated;
use crate::dominate::dominators;
use crate::interval::ColoringError;
use crate::interval::Interval;
use crate::interval::down_sets;
use crate::interval::embeds;
use crate::interval::odd_classes;
use crate::interval::resolves;
use crate::interval::up_sets;
use crate::order::increasing;
use crate::order::lemma_increasing_unique;
use crate::poset::canonical_sets;
use crate::poset::lemma_built_resolves;
use crate::poset::lemma_side_of_relates;
use crate::poset::store_of;
use crate::preprocessing::UpDown;
use crate::preprocessing::elements;
use crate::preprocessing::relates;
use crate::preprocessing::relations;
use crate::preprocessing::side;
use crate::preprocessing::topology_of;
use crate::rank::distinct_count;
use crate::rank::rank;
use vstd::prelude::*;

verus! {

/// `nodes` is the interval embedding of the poset of the edges: one node
/// per element, in increasing order of id, with the rank of the element's
/// canonical down-set (ascending by size) as lower bound and the rank of its
/// canonical up-set (descending by size) as upper bound.
pub open spec fn interval_of(nodes: Seq<Node>, edges: Seq<(u64, u64)>) -> bool {
    &&& forall|i: int, j: int| 0 <= i < j < nodes.len() ==> nodes[i].id < nodes[j].id
    &&& forall|v: u64|
        elements(edges).contains(v) <==> exists|i: int|
            0 <= i < nodes.len() && #[trigger] nodes[i].id == v
    &&& forall|i: int|
        0 <= i < nodes.len() ==> {
            &&& (#[trigger] nodes[i]).lower == rank(canonical_sets(edges, false), false, nodes[i].id)
            &&& nodes[i].upper == rank(canonical_sets(edges, true), true, nodes[i].id)
        }
}

/// The interval embedding of the poset of the edges.
pub open spec fn embedding(edges: Seq<(u64, u64)>) -> Seq<Node> {
    choose|nodes: Seq<Node>| interval_of(nodes, edges)
}

/// What the computation yields for the edges: `TwoPlusTwoFound` where the
/// numbers of distinct canonical up-sets and down-sets differ, otherwise
/// `OutsideAlgoScope` where a colour of the colouring has an even number of
/// elements, otherwise the dominating set.
pub open spec fn outcome(edges: Seq<(u64, u64)>) -> Result<Seq<u64>, ColoringError> {
    if distinct_count(canonical_sets(edges, true)) != distinct_count(canonical_sets(edges, false)) {
        Err(ColoringError::TwoPlusTwoFound)
    } else if !odd_classes(coloring_map(classes_of(coloring(embedding(edges))))) {
        Err(ColoringError::OutsideAlgoScope)
    } else {
        Ok(dominators(classes_of(coloring(embedding(edges))), topology_of(edges)))
    }
}

/// The ids of the nodes, in order.
pub open spec fn node_ids(nodes: Seq<Node>) -> Seq<u64> {
    Seq::new(nodes.len(), |i: int| nodes[i].id)
}

/// A poset has one interval embedding.
pub proof fn lemma_interval_unique(a: Seq<Node>, b: Seq<Node>, edges: Seq<(u64, u64)>)
    requires
        interval_of(a, edges),
        interval_of(b, edges),
    ensures
        a == b,
{
    let ia = node_ids(a);
    let ib = node_ids(b);
    assert(increasing(ia));
    assert(increasing(ib));
    assert forall|v: u64| ia.to_set().contains(v) <==> ib.to_set().contains(v) by {
        if ia.contains(v) {
            let i = choose|i: int| 0 <= i < ia.len() && ia[i] == v;
            assert(a[i].id == v);
            assert(elements(edges).contains(v));
            let j = choose|j: int| 0 <= j < b.len() && #[trigger] b[j].id == v;
            assert(ib[j] == v);
        }
        if ib.contains(v) {
            let i = choose|i: int| 0 <= i < ib.len() && ib[i] == v;
            assert(b[i].id == v);
            assert(elements(edges).contains(v));
            let j = choose|j: int| 0 <= j < a.len() && #[trigger] a[j].id == v;
            assert(ia[j] == v);
        }
    }
    assert(ia.to_set() =~= ib.to_set());
    lemma_increasing_unique(ia, ib);
    assert(ia.len() == a.len() && ib.len() == b.len());
    assert(ia == ib);
    assert(a.len() == b.len());
    assert forall|i: int| 0 <= i < a.len() implies a[i] == b[i] by {
        assert(ia[i] == ib[i]);
        assert(a[i].id == b[i].id);
    }
    assert(a =~= b);
}

/// The embedding of a store that was built from the edges is the embedding
/// of the edges; such a store resolves.
pub proof fn lemma_built_store(m: Map<u64, UpDown>, edges: Seq<(u64, u64)>)
    requires
        relates(m, edges),
    ensures
        resolves(m),
        up_sets(m) == canonical_sets(edges, true),
        down_sets(m) == canonical_sets(edges, false),
        forall|nodes: Seq<Node>| embeds(nodes, m) <==> interval_of(nodes, edges),
{
    lemma_side_of_relates(m, edges, true);
    lemma_side_of_relates(m, edges, false);
    assert forall|v: u64| #[trigger] m.contains_key(v) implies !crate::resolve::dangles(
        side(m, true),
        m[v].upset@,
    ) && !crate::resolve::dangles(side(m, false), m[v].downset@) by {
        lemma_built_resolves(edges, true, v);
        lemma_built_resolves(edges, false, v);
        assert(store_of(edges, true)[v] == m[v].upset@);
        assert(store_of(edges, false)[v] == m[v].downset@);
    }
    assert(up_sets(m) =~= canonical_sets(edges, true)) by {
        assert forall|v: u64| up_sets(m).contains_key(v) implies #[trigger] up_sets(m)[v]
            == canonical_sets(edges, true)[v] by {
            assert(store_of(edges, true)[v] == m[v].upset@);
        }
    }
    assert(down_sets(m) =~= canonical_sets(edges, false)) by {
        assert forall|v: u64| down_sets(m).contains_key(v) implies #[trigger] down_sets(m)[v]
            == canonical_sets(edges, false)[v] by {
            assert(store_of(edges, false)[v] == m[v].downset@);
        }
    }
    assert forall|nodes: Seq<Node>| embeds(nodes, m) <==> interval_of(nodes, edges) by {
        assert(forall|v: u64| m.contains_key(v) <==> elements(edges).contains(v));
    }
}

/// Computes a dominating set of the poset with the given cover edges: the
/// relations are built, resolved and ranked into intervals, the intervals
/// are coloured into chains, and the dominating set is selected from the
/// chains. Every element of the poset is then chosen, or adjacent to a
/// chosen element, or adjacent to a neighbour of one.
pub fn dominating_set(edges: &Vec<(u64, u64)>) -> (r: Result<Vec<u64>, ColoringError>)
    ensures
        match r {
            Ok(chosen) => {
                &&& outcome(edges@) == Ok::<Seq<u64>, ColoringError>(chosen@)
                &&& forall|v: u64|
                    elements(edges@).contains(v) ==> dominated(topology_of(edges@), chosen@, v)
                &&& forall|k: int|
                    0 <= k < chosen@.len() ==> elements(edges@).contains(#[trigger] chosen@[k])
                &&& chosen@.no_duplicates()
            },
            Err(e) => outcome(edges@) == Err::<Seq<u64>, ColoringError>(e),
        },
{
    let (map, topology_list) = relations(edges);
    proof {
        lemma_built_store(map@, edges@);
    }
    let interval = match Interval::new(map) {
        Ok(interval) => interval,
        Err(e) => {
            return Err(e);
        },
    };
    proof {
        assert(interval_of(interval@, edges@));
        lemma_interval_unique(interval@, embedding(edges@), edges@);
    }
    let r = interval.find_dominating_set(topology_list);
    proof {
        if r is Ok {
            let chosen = r->Ok_0;
            assert forall|v: u64| elements(edges@).contains(v) implies dominated(
                topology_of(edges@),
                chosen@,
                v,
            ) by {
                assert(is_id(interval@, v));
            }
            assert forall|k: int| 0 <= k < chosen@.len() implies elements(edges@).contains(
                #[trigger] chosen@[k],
            ) by {
                assert(is_id(interval@, chosen@[k]));
            }
        }
    }
    r
}

} // verus!
