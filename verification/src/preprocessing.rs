//! The relation builder: linked up-sets and down-sets and the adjacency
//! mapping of a poset given by its cover edges.
use crate::collect::adjacency;
use crate::collect::neighbours;
use std::collections::HashMap;
use std::collections::HashSet;
use vstd::prelude::*;

verus! {

/// One entry of a linked set.
#[derive(Debug, Clone, Copy, PartialEq, Eq)]
pub enum VecInner {
    /// An element that belongs to the set directly.
    Num(u64),
    /// Everything in the set of the same kind (up or down) that the store
    /// holds for `target`, by reference. An owning link keeps its target
    /// alive in a store with shared ownership; a store that is a plain
    /// mapping cannot promise that for either kind.
    Link { target: u64, owning: bool },
}

/// A linked set: direct members and links into the sets of other elements.
#[derive(Debug, Clone)]
pub struct SharedSet(pub Vec<VecInner>);

impl View for SharedSet {
    type V = Seq<VecInner>;

    open spec fn view(&self) -> Seq<VecInner> {
        self.0@
    }
}

/// The linked up-set and down-set of one element.
#[derive(Debug, Clone)]
pub struct UpDown {
    /// The elements above: direct successors, and links to their up-sets.
    pub upset: SharedSet,
    /// The elements below: direct predecessors, and links to their down-sets.
    pub downset: SharedSet,
}

/// The linked sets of one kind that a store holds, by element: the up-sets
/// where `up` holds, the down-sets otherwise.
pub open spec fn side(m: Map<u64, UpDown>, up: bool) -> Map<u64, Seq<VecInner>> {
    Map::new(
        |v: u64| m.contains_key(v),
        |v: u64|
            if up {
                m[v].upset@
            } else {
                m[v].downset@
            },
    )
}


/// The elements that the edges mention.
pub open spec fn elements(edges: Seq<(u64, u64)>) -> Set<u64> {
    Set::new(
        |v: u64|
            exists|i: int|
                0 <= i < edges.len() && ((#[trigger] edges[i]).0 == v || edges[i].1 == v),
    )
}

/// An edge joins `v` and `w`, in either direction.
pub open spec fn adjacent(edges: Seq<(u64, u64)>, v: u64, w: u64) -> bool {
    edges.contains((v, w)) || edges.contains((w, v))
}

/// The adjacency mapping of the edges: every element that they mention,
/// with the elements that an edge joins it to.
pub open spec fn topology_of(edges: Seq<(u64, u64)>) -> Map<u64, Set<u64>> {
    Map::new(|v: u64| elements(edges).contains(v), |v: u64| Set::new(|w: u64| adjacent(edges, v, w)))
}

/// The linked up-set of `v`: for every edge from `v` to some `b`, in the
/// order of the edges, `b` itself and a non-owning link to the up-set of `b`.
pub open spec fn up_entries(edges: Seq<(u64, u64)>, v: u64) -> Seq<VecInner>
    decreases edges.len(),
{
    if edges.len() == 0 {
        Seq::empty()
    } else if edges.last().0 == v {
        up_entries(edges.drop_last(), v).push(VecInner::Num(edges.last().1)).push(
            VecInner::Link { target: edges.last().1, owning: false },
        )
    } else {
        up_entries(edges.drop_last(), v)
    }
}

/// The linked down-set of `v`: for every edge from some `a` to `v`, in the
/// order of the edges, `a` itself and an owning link to the down-set of `a`.
pub open spec fn down_entries(edges: Seq<(u64, u64)>, v: u64) -> Seq<VecInner>
    decreases edges.len(),
{
    if edges.len() == 0 {
        Seq::empty()
    } else if edges.last().1 == v {
        down_entries(edges.drop_last(), v).push(VecInner::Num(edges.last().0)).push(
            VecInner::Link { target: edges.last().0, owning: true },
        )
    } else {
        down_entries(edges.drop_last(), v)
    }
}

/// The store holds exactly the elements of the edges, each with its linked
/// up-set and down-set.
pub open spec fn relates(m: Map<u64, UpDown>, edges: Seq<(u64, u64)>) -> bool {
    &&& m.dom() == elements(edges)
    &&& forall|v: u64| #[trigger]
        m.contains_key(v) ==> m[v].upset@ == up_entries(edges, v) && m[v].downset@
            == down_entries(edges, v)
}

/// The linked up-set of `v` in a store; empty where the store lacks `v`.
pub open spec fn up_in(m: Map<u64, UpDown>, v: u64) -> Seq<VecInner> {
    if m.contains_key(v) {
        m[v].upset@
    } else {
        Seq::empty()
    }
}

/// The linked down-set of `v` in a store; empty where the store lacks `v`.
pub open spec fn down_in(m: Map<u64, UpDown>, v: u64) -> Seq<VecInner> {
    if m.contains_key(v) {
        m[v].downset@
    } else {
        Seq::empty()
    }
}

/// A source of edges.
pub trait GraphConvertable<T: EdgeLike> {
    /// The edges, in order.
    fn split(&self) -> Vec<T>;
}

/// One cover edge of a poset.
pub trait EdgeLike {
    /// The element below and the element above.
    fn split_edge(&self) -> (u64, u64);
}

impl EdgeLike for (u64, u64) {
    fn split_edge(&self) -> (r: (u64, u64))
        ensures
            r == *self,
    {
        (self.0, self.1)
    }
}

impl GraphConvertable<(u64, u64)> for Vec<(u64, u64)> {
    fn split(&self) -> (r: Vec<(u64, u64)>)
        ensures
            r@ == self@,
    {
        let mut edges: Vec<(u64, u64)> = Vec::new();
        let mut i: usize = 0;
        while i < self.len()
            invariant
                0 <= i <= self.len(),
                edges@ == self@.take(i as int),
            decreases self.len() - i,
        {
            edges.push(self[i]);
            assert(self@.take(i + 1) =~= self@.take(i as int).push(self@[i as int]));
            i += 1;
        }
        assert(self@.take(self.len() as int) =~= self@);
        edges
    }
}

/// Makes `v2` adjacent to `v1`.
pub fn add_to_toplist(topology_list: &mut HashMap<u64, HashSet<u64>>, v1: u64, v2: u64)
    ensures
        adjacency(*final(topology_list)) == adjacency(*old(topology_list)).insert(
            v1,
            neighbours(adjacency(*old(topology_list)), v1).insert(v2),
        ),
{
    broadcast use vstd::std_specs::hash::group_hash_axioms;

    let ghost before = adjacency(*topology_list);
    let mut deg = match topology_list.remove(&v1) {
        Some(deg) => deg,
        None => HashSet::new(),
    };
    deg.insert(v2);
    topology_list.insert(v1, deg);
    assert(adjacency(*topology_list) =~= before.insert(v1, neighbours(before, v1).insert(v2)));
}

/// Puts `v2` into the up-set of `v1`, with a new entry for `v1` where the
/// store has none.
pub fn add_to_updown(map: &mut HashMap<u64, UpDown>, v1: u64, v2: u64)
    ensures
        final(map)@.dom() == old(map)@.dom().insert(v1),
        final(map)@[v1].upset@ == up_in(old(map)@, v1).push(VecInner::Num(v2)),
        final(map)@[v1].downset@ == down_in(old(map)@, v1),
        forall|k: u64| k != v1 && old(map)@.contains_key(k) ==> final(map)@[k] == old(map)@[k],
{
    broadcast use vstd::std_specs::hash::group_hash_axioms;

    let mut adj_list = match map.remove(&v1) {
        Some(adj_list) => adj_list,
        None => UpDown { downset: SharedSet(Vec::new()), upset: SharedSet(Vec::new()) },
    };
    adj_list.upset.0.push(VecInner::Num(v2));
    map.insert(v1, adj_list);
}

/// Puts `v1` into the down-set of `v2`, and an owning link to the down-set
/// of `v1` behind it, with a new entry for `v2` where the store has none.
pub fn add_to_updown2nd(map: &mut HashMap<u64, UpDown>, v1: u64, v2: u64)
    requires
        old(map)@.contains_key(v1),
    ensures
        final(map)@.dom() == old(map)@.dom().insert(v2),
        final(map)@[v2].downset@ == down_in(old(map)@, v2).push(VecInner::Num(v1)).push(
            VecInner::Link { target: v1, owning: true },
        ),
        final(map)@[v2].upset@ == up_in(old(map)@, v2),
        forall|k: u64| k != v2 && old(map)@.contains_key(k) ==> final(map)@[k] == old(map)@[k],
{
    broadcast use vstd::std_specs::hash::group_hash_axioms;

    let mut adj_list = match map.remove(&v2) {
        Some(adj_list) => adj_list,
        None => UpDown { downset: SharedSet(Vec::new()), upset: SharedSet(Vec::new()) },
    };
    adj_list.downset.0.push(VecInner::Num(v1));
    adj_list.downset.0.push(VecInner::Link { target: v1, owning: true });
    map.insert(v2, adj_list);
}

/// Puts a non-owning link to the up-set of `v2` into the up-set of `v1`.
fn link_up(map: &mut HashMap<u64, UpDown>, v1: u64, v2: u64)
    requires
        old(map)@.contains_key(v1),
    ensures
        final(map)@.dom() == old(map)@.dom(),
        final(map)@[v1].upset@ == old(map)@[v1].upset@.push(
            VecInner::Link { target: v2, owning: false },
        ),
        final(map)@[v1].downset@ == old(map)@[v1].downset@,
        forall|k: u64| k != v1 && old(map)@.contains_key(k) ==> final(map)@[k] == old(map)@[k],
{
    broadcast use vstd::std_specs::hash::group_hash_axioms;

    let ghost before = map@;
    match map.remove(&v1) {
        Some(found) => {
            let mut adj_list = found;
            adj_list.upset.0.push(VecInner::Link { target: v2, owning: false });
            map.insert(v1, adj_list);
            assert(map@.dom() =~= before.dom());
        },
        None => {},
    }
}


/// An element that no edge mentions has empty linked sets.
pub proof fn lemma_entries_absent(edges: Seq<(u64, u64)>, v: u64)
    requires
        !elements(edges).contains(v),
    ensures
        up_entries(edges, v) == Seq::<VecInner>::empty(),
        down_entries(edges, v) == Seq::<VecInner>::empty(),
    decreases edges.len(),
{
    if edges.len() > 0 {
        let init = edges.drop_last();
        assert(edges[edges.len() - 1].0 != v && edges[edges.len() - 1].1 != v);
        assert(!elements(init).contains(v)) by {
            if elements(init).contains(v) {
                let i = choose|i: int|
                    0 <= i < init.len() && ((#[trigger] init[i]).0 == v || init[i].1 == v);
                assert(edges[i].0 == v || edges[i].1 == v);
            }
        }
        lemma_entries_absent(init, v);
    }
}

/// One more edge adds its two ends to the elements.
pub proof fn lemma_elements_push(edges: Seq<(u64, u64)>, e: (u64, u64))
    ensures
        elements(edges.push(e)) == elements(edges).insert(e.0).insert(e.1),
{
    let more = edges.push(e);
    assert forall|v: u64| elements(more).contains(v) <==> elements(edges).insert(e.0).insert(
        e.1,
    ).contains(v) by {
        if elements(more).contains(v) {
            let i = choose|i: int|
                0 <= i < more.len() && ((#[trigger] more[i]).0 == v || more[i].1 == v);
            if i < edges.len() {
                assert(edges[i].0 == v || edges[i].1 == v);
            }
        }
        if elements(edges).contains(v) {
            let i = choose|i: int|
                0 <= i < edges.len() && ((#[trigger] edges[i]).0 == v || edges[i].1 == v);
            assert(more[i].0 == v || more[i].1 == v);
        }
        if v == e.0 || v == e.1 {
            assert(more[edges.len() as int].0 == v || more[edges.len() as int].1 == v);
        }
    }
    assert(elements(more) =~= elements(edges).insert(e.0).insert(e.1));
}

/// One more edge makes its two ends adjacent to each other.
pub proof fn lemma_topology_push(edges: Seq<(u64, u64)>, e: (u64, u64))
    ensures
        topology_of(edges.push(e)) == ({
            let first = topology_of(edges);
            let second = first.insert(e.0, neighbours(first, e.0).insert(e.1));
            second.insert(e.1, neighbours(second, e.1).insert(e.0))
        }),
{
    let more = edges.push(e);
    let first = topology_of(edges);
    let second = first.insert(e.0, neighbours(first, e.0).insert(e.1));
    let third = second.insert(e.1, neighbours(second, e.1).insert(e.0));
    lemma_elements_push(edges, e);
    assert forall|v: u64, w: u64| adjacent(more, v, w) <==> (adjacent(edges, v, w) || (v == e.0
        && w == e.1) || (v == e.1 && w == e.0)) by {
        assert forall|x: (u64, u64)| more.contains(x) <==> (edges.contains(x) || x == e) by {
            if more.contains(x) {
                let i = choose|i: int| 0 <= i < more.len() && more[i] == x;
                if i < edges.len() {
                    assert(edges[i] == x);
                }
            }
            if edges.contains(x) {
                let i = choose|i: int| 0 <= i < edges.len() && edges[i] == x;
                assert(more[i] == x);
            }
            if x == e {
                assert(more[edges.len() as int] == x);
            }
        }
    }
    assert forall|v: u64, w: u64| adjacent(edges, v, w) implies elements(edges).contains(v) by {
        if edges.contains((v, w)) {
            let i = choose|i: int| 0 <= i < edges.len() && edges[i] == (v, w);
            assert(edges[i].0 == v);
        } else {
            let i = choose|i: int| 0 <= i < edges.len() && edges[i] == (w, v);
            assert(edges[i].1 == v);
        }
    }
    assert forall|v: u64| third.contains_key(v) implies #[trigger] topology_of(more)[v]
        =~= third[v] by {
        assert forall|w: u64| topology_of(more)[v].contains(w) <==> third[v].contains(w) by {
            assert(topology_of(more)[v].contains(w) <==> adjacent(more, v, w));
            if first.contains_key(v) {
                assert(first[v].contains(w) <==> adjacent(edges, v, w));
            } else {
                assert(!adjacent(edges, v, w));
            }
        }
    }
    assert(topology_of(more) =~~= third);
}

/// Builds the linked up-sets and down-sets and the adjacency mapping from
/// the cover edges, taken in order.
pub fn relations(edges: &Vec<(u64, u64)>) -> (r: (HashMap<u64, UpDown>, HashMap<u64, HashSet<u64>>))
    ensures
        relates(r.0@, edges@),
        adjacency(r.1) == topology_of(edges@),
        forall|i: int|
            0 <= i < edges@.len() ==> {
                &&& neighbours(adjacency(r.1), (#[trigger] edges@[i]).0).contains(edges@[i].1)
                &&& neighbours(adjacency(r.1), edges@[i].1).contains(edges@[i].0)
            },
{
    broadcast use vstd::std_specs::hash::group_hash_axioms;

    let mut map: HashMap<u64, UpDown> = HashMap::new();
    let mut topology_list: HashMap<u64, HashSet<u64>> = HashMap::new();
    let mut i: usize = 0;
    proof {
        assert(edges@.take(0) =~= Seq::<(u64, u64)>::empty());
        assert(elements(edges@.take(0)) =~= Set::<u64>::empty());
        assert(map@.dom() =~= elements(edges@.take(0)));
        assert(adjacency(topology_list) =~~= topology_of(edges@.take(0)));
    }
    while i < edges.len()
        invariant
            0 <= i <= edges.len(),
            relates(map@, edges@.take(i as int)),
            adjacency(topology_list) == topology_of(edges@.take(i as int)),
        decreases edges.len() - i,
    {
        let (v1, v2) = edges[i];
        let ghost done = edges@.take(i as int);
        let ghost more = edges@.take(i + 1);
        let ghost before = map@;
        proof {
            assert(more =~= done.push((v1, v2)));
            assert(more.drop_last() =~= done);
            lemma_topology_push(done, (v1, v2));
            lemma_elements_push(done, (v1, v2));
            if !elements(done).contains(v1) {
                lemma_entries_absent(done, v1);
            }
            if !elements(done).contains(v2) {
                lemma_entries_absent(done, v2);
            }
        }
        add_to_toplist(&mut topology_list, v1, v2);
        add_to_toplist(&mut topology_list, v2, v1);
        add_to_updown(&mut map, v1, v2);
        let ghost second = map@;
        add_to_updown2nd(&mut map, v1, v2);
        let ghost third = map@;
        link_up(&mut map, v1, v2);
        proof {
            assert(map@.dom() =~= elements(more));
            assert forall|v: u64| #[trigger] map@.contains_key(v) implies map@[v].upset@
                == up_entries(more, v) && map@[v].downset@ == down_entries(more, v) by {
                if v != v1 && v != v2 {
                    assert(before.contains_key(v));
                    assert(second[v] == before[v]);
                    assert(third[v] == second[v]);
                    assert(map@[v] == third[v]);
                } else if v == v1 && v != v2 {
                    assert(third[v] == second[v]);
                } else if v == v2 && v != v1 {
                    if before.contains_key(v) {
                        assert(second[v] == before[v]);
                    }
                    assert(map@[v] == third[v]);
                } else {
                }
            }
        }
        i += 1;
    }
    proof {
        assert(edges@.take(edges.len() as int) =~= edges@);
        lemma_edges_adjacent(edges@);
    }
    (map, topology_list)
}

/// The two ends of every edge are adjacent to each other.
pub proof fn lemma_edges_adjacent(edges: Seq<(u64, u64)>)
    ensures
        forall|i: int|
            0 <= i < edges.len() ==> {
                &&& neighbours(topology_of(edges), (#[trigger] edges[i]).0).contains(edges[i].1)
                &&& neighbours(topology_of(edges), edges[i].1).contains(edges[i].0)
            },
{
    assert forall|i: int| 0 <= i < edges.len() implies {
        &&& neighbours(topology_of(edges), (#[trigger] edges[i]).0).contains(edges[i].1)
        &&& neighbours(topology_of(edges), edges[i].1).contains(edges[i].0)
    } by {
        let a = edges[i].0;
        let b = edges[i].1;
        assert(edges.contains((a, b)));
        assert(elements(edges).contains(a));
        assert(elements(edges).contains(b));
        assert(adjacent(edges, a, b));
        assert(adjacent(edges, b, a));
    }
}

/// `edges` is what the source may hand out: `split` may return some parts
/// for `buff`, and `split_edge` may return `edges[i]` for the part at `i`.
pub open spec fn hands_out<I: EdgeLike, T: GraphConvertable<I>>(
    buff: T,
    edges: Seq<(u64, u64)>,
) -> bool {
    exists|parts: Vec<I>|
        {
            &&& #[trigger] call_ensures(T::split, (&buff,), parts)
            &&& edges.len() == parts@.len()
            &&& forall|i: int|
                0 <= i < parts@.len() ==> call_ensures(
                    I::split_edge,
                    (&parts@[i],),
                    #[trigger] edges[i],
                )
        }
}

/// Builds the linked sets and the adjacency mapping from the edges that
/// `buff` hands out, taken in order.
pub fn parse_buff<I: EdgeLike, T: GraphConvertable<I>>(buff: T) -> (r: (
    HashMap<u64, UpDown>,
    HashMap<u64, HashSet<u64>>,
))
    ensures
        exists|edges: Seq<(u64, u64)>|
            {
                &&& #[trigger] hands_out::<I, T>(buff, edges)
                &&& relates(r.0@, edges)
                &&& adjacency(r.1) == topology_of(edges)
            },
{
    let parts = buff.split();
    let mut edges: Vec<(u64, u64)> = Vec::new();
    let mut i: usize = 0;
    while i < parts.len()
        invariant
            0 <= i <= parts.len(),
            edges@.len() == i,
            forall|k: int|
                0 <= k < i ==> call_ensures(I::split_edge, (&parts@[k],), #[trigger] edges@[k]),
        decreases parts.len() - i,
    {
        let edge = parts[i].split_edge();
        edges.push(edge);
        i += 1;
    }
    let r = relations(&edges);
    proof {
        assert(call_ensures(T::split, (&buff,), parts));
        assert(hands_out::<I, T>(buff, edges@));
    }
    r
}

} // verus!
