//! The interval embedding of a poset, its greedy colouring into chains, and
//! the dominating set selected from the chains.
use crate::collect::adjacency;
use crate::collect::keys_of;
use crate::coloring::Node;
use crate::coloring::chains_from;
use crate::coloring::classes_of;
use crate::coloring::coloring;
use crate::coloring::coloring_map;
use crate::coloring::is_id;
use crate::coloring::lemma_coloring_partition;
use crate::dominate::all_visited;
use crate::dominate::chains_view;
use crate::dominate::dominated;
use crate::dominate::dominators;
use crate::dominate::lemma_dominators_dominate;
use crate::dominate::lemma_pass_progress;
use crate::dominate::order_classes;
use crate::dominate::run_pass;
use crate::dominate::select;
use crate::dominate::start;
use crate::dominate::state_of;
use crate::dominate::unvisited;
use crate::order::increasing;
use crate::preprocessing::UpDown;
use crate::preprocessing::VecInner;
use crate::preprocessing::side;
use crate::rank::count_distinct;
use crate::rank::distinct_count;
use crate::rank::leaders;
use crate::rank::rank;
use crate::rank::rank_of;
use crate::rank::sorted_ids;
use crate::rank::table;
use crate::rank::tabled;
use crate::resolve::UnsharedSet;
use crate::resolve::dangles;
use crate::resolve::resolved;
use std::collections::HashMap;
use std::collections::HashSet;
use vstd::prelude::*;

verus! {

broadcast use vstd::std_specs::hash::group_hash_axioms;

/// Why no dominating set is computed.
#[derive(Debug, Clone, Copy, PartialEq, Eq)]
pub enum ColoringError {
    /// The up-sets and the down-sets do not fall into equally many distinct
    /// sets: the poset holds a forbidden 2+2 configuration.
    TwoPlusTwoFound,
    /// A chain of the colouring has an even number of members.
    OutsideAlgoScope,
    /// A link names an element that the store does not hold.
    DanglingLink,
}

/// The canonical up-set of every element of the store.
pub open spec fn up_sets(m: Map<u64, UpDown>) -> Map<u64, Set<u64>> {
    Map::new(|v: u64| m.contains_key(v), |v: u64| resolved(side(m, true), m[v].upset@))
}

/// The canonical down-set of every element of the store.
pub open spec fn down_sets(m: Map<u64, UpDown>) -> Map<u64, Set<u64>> {
    Map::new(|v: u64| m.contains_key(v), |v: u64| resolved(side(m, false), m[v].downset@))
}

/// No link chain of any set of the store ends outside the store.
pub open spec fn resolves(m: Map<u64, UpDown>) -> bool {
    forall|v: u64| #[trigger]
        m.contains_key(v) ==> !dangles(side(m, true), m[v].upset@) && !dangles(
            side(m, false),
            m[v].downset@,
        )
}

/// `nodes` is the interval embedding of the store: one node per element, in
/// increasing order of id, with the rank of the element's down-set among the
/// distinct down-sets by ascending size as lower bound, and the rank of its
/// up-set among the distinct up-sets by descending size as upper bound.
pub open spec fn embeds(nodes: Seq<Node>, m: Map<u64, UpDown>) -> bool {
    &&& forall|i: int, j: int| 0 <= i < j < nodes.len() ==> nodes[i].id < nodes[j].id
    &&& forall|v: u64|
        m.contains_key(v) <==> exists|i: int| 0 <= i < nodes.len() && #[trigger] nodes[i].id == v
    &&& forall|i: int|
        0 <= i < nodes.len() ==> {
            &&& (#[trigger] nodes[i]).lower == rank(down_sets(m), false, nodes[i].id)
            &&& nodes[i].upper == rank(up_sets(m), true, nodes[i].id)
        }
}

/// The interval embedding of a poset.
#[derive(Debug)]
pub struct Interval {
    interval: Vec<Node>,
}

impl View for Interval {
    type V = Seq<Node>;

    closed spec fn view(&self) -> Seq<Node> {
        self.interval@
    }
}

impl Interval {
    /// The nodes stand in increasing order of id.
    #[verifier::type_invariant]
    spec fn ordered_by_id(self) -> bool {
        forall|i: int, j: int|
            0 <= i < j < self.interval@.len() ==> self.interval@[i].id < self.interval@[j].id
    }
}

/// `s` is the canonical set of `entries`, and no link chain of `entries`
/// ends outside the store.
pub open spec fn settles(store: Map<u64, Seq<VecInner>>, entries: Seq<VecInner>, s: UnsharedSet) -> bool {
    &&& s.wf()
    &&& s@ == resolved(store, entries)
    &&& !dangles(store, entries)
}

/// Resolves the up-sets (or the down-sets) of the elements `ks` of the store.
fn resolve_all(map: &HashMap<u64, UpDown>, ks: &Vec<u64>, up: bool) -> (r: Result<
    Vec<UnsharedSet>,
    ColoringError,
>)
    requires
        ks@.to_set() == map@.dom(),
        increasing(ks@),
    ensures
        match r {
            Ok(canon) => {
                &&& tabled(ks@, canon@)
                &&& forall|v: u64| #[trigger]
                    map@.contains_key(v) ==> !dangles(
                        side(map@, up),
                        side(map@, up)[v],
                    )
                &&& table(ks@, canon@) == Map::new(
                    |v: u64| map@.contains_key(v),
                    |v: u64| resolved(side(map@, up), side(map@, up)[v]),
                )
            },
            Err(e) => {
                &&& e == ColoringError::DanglingLink
                &&& exists|v: u64| #[trigger]
                    map@.contains_key(v) && dangles(side(map@, up), side(map@, up)[v])
            },
        },
{
    let ghost store = side(map@, up);
    let mut canon: Vec<UnsharedSet> = Vec::new();
    let mut i: usize = 0;
    while i < ks.len()
        invariant
            0 <= i <= ks.len(),
            ks@.to_set() == map@.dom(),
            store == side(map@, up),
            canon.len() == i,
            forall|k: int| 0 <= k < i ==> settles(store, store[ks@[k]], #[trigger] canon@[k]),
        decreases ks.len() - i,
    {
        let v = ks[i];
        assert(ks@.contains(ks@[i as int]));
        assert(ks@.to_set().contains(v));
        let found = map.get(&v);
        assert(found is Some);
        let both = found.unwrap();
        let set = if up {
            &both.upset
        } else {
            &both.downset
        };
        assert(set@ == store[v]);
        match UnsharedSet::from_set(map, up, set) {
            Ok(s) => {
                assert(settles(store, store[v], s));
                canon.push(s);
            },
            Err(_) => {
                assert(map@.contains_key(v) && dangles(store, store[v]));
                return Err(ColoringError::DanglingLink);
            },
        }
        i += 1;
    }
    proof {
        crate::order::lemma_increasing_len(ks@);
        assert forall|v: u64| #[trigger] map@.contains_key(v) implies !dangles(store, store[v]) by {
            assert(ks@.to_set().contains(v));
            assert(ks@.contains(v));
            let k = choose|k: int| 0 <= k < ks@.len() && ks@[k] == v;
            assert(settles(store, store[ks@[k]], canon@[k]));
        }
        let want = Map::new(|v: u64| map@.contains_key(v), |v: u64| resolved(store, store[v]));
        assert forall|v: u64| table(ks@, canon@).contains_key(v) <==> want.contains_key(v) by {
            assert(ks@.to_set().contains(v) <==> ks@.contains(v));
        }
        assert forall|v: u64| table(ks@, canon@).contains_key(v) implies table(ks@, canon@)[v]
            == want[v] by {
            let k = ks@.index_of(v);
            assert(settles(store, store[ks@[k]], canon@[k]));
        }
        assert forall|k: int| 0 <= k < canon@.len() implies (#[trigger] canon@[k]).wf() by {
            assert(settles(store, store[ks@[k]], canon@[k]));
        }
        assert(table(ks@, canon@) =~= want);
    }
    Ok(canon)
}

impl Interval {
    /// Builds the interval embedding of the store. Fails with `DanglingLink`
    /// where a link chain ends outside the store, and otherwise with
    /// `TwoPlusTwoFound` where the numbers of distinct canonical up-sets and
    /// distinct canonical down-sets differ.
    pub fn new(map: HashMap<u64, UpDown>) -> (r: Result<Self, ColoringError>)
        ensures
            match r {
                Ok(iv) => {
                    &&& resolves(map@)
                    &&& distinct_count(up_sets(map@)) == distinct_count(down_sets(map@))
                    &&& embeds(iv@, map@)
                },
                Err(ColoringError::DanglingLink) => !resolves(map@),
                Err(ColoringError::TwoPlusTwoFound) => {
                    &&& resolves(map@)
                    &&& distinct_count(up_sets(map@)) != distinct_count(down_sets(map@))
                },
                Err(ColoringError::OutsideAlgoScope) => false,
            },
    {
        let ids = keys_of(&map);
        let ks = sorted_ids(&ids);
        let ups = match resolve_all(&map, &ks, true) {
            Ok(canon) => canon,
            Err(_) => {
                return Err(ColoringError::DanglingLink);
            },
        };
        let downs = match resolve_all(&map, &ks, false) {
            Ok(canon) => canon,
            Err(_) => {
                return Err(ColoringError::DanglingLink);
            },
        };
        proof {
            assert(table(ks@, ups@) =~= up_sets(map@));
            assert(table(ks@, downs@) =~= down_sets(map@));
            assert(resolves(map@));
        }
        let lead_up = leaders(&ups);
        let lead_down = leaders(&downs);
        if count_distinct(&ks, &ups, &lead_up) != count_distinct(&ks, &downs, &lead_down) {
            return Err(ColoringError::TwoPlusTwoFound);
        }
        let mut interval: Vec<Node> = Vec::new();
        let mut i: usize = 0;
        while i < ks.len()
            invariant
                0 <= i <= ks.len(),
                tabled(ks@, ups@),
                tabled(ks@, downs@),
                crate::rank::leads(ups@, lead_up@),
                crate::rank::leads(downs@, lead_down@),
                interval.len() == i,
                forall|k: int|
                    0 <= k < i ==> {
                        &&& (#[trigger] interval@[k]).id == ks@[k]
                        &&& interval@[k].lower == rank(table(ks@, downs@), false, ks@[k])
                        &&& interval@[k].upper == rank(table(ks@, ups@), true, ks@[k])
                    },
            decreases ks.len() - i,
        {
            let lower = rank_of(&ks, &downs, &lead_down, false, i);
            let upper = rank_of(&ks, &ups, &lead_up, true, i);
            interval.push(Node { id: ks[i], lower: lower as u64, upper: upper as u64 });
            i += 1;
        }
        proof {
            assert forall|v: u64|
                map@.contains_key(v) <==> exists|i: int|
                    0 <= i < interval@.len() && #[trigger] interval@[i].id == v by {
                assert(ks@.to_set().contains(v) <==> ks@.contains(v));
                if ks@.contains(v) {
                    let k = choose|k: int| 0 <= k < ks@.len() && ks@[k] == v;
                    assert(interval@[k].id == v);
                }
                if exists|i: int| 0 <= i < interval@.len() && #[trigger] interval@[i].id == v {
                    let k = choose|i: int| 0 <= i < interval@.len() && #[trigger] interval@[i].id == v;
                    assert(ks@[k] == v);
                }
            }
        }
        Ok(Interval { interval })
    }
}


/// Every class has an odd number of entries.
pub open spec fn all_odd(classes: Seq<Seq<u64>>) -> bool {
    forall|c: int| 0 <= c < classes.len() ==> (#[trigger] classes[c]).len() % 2 == 1
}

/// Every colour has an odd number of elements.
pub open spec fn odd_classes(coloring: Map<u64, Set<u64>>) -> bool {
    forall|c: u64| #[trigger] coloring.contains_key(c) ==> coloring[c].len() % 2 == 1
}

/// Where no id stands twice in a class, the classes have odd numbers of
/// entries exactly if the colours have odd numbers of elements.
pub proof fn lemma_odd_classes(classes: Seq<Seq<u64>>)
    requires
        classes.len() <= u64::MAX,
        forall|c: int|
            0 <= c < classes.len() ==> (#[trigger] classes[c]).to_set().len() == classes[c].len(),
    ensures
        all_odd(classes) <==> odd_classes(coloring_map(classes)),
{
    let coloring = coloring_map(classes);
    if all_odd(classes) {
        assert forall|c: u64| #[trigger] coloring.contains_key(c) implies coloring[c].len() % 2
            == 1 by {
            assert(classes[c as int].to_set().len() == classes[c as int].len());
        }
    }
    if odd_classes(coloring) {
        assert forall|c: int| 0 <= c < classes.len() implies (#[trigger] classes[c]).len() % 2
            == 1 by {
            assert(coloring.contains_key(c as u64));
            assert(coloring[c as u64] == classes[c].to_set());
        }
    }
}

/// The number of members of all classes together.
pub open spec fn total_len(classes: Seq<Seq<u64>>) -> nat
    decreases classes.len(),
{
    if classes.len() == 0 {
        0
    } else {
        total_len(classes.drop_last()) + classes.last().len()
    }
}

impl Interval {
    /// The intervals, one per element, in increasing order of id.
    pub fn nodes(&self) -> (nodes: &Vec<Node>)
        ensures
            nodes@ == self@,
            forall|i: int, j: int| 0 <= i < j < nodes@.len() ==> nodes@[i].id < nodes@[j].id,
    {
        proof {
            use_type_invariant(self);
        }
        &self.interval
    }

    /// Colours the intervals greedily into chains: the intervals are taken
    /// by lower bound, then length, then id, and each gets the smallest
    /// colour whose last interval ends before it starts. Returns the
    /// elements of each colour.
    pub fn color(&self) -> (r: HashMap<u64, HashSet<u64>>)
        ensures
            adjacency(r) == coloring_map(classes_of(coloring(self@))),
    {
        let classes = chains_from(&self.interval);
        let ghost all = chains_view(classes);
        let mut coloring: HashMap<u64, HashSet<u64>> = HashMap::new();
        let mut c: usize = 0;
        assert(adjacency(coloring) =~~= coloring_map(all.take(0)));
        while c < classes.len()
            invariant
                0 <= c <= classes.len(),
                all == chains_view(classes),
                adjacency(coloring) == coloring_map(all.take(c as int)),
            decreases classes.len() - c,
        {
            let class = &classes[c];
            let mut set: HashSet<u64> = HashSet::new();
            let mut j: usize = 0;
            assert(class@.take(0).to_set() =~= set@);
            while j < class.len()
                invariant
                    0 <= j <= class.len(),
                    set@ == class@.take(j as int).to_set(),
                decreases class.len() - j,
            {
                proof {
                    class@.lemma_take_succ_push(j as int);
                    class@.take(j as int).lemma_push_to_set_commute(class@[j as int]);
                }
                set.insert(class[j]);
                j += 1;
            }
            assert(class@.take(class.len() as int) =~= class@);
            let ghost before = adjacency(coloring);
            coloring.insert(c as u64, set);
            proof {
                let after = adjacency(coloring);
                let want = coloring_map(all.take(c + 1));
                assert((c as u64) as int == c as int);
                assert(all[c as int] == class@);
                assert forall|k: u64| after.contains_key(k) <==> want.contains_key(k) by {
                    assert(before.contains_key(k) <==> k < c);
                    assert(after.contains_key(k) <==> (k == c as u64 || before.contains_key(k)));
                }
                assert forall|k: u64| after.contains_key(k) implies after[k] == want[k] by {
                    if k < c {
                        assert(before.contains_key(k));
                        assert(after[k] == before[k]);
                        assert(before[k] == coloring_map(all.take(c as int))[k]);
                        assert(all.take(c as int)[k as int] == all.take(c + 1)[k as int]);
                    } else {
                        assert(k == c as u64);
                        assert(after[k] == set@);
                        assert(all.take(c + 1)[k as int] == all[c as int]);
                    }
                }
                assert(after =~= want);
            }
            c += 1;
        }
        assert(all.take(classes.len() as int) =~= all);
        coloring
    }

    /// Selects a dominating set from the chains of the colouring and the
    /// adjacency mapping `deg_vec`. Fails with `OutsideAlgoScope` where a
    /// chain has an even number of members. Otherwise the chains take turns,
    /// largest first, in passes that are repeated until every element is
    /// visited; in its turn a chain contributes its first unvisited member of
    /// largest degree, which marks its closed second neighbourhood as visited.
    pub fn find_dominating_set(&self, deg_vec: HashMap<u64, HashSet<u64>>) -> (r: Result<
        Vec<u64>,
        ColoringError,
    >)
        ensures
            match r {
                Ok(chosen) => {
                    &&& odd_classes(coloring_map(classes_of(coloring(self@))))
                    &&& chosen@ == dominators(classes_of(coloring(self@)), adjacency(deg_vec))
                    &&& forall|x: u64|
                        is_id(self@, x) ==> dominated(adjacency(deg_vec), chosen@, x)
                    &&& forall|k: int|
                        0 <= k < chosen@.len() ==> is_id(self@, #[trigger] chosen@[k])
                    &&& chosen@.no_duplicates()
                },
                Err(e) => {
                    &&& !odd_classes(coloring_map(classes_of(coloring(self@))))
                    &&& e == ColoringError::OutsideAlgoScope
                },
            },
    {
        let values = chains_from(&self.interval);
        proof {
            use_type_invariant(self);
            lemma_coloring_partition(self.interval@);
            assert(chains_view(values).len() == values.len());
            lemma_odd_classes(chains_view(values));
            lemma_dominators_dominate(chains_view(values), adjacency(deg_vec));
        }
        if !Self::verify_chain(&values) {
            return Err(ColoringError::OutsideAlgoScope);
        }
        let values = order_classes(&values);
        let ghost all = chains_view(values);
        let ghost first = start(adjacency(deg_vec));
        let deg_len = Self::check_len(&values);
        let mut deg_vec = deg_vec;
        let mut visited: HashSet<u64> = HashSet::with_capacity(deg_len);
        let mut dominating_set: Vec<u64> = Vec::new();
        assert(state_of(visited, deg_vec, dominating_set) == first);
        while !all_visited(&values, &visited)
            invariant
                all == chains_view(values),
                select(state_of(visited, deg_vec, dominating_set), all) == select(first, all),
            decreases unvisited(all, visited@),
        {
            proof {
                lemma_pass_progress(state_of(visited, deg_vec, dominating_set), all);
            }
            run_pass(&values, &mut visited, &mut deg_vec, &mut dominating_set);
        }
        Ok(dominating_set)
    }

    /// The number of members of all classes together; the largest `usize`
    /// where the sum is beyond it.
    pub fn check_len(values: &Vec<Vec<u64>>) -> (length: usize)
        ensures
            length == if total_len(chains_view(*values)) <= usize::MAX {
                total_len(chains_view(*values))
            } else {
                usize::MAX as nat
            },
    {
        let ghost all = chains_view(*values);
        let mut length: usize = 0;
        let mut i: usize = 0;
        assert(all.take(0) =~= Seq::<Seq<u64>>::empty());
        while i < values.len()
            invariant
                0 <= i <= values.len(),
                all == chains_view(*values),
                length == if total_len(all.take(i as int)) <= usize::MAX {
                    total_len(all.take(i as int))
                } else {
                    usize::MAX as nat
                },
            decreases values.len() - i,
        {
            proof {
                assert(all.take(i + 1).drop_last() =~= all.take(i as int));
                assert(all.take(i + 1).last() == values@[i as int]@);
            }
            length = length.saturating_add(values[i].len());
            i += 1;
        }
        assert(all.take(values.len() as int) =~= all);
        length
    }

    /// Whether every class has an odd number of members.
    pub fn verify_chain(values: &Vec<Vec<u64>>) -> (b: bool)
        ensures
            b == all_odd(chains_view(*values)),
    {
        let mut i: usize = 0;
        while i < values.len()
            invariant
                0 <= i <= values.len(),
                forall|c: int| 0 <= c < i ==> (#[trigger] chains_view(*values)[c]).len() % 2 == 1,
            decreases values.len() - i,
        {
            if values[i].len() % 2 == 0 {
                assert(chains_view(*values)[i as int].len() % 2 == 0);
                return false;
            }
            i += 1;
        }
        true
    }
}

} // verus!
