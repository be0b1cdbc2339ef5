//! What the linked sets of a poset resolve to, stated over its cover edges.
use crate::preprocessing::UpDown;
use crate::preprocessing::VecInner;
use crate::preprocessing::down_entries;
use crate::preprocessing::elements;
use crate::preprocessing::relates;
use crate::preprocessing::side;
use crate::preprocessing::up_entries;
use crate::resolve::dangles;
use crate::resolve::has_link;
use crate::resolve::has_num;
use crate::resolve::leads_to;
use crate::resolve::links_of;
use crate::resolve::nums_of;
use crate::resolve::reaches;
use crate::resolve::reaches_in;
use crate::resolve::resolved;
use vstd::prelude::*;

verus! {

/// The linked sets of one kind that the edges give, by element: the up-sets
/// where `up` holds, the down-sets otherwise.
pub open spec fn store_of(edges: Seq<(u64, u64)>, up: bool) -> Map<u64, Seq<VecInner>> {
    Map::new(
        |v: u64| elements(edges).contains(v),
        |v: u64|
            if up {
                up_entries(edges, v)
            } else {
                down_entries(edges, v)
            },
    )
}

/// The canonical up-set (or down-set) of every element of the edges.
pub open spec fn canonical_sets(edges: Seq<(u64, u64)>, up: bool) -> Map<u64, Set<u64>> {
    Map::new(
        |v: u64| elements(edges).contains(v),
        |v: u64| resolved(store_of(edges, up), store_of(edges, up)[v]),
    )
}

/// `s` is next to `v` on the given side: a direct successor where `up`
/// holds, a direct predecessor otherwise.
pub open spec fn next_to(edges: Seq<(u64, u64)>, up: bool, v: u64, s: u64) -> bool {
    if up {
        edges.contains((v, s))
    } else {
        edges.contains((s, v))
    }
}

/// A store that was built from the edges holds the linked sets of the edges.
pub proof fn lemma_side_of_relates(m: Map<u64, UpDown>, edges: Seq<(u64, u64)>, up: bool)
    requires
        relates(m, edges),
    ensures
        side(m, up) == store_of(edges, up),
{
    assert forall|v: u64| side(m, up).contains_key(v) implies #[trigger] side(m, up)[v]
        == store_of(edges, up)[v] by {
        assert(m.contains_key(v));
    }
    assert(side(m, up) =~= store_of(edges, up));
}

/// The linked set of `v` holds, as direct members and as link targets alike,
/// exactly the elements next to `v`.
pub proof fn lemma_entries_next(edges: Seq<(u64, u64)>, up: bool, v: u64, s: u64)
    ensures
        nums_of(
            if up {
                up_entries(edges, v)
            } else {
                down_entries(edges, v)
            },
        ).contains(s) <==> next_to(edges, up, v, s),
        links_of(
            if up {
                up_entries(edges, v)
            } else {
                down_entries(edges, v)
            },
        ).contains(s) <==> next_to(edges, up, v, s),
    decreases edges.len(),
{
    let entries = if up {
        up_entries(edges, v)
    } else {
        down_entries(edges, v)
    };
    if edges.len() == 0 {
        assert(!entries.contains(VecInner::Num(s)));
        assert(!entries.contains(VecInner::Link { target: s, owning: true }));
        assert(!entries.contains(VecInner::Link { target: s, owning: false }));
    } else {
        let init = edges.drop_last();
        let e = edges.last();
        let rest = if up {
            up_entries(init, v)
        } else {
            down_entries(init, v)
        };
        lemma_entries_next(init, up, v, s);
        let pair = if up {
            (v, s)
        } else {
            (s, v)
        };
        assert(edges.contains(pair) <==> (init.contains(pair) || e == pair)) by {
            if edges.contains(pair) {
                let i = choose|i: int| 0 <= i < edges.len() && edges[i] == pair;
                if i < init.len() {
                    assert(init[i] == pair);
                }
            }
            if init.contains(pair) {
                let i = choose|i: int| 0 <= i < init.len() && init[i] == pair;
                assert(edges[i] == pair);
            }
            if e == pair {
                assert(edges[edges.len() - 1] == pair);
            }
        }
        let from = if up {
            e.0
        } else {
            e.1
        };
        let to = if up {
            e.1
        } else {
            e.0
        };
        if from == v {
            let num = VecInner::Num(to);
            let link = VecInner::Link { target: to, owning: !up };
            assert(entries == rest.push(num).push(link));
            assert forall|y: VecInner| entries.contains(y) <==> (rest.contains(y) || y == num || y
                == link) by {
                if entries.contains(y) {
                    let i = choose|i: int| 0 <= i < entries.len() && entries[i] == y;
                    if i < rest.len() {
                        assert(rest[i] == y);
                    }
                }
                if rest.contains(y) {
                    let i = choose|i: int| 0 <= i < rest.len() && rest[i] == y;
                    assert(entries[i] == y);
                }
                if y == num {
                    assert(entries[rest.len() as int] == y);
                }
                if y == link {
                    assert(entries[rest.len() as int + 1] == y);
                }
            }
        } else {
            assert(entries == rest);
        }
    }
}

/// A chain of at least one link starts with a link.
pub proof fn lemma_reach_first(store: Map<u64, Seq<VecInner>>, t: u64, u: u64, n: nat) -> (w: u64)
    requires
        n > 0,
        reaches_in(store, t, u, n),
    ensures
        has_link(store, t, w),
        reaches_in(store, w, u, (n - 1) as nat),
    decreases n,
{
    let z = choose|z: u64| reaches_in(store, t, z, (n - 1) as nat) && has_link(store, z, u);
    if n == 1 {
        assert(z == t);
        assert(reaches_in(store, u, u, 0));
        u
    } else {
        let w = lemma_reach_first(store, t, z, (n - 1) as nat);
        assert(reaches_in(store, w, z, ((n - 1) - 1) as nat) && has_link(store, z, u));
        assert(reaches_in(store, w, u, (n - 1) as nat));
        w
    }
}

/// A link followed by a chain of links is a chain of links.
pub proof fn lemma_reach_prepend(store: Map<u64, Seq<VecInner>>, t: u64, w: u64, u: u64, n: nat)
    requires
        has_link(store, t, w),
        reaches_in(store, w, u, n),
    ensures
        reaches_in(store, t, u, n + 1),
    decreases n,
{
    if n == 0 {
        assert(reaches_in(store, t, t, 0));
        assert(reaches_in(store, t, t, ((n + 1) - 1) as nat) && has_link(store, t, u));
    } else {
        let z = choose|z: u64| reaches_in(store, w, z, (n - 1) as nat) && has_link(store, z, u);
        lemma_reach_prepend(store, t, w, z, (n - 1) as nat);
        assert(reaches_in(store, t, z, ((n + 1) - 1) as nat) && has_link(store, z, u));
    }
}

/// `x` is next to `v`, or a member of the canonical set of an element next
/// to `v`.
pub open spec fn beyond(edges: Seq<(u64, u64)>, up: bool, v: u64, x: u64) -> bool {
    exists|s: u64| #[trigger]
        next_to(edges, up, v, s) && (x == s || canonical_sets(edges, up)[s].contains(x))
}

/// Resolution is transitively consistent: the canonical up-set of an
/// element holds exactly its direct successors and the members of their
/// canonical up-sets, however deep the links are shared; and likewise the
/// canonical down-set with the direct predecessors.
pub proof fn lemma_canonical_transitive(edges: Seq<(u64, u64)>, up: bool, v: u64)
    requires
        elements(edges).contains(v),
    ensures
        canonical_sets(edges, up)[v] == Set::new(|x: u64| beyond(edges, up, v, x)),
{
    let store = store_of(edges, up);
    let left = canonical_sets(edges, up)[v];
    let right = Set::new(|x: u64| beyond(edges, up, v, x));
    assert forall|x: u64| left.contains(x) implies beyond(edges, up, v, x) by {
        if nums_of(store[v]).contains(x) {
            lemma_entries_next(edges, up, v, x);
            assert(next_to(edges, up, v, x));
        } else {
            let u = choose|u: u64| leads_to(store, store[v], u) && has_num(store, u, x);
            let t = choose|t: u64| links_of(store[v]).contains(t) && reaches(store, t, u);
            let n = choose|n: nat| reaches_in(store, t, u, n);
            lemma_entries_next(edges, up, v, t);
            lemma_next_is_element(edges, up, v, t);
            if n == 0 {
                assert(nums_of(store[t]).contains(x));
            } else {
                let w = lemma_reach_first(store, t, u, n);
                assert(reaches(store, w, u));
                assert(links_of(store[t]).contains(w));
                assert(leads_to(store, store[t], u) && has_num(store, u, x));
            }
            assert(canonical_sets(edges, up)[t].contains(x));
            assert(next_to(edges, up, v, t));
        }
    }
    assert forall|x: u64| beyond(edges, up, v, x) implies left.contains(x) by {
        let s = choose|s: u64| #[trigger]
            next_to(edges, up, v, s) && (x == s || canonical_sets(edges, up)[s].contains(x));
        lemma_entries_next(edges, up, v, s);
        lemma_next_is_element(edges, up, v, s);
        if x == s {
            assert(nums_of(store[v]).contains(x));
        } else {
            assert(reaches_in(store, s, s, 0));
            assert(links_of(store[v]).contains(s));
            if nums_of(store[s]).contains(x) {
                assert(reaches(store, s, s));
                assert(leads_to(store, store[v], s) && has_num(store, s, x));
            } else {
                let u = choose|u: u64| leads_to(store, store[s], u) && has_num(store, u, x);
                let t = choose|t: u64| links_of(store[s]).contains(t) && reaches(store, t, u);
                let n = choose|n: nat| reaches_in(store, t, u, n);
                assert(has_link(store, s, t));
                lemma_reach_prepend(store, s, t, u, n);
                assert(reaches(store, s, u));
                assert(leads_to(store, store[v], u) && has_num(store, u, x));
            }
        }
    }
    assert(left =~= right);
}

/// What is next to an element is an element.
pub proof fn lemma_next_is_element(edges: Seq<(u64, u64)>, up: bool, v: u64, s: u64)
    requires
        next_to(edges, up, v, s),
    ensures
        elements(edges).contains(s),
        elements(edges).contains(v),
{
    let pair = if up {
        (v, s)
    } else {
        (s, v)
    };
    let i = choose|i: int| 0 <= i < edges.len() && edges[i] == pair;
    assert(edges[i].0 == pair.0 && edges[i].1 == pair.1);
}

/// Whatever a chain of links from an element leads to is an element.
proof fn lemma_reach_stays(edges: Seq<(u64, u64)>, up: bool, t: u64, u: u64, n: nat)
    requires
        elements(edges).contains(t),
        reaches_in(store_of(edges, up), t, u, n),
    ensures
        elements(edges).contains(u),
    decreases n,
{
    if n > 0 {
        let store = store_of(edges, up);
        let z = choose|z: u64| reaches_in(store, t, z, (n - 1) as nat) && has_link(store, z, u);
        lemma_reach_stays(edges, up, t, z, (n - 1) as nat);
        lemma_entries_next(edges, up, z, u);
        lemma_next_is_element(edges, up, z, u);
    }
}

/// In a store that was built from edges no link chain ends outside the
/// store.
pub proof fn lemma_built_resolves(edges: Seq<(u64, u64)>, up: bool, v: u64)
    requires
        elements(edges).contains(v),
    ensures
        !dangles(store_of(edges, up), store_of(edges, up)[v]),
{
    let store = store_of(edges, up);
    if dangles(store, store[v]) {
        let u = choose|u: u64| leads_to(store, store[v], u) && !store.contains_key(u);
        let t = choose|t: u64| links_of(store[v]).contains(t) && reaches(store, t, u);
        let n = choose|n: nat| reaches_in(store, t, u, n);
        lemma_entries_next(edges, up, v, t);
        lemma_next_is_element(edges, up, v, t);
        lemma_reach_stays(edges, up, t, u, n);
    }
}

} // verus!
