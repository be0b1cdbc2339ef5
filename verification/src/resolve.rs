//! The canonicalizer: linked sets are resolved into flat sets of element ids
//! by following their links through the store.
use crate::interval::ColoringError;
use crate::order::increasing;
use crate::order::insert_sorted;
use crate::preprocessing::SharedSet;
use crate::preprocessing::UpDown;
use crate::preprocessing::VecInner;
use crate::preprocessing::side;
use std::collections::HashMap;
use std::collections::HashSet;
use vstd::prelude::*;

verus! {

broadcast use vstd::std_specs::hash::group_hash_axioms;

/// The elements that `entries` holds directly.
pub open spec fn nums_of(entries: Seq<VecInner>) -> Set<u64> {
    Set::new(|x: u64| entries.contains(VecInner::Num(x)))
}

/// The elements that `entries` links to.
pub open spec fn links_of(entries: Seq<VecInner>) -> Set<u64> {
    Set::new(
        |t: u64|
            entries.contains(VecInner::Link { target: t, owning: true }) || entries.contains(
                VecInner::Link { target: t, owning: false },
            ),
    )
}

/// The set that the store holds for `u` links to `t`.
pub open spec fn has_link(store: Map<u64, Seq<VecInner>>, u: u64, t: u64) -> bool {
    store.contains_key(u) && links_of(store[u]).contains(t)
}

/// The set that the store holds for `u` has `x` as a direct member.
pub open spec fn has_num(store: Map<u64, Seq<VecInner>>, u: u64, x: u64) -> bool {
    store.contains_key(u) && nums_of(store[u]).contains(x)
}

/// Following exactly `n` links from the set of `v` leads to `u`.
pub open spec fn reaches_in(store: Map<u64, Seq<VecInner>>, v: u64, u: u64, n: nat) -> bool
    decreases n,
{
    if n == 0 {
        u == v
    } else {
        exists|w: u64| reaches_in(store, v, w, (n - 1) as nat) && has_link(store, w, u)
    }
}

/// Following links from the set of `v` leads to `u`.
pub open spec fn reaches(store: Map<u64, Seq<VecInner>>, v: u64, u: u64) -> bool {
    exists|n: nat| reaches_in(store, v, u, n)
}

/// A link of `entries` leads, directly or through further links, to `u`.
pub open spec fn leads_to(store: Map<u64, Seq<VecInner>>, entries: Seq<VecInner>, u: u64) -> bool {
    exists|t: u64| links_of(entries).contains(t) && reaches(store, t, u)
}

/// Some chain of links that starts in `entries` ends at an element for which
/// the store holds no set.
pub open spec fn dangles(store: Map<u64, Seq<VecInner>>, entries: Seq<VecInner>) -> bool {
    exists|u: u64| leads_to(store, entries, u) && !store.contains_key(u)
}

/// The canonical set of `entries`: its direct members, and the direct
/// members of every set that its links lead to.
pub open spec fn resolved(store: Map<u64, Seq<VecInner>>, entries: Seq<VecInner>) -> Set<u64> {
    Set::new(
        |x: u64|
            nums_of(entries).contains(x) || exists|u: u64|
                leads_to(store, entries, u) && has_num(store, u, x),
    )
}

/// A canonical set: element ids in increasing order, each once.
#[derive(Debug, Clone, PartialEq, Eq, Hash)]
pub struct UnsharedSet(pub Vec<u64>);

impl View for UnsharedSet {
    type V = Set<u64>;

    open spec fn view(&self) -> Set<u64> {
        self.0@.to_set()
    }
}


/// What has been gathered once the sets of the elements in `done` were taken
/// in: the direct members of `entries` and of the sets of `done`.
pub open spec fn gathered(store: Map<u64, Seq<VecInner>>, entries: Seq<VecInner>, done: Set<u64>) -> Set<
    u64,
> {
    Set::new(
        |x: u64|
            nums_of(entries).contains(x) || exists|d: u64|
                done.contains(d) && has_num(store, d, x),
    )
}

/// A link target of `entries` is led to.
pub proof fn lemma_leads_first(store: Map<u64, Seq<VecInner>>, entries: Seq<VecInner>, t: u64)
    requires
        links_of(entries).contains(t),
    ensures
        leads_to(store, entries, t),
{
    assert(reaches_in(store, t, t, 0));
    assert(reaches(store, t, t));
}

/// What a link of a set that is led to targets is led to as well.
pub proof fn lemma_leads_on(
    store: Map<u64, Seq<VecInner>>,
    entries: Seq<VecInner>,
    d: u64,
    t: u64,
)
    requires
        leads_to(store, entries, d),
        has_link(store, d, t),
    ensures
        leads_to(store, entries, t),
{
    let r = choose|r: u64| links_of(entries).contains(r) && reaches(store, r, d);
    let n = choose|n: nat| reaches_in(store, r, d, n);
    assert(reaches_in(store, r, t, n + 1)) by {
        assert(reaches_in(store, r, d, ((n + 1) - 1) as nat) && has_link(store, d, t));
    }
    assert(reaches(store, r, t));
}

/// A set of elements that is closed under links holds whatever its members
/// reach.
proof fn lemma_reach_closed(
    store: Map<u64, Seq<VecInner>>,
    done: Set<u64>,
    t: u64,
    u: u64,
    n: nat,
)
    requires
        done.contains(t),
        forall|d: u64, w: u64| done.contains(d) && has_link(store, d, w) ==> done.contains(w),
        reaches_in(store, t, u, n),
    ensures
        done.contains(u),
    decreases n,
{
    if n > 0 {
        let w = choose|w: u64| reaches_in(store, t, w, (n - 1) as nat) && has_link(store, w, u);
        lemma_reach_closed(store, done, t, w, (n - 1) as nat);
    }
}

/// A set of elements that holds the link targets of `entries` and is closed
/// under links holds whatever `entries` leads to.
pub proof fn lemma_closed(store: Map<u64, Seq<VecInner>>, entries: Seq<VecInner>, done: Set<u64>)
    requires
        forall|t: u64| links_of(entries).contains(t) ==> done.contains(t),
        forall|d: u64, w: u64| done.contains(d) && has_link(store, d, w) ==> done.contains(w),
    ensures
        forall|u: u64| leads_to(store, entries, u) ==> done.contains(u),
{
    assert forall|u: u64| leads_to(store, entries, u) implies done.contains(u) by {
        let t = choose|t: u64| links_of(entries).contains(t) && reaches(store, t, u);
        let n = choose|n: nat| reaches_in(store, t, u, n);
        lemma_reach_closed(store, done, t, u, n);
    }
}

/// Taking the set of one more element in adds its direct members to what
/// was gathered.
pub proof fn lemma_gathered_step(
    store: Map<u64, Seq<VecInner>>,
    entries: Seq<VecInner>,
    done: Set<u64>,
    t: u64,
)
    requires
        store.contains_key(t),
    ensures
        gathered(store, entries, done.insert(t)) == gathered(store, entries, done).union(
            nums_of(store[t]),
        ),
{
    let a = gathered(store, entries, done.insert(t));
    let b = gathered(store, entries, done).union(nums_of(store[t]));
    assert forall|x: u64| a.contains(x) <==> b.contains(x) by {
        if a.contains(x) && !nums_of(entries).contains(x) {
            let d = choose|d: u64| done.insert(t).contains(d) && has_num(store, d, x);
            if d != t {
                assert(done.contains(d) && has_num(store, d, x));
            }
        }
        if gathered(store, entries, done).contains(x) && !nums_of(entries).contains(x) {
            let d = choose|d: u64| done.contains(d) && has_num(store, d, x);
            assert(done.insert(t).contains(d) && has_num(store, d, x));
        }
        if nums_of(store[t]).contains(x) {
            assert(done.insert(t).contains(t) && has_num(store, t, x));
        }
    }
    assert(a =~= b);
}

impl UnsharedSet {
    /// The ids stand in increasing order.
    pub open spec fn wf(&self) -> bool {
        increasing(self.0@)
    }

    /// Takes one entry in: a direct member joins `new_set`, the target of a
    /// link is put on `pending`.
    pub fn inner(new_set: &mut Vec<u64>, pending: &mut Vec<u64>, elem: &VecInner)
        requires
            increasing(old(new_set)@),
        ensures
            increasing(final(new_set)@),
            match *elem {
                VecInner::Num(x) => {
                    &&& final(new_set)@.to_set() == old(new_set)@.to_set().insert(x)
                    &&& final(pending)@ == old(pending)@
                },
                VecInner::Link { target, owning } => {
                    &&& final(new_set)@ == old(new_set)@
                    &&& final(pending)@ == old(pending)@.push(target)
                },
            },
    {
        match elem {
            VecInner::Num(num) => insert_sorted(new_set, *num),
            VecInner::Link { target, owning: _ } => pending.push(*target),
        }
    }

    /// Takes all entries of one linked set in.
    fn absorb(entries: &Vec<VecInner>, new_set: &mut Vec<u64>, pending: &mut Vec<u64>)
        requires
            increasing(old(new_set)@),
        ensures
            increasing(final(new_set)@),
            final(new_set)@.to_set() == old(new_set)@.to_set().union(nums_of(entries@)),
            final(pending)@.to_set() == old(pending)@.to_set().union(links_of(entries@)),
    {
        let ghost set0 = new_set@.to_set();
        let ghost pen0 = pending@.to_set();
        let mut i: usize = 0;
        assert(entries@.take(0) =~= Seq::<VecInner>::empty());
        assert(set0.union(nums_of(entries@.take(0))) =~= set0);
        assert(pen0.union(links_of(entries@.take(0))) =~= pen0);
        while i < entries.len()
            invariant
                0 <= i <= entries.len(),
                increasing(new_set@),
                new_set@.to_set() == set0.union(nums_of(entries@.take(i as int))),
                pending@.to_set() == pen0.union(links_of(entries@.take(i as int))),
            decreases entries.len() - i,
        {
            let ghost head = entries@.take(i as int);
            let ghost next = entries@.take(i + 1);
            let ghost e = entries@[i as int];
            let ghost pen = pending@;
            proof {
                entries@.lemma_take_succ_push(i as int);
                assert(next == head.push(e));
                assert forall|y: VecInner| next.contains(y) <==> (head.contains(y) || y == e) by {
                    if next.contains(y) {
                        let k = choose|k: int| 0 <= k < next.len() && next[k] == y;
                        if k < i {
                            assert(head[k] == y);
                        }
                    }
                    if head.contains(y) {
                        let k = choose|k: int| 0 <= k < head.len() && head[k] == y;
                        assert(next[k] == y);
                    }
                    if y == e {
                        assert(next[i as int] == y);
                    }
                }
            }
            Self::inner(new_set, pending, &entries[i]);
            proof {
                match e {
                    VecInner::Num(x) => {
                        assert(nums_of(next) =~= nums_of(head).insert(x));
                        assert(links_of(next) =~= links_of(head));
                        assert(set0.union(nums_of(head)).insert(x) =~= set0.union(nums_of(next)));
                    },
                    VecInner::Link { target, owning } => {
                        assert(nums_of(next) =~= nums_of(head));
                        assert(links_of(next) =~= links_of(head).insert(target)) by {
                            assert forall|t: u64|
                                links_of(next).contains(t) <==> links_of(head).insert(
                                    target,
                                ).contains(t) by {
                                if t == target {
                                    assert(next.contains(e));
                                    assert(e == VecInner::Link { target: t, owning: true } || e
                                        == VecInner::Link { target: t, owning: false });
                                }
                            }
                        }
                        pen.lemma_push_to_set_commute(target);
                        assert(pen0.union(links_of(head)).insert(target) =~= pen0.union(
                            links_of(next),
                        ));
                    },
                }
            }
            i += 1;
        }
        assert(entries@.take(entries.len() as int) =~= entries@);
    }

    /// Resolves a linked set against the store: the outcome holds the direct
    /// members of the set and of every set that its links lead to. It fails
    /// where a chain of links ends at an element that the store lacks.
    pub fn from_set(map: &HashMap<u64, UpDown>, up: bool, set: &SharedSet) -> (r: Result<
        UnsharedSet,
        ColoringError,
    >)
        ensures
            match r {
                Ok(s) => {
                    &&& !dangles(side(map@, up), set@)
                    &&& s.wf()
                    &&& s@ == resolved(side(map@, up), set@)
                },
                Err(e) => dangles(side(map@, up), set@) && e == ColoringError::DanglingLink,
            },
    {
        let ghost store = side(map@, up);
        let mut new_set: Vec<u64> = Vec::new();
        let mut pending: Vec<u64> = Vec::new();
        let mut done: HashSet<u64> = HashSet::new();
        Self::absorb(&set.0, &mut new_set, &mut pending);
        proof {
            assert(new_set@.to_set() =~= gathered(store, set@, done@));
            assert forall|p: u64| pending@.contains(p) implies leads_to(store, set@, p) by {
                assert(pending@.to_set().contains(p));
                lemma_leads_first(store, set@, p);
            }
            assert forall|t: u64| links_of(set@).contains(t) implies pending@.contains(t) by {
                assert(pending@.to_set().contains(t));
            }
        }
        while pending.len() > 0
            invariant
                store == side(map@, up),
                increasing(new_set@),
                new_set@.to_set() == gathered(store, set@, done@),
                forall|t: u64|
                    links_of(set@).contains(t) ==> done@.contains(t) || pending@.contains(t),
                forall|d: u64, t: u64|
                    done@.contains(d) && has_link(store, d, t) ==> done@.contains(t)
                        || pending@.contains(t),
                forall|p: u64| pending@.contains(p) ==> leads_to(store, set@, p),
                forall|d: u64| done@.contains(d) ==> leads_to(store, set@, d) && store.contains_key(d),
            decreases store.dom().difference(done@).len(), pending.len(),
        {
            let ghost pen = pending@;
            let ghost seen = done@;
            let ghost got = new_set@.to_set();
            let t = pending.pop().unwrap();
            proof {
                assert(pen.contains(pen[pen.len() - 1]));
                assert forall|p: u64| #[trigger] pen.contains(p) implies pending@.contains(p) || p == t by {
                    let k = choose|k: int| 0 <= k < pen.len() && pen[k] == p;
                    if k < pen.len() - 1 {
                        assert(pending@[k] == p);
                    }
                }
                assert forall|p: u64| #[trigger] pending@.contains(p) implies pen.contains(p) by {
                    let k = choose|k: int| 0 <= k < pending@.len() && pending@[k] == p;
                    assert(pen[k] == p);
                }
            }
            if done.contains(&t) {
                proof {
                    assert forall|d: u64, w: u64|
                        done@.contains(d) && has_link(store, d, w) implies done@.contains(w)
                        || pending@.contains(w) by {
                        if !done@.contains(w) {
                            assert(pen.contains(w));
                        }
                    }
                    assert forall|w: u64| links_of(set@).contains(w) implies done@.contains(w)
                        || pending@.contains(w) by {
                        if !done@.contains(w) {
                            assert(pen.contains(w));
                        }
                    }
                }
            } else {
                match map.get(&t) {
                    None => {
                        proof {
                            assert(!store.contains_key(t));
                            assert(leads_to(store, set@, t));
                        }
                        return Err(ColoringError::DanglingLink);
                    },
                    Some(found) => {
                        done.insert(t);
                        let entries = if up {
                            &found.upset
                        } else {
                            &found.downset
                        };
                        assert(entries@ == store[t]);
                        let ghost mid = pending@;
                        Self::absorb(&entries.0, &mut new_set, &mut pending);
                        proof {
                            assert forall|p: u64| #[trigger]
                                pending@.contains(p) <==> (mid.contains(p) || links_of(
                                    store[t],
                                ).contains(p)) by {
                                assert(pending@.to_set().contains(p) <==> pending@.contains(p));
                                assert(mid.to_set().contains(p) <==> mid.contains(p));
                            }
                            lemma_gathered_step(store, set@, seen, t);
                            assert(done@ == seen.insert(t));
                            assert(new_set@.to_set() == got.union(nums_of(store[t])));
                            assert(pen.contains(t));
                            assert(leads_to(store, set@, t));
                            assert forall|p: u64| pending@.contains(p) implies leads_to(
                                store,
                                set@,
                                p,
                            ) by {
                                if mid.contains(p) {
                                    assert(pen.contains(p));
                                } else {
                                    assert(has_link(store, t, p));
                                    lemma_leads_on(store, set@, t, p);
                                }
                            }
                            assert forall|d: u64, w: u64|
                                done@.contains(d) && has_link(store, d, w) implies done@.contains(w)
                                || pending@.contains(w) by {
                                if d == t {
                                    assert(links_of(store[t]).contains(w));
                                } else {
                                    assert(seen.contains(d));
                                    if !seen.contains(w) {
                                        assert(pen.contains(w));
                                        if w != t {
                                            assert(mid.contains(w));
                                        }
                                    }
                                }
                            }
                            assert forall|w: u64| links_of(set@).contains(w) implies done@.contains(
                                w,
                            ) || pending@.contains(w) by {
                                if !seen.contains(w) {
                                    assert(pen.contains(w));
                                    if w != t {
                                        assert(mid.contains(w));
                                    }
                                }
                            }
                            assert(store.dom().difference(done@) =~= store.dom().difference(
                                seen,
                            ).remove(t));
                            assert(store.dom().difference(seen).contains(t));
                            assert(store.dom() == map@.dom());
                        }
                    },
                }
            }
        }
        proof {
            assert forall|t: u64| links_of(set@).contains(t) implies done@.contains(t) by {
                assert(!pending@.contains(t));
            }
            assert forall|d: u64, w: u64|
                done@.contains(d) && has_link(store, d, w) implies done@.contains(w) by {
                assert(!pending@.contains(w));
            }
            lemma_closed(store, set@, done@);
            assert forall|x: u64|
                gathered(store, set@, done@).contains(x) <==> resolved(store, set@).contains(
                    x,
                ) by {
                if gathered(store, set@, done@).contains(x) && !nums_of(set@).contains(x) {
                    let d = choose|d: u64| done@.contains(d) && has_num(store, d, x);
                    assert(leads_to(store, set@, d) && has_num(store, d, x));
                }
                if resolved(store, set@).contains(x) && !nums_of(set@).contains(x) {
                    let u = choose|u: u64| leads_to(store, set@, u) && has_num(store, u, x);
                    assert(done@.contains(u) && has_num(store, u, x));
                }
            }
            assert(gathered(store, set@, done@) =~= resolved(store, set@));
            assert(!dangles(store, set@)) by {
                if dangles(store, set@) {
                    let u = choose|u: u64| leads_to(store, set@, u) && !store.contains_key(u);
                    assert(done@.contains(u));
                }
            }
        }
        Ok(UnsharedSet(new_set))
    }
}

} // verus!
