//! Greedy selection of a dominating set from a chain partition and an
//! adjacency mapping.
use crate::collect::adjacency;
use crate::collect::keys_of;
use crate::collect::members;
use crate::collect::neighbours;
use crate::order::Ordered;
use crate::order::order_of;
use crate::order::sorted;
use std::collections::HashMap;
use std::collections::HashSet;
use vstd::prelude::*;

verus! {

broadcast use vstd::std_specs::hash::group_hash_axioms;

/// The number of elements adjacent to `x`.
pub open spec fn degree(topology: Map<u64, Set<u64>>, x: u64) -> nat {
    neighbours(topology, x).len()
}

/// `class[j]` is unvisited, no unvisited member of the class has a larger
/// degree, and none of equal degree stands before it in the class.
pub open spec fn is_pick_at(
    class: Seq<u64>,
    visited: Set<u64>,
    topology: Map<u64, Set<u64>>,
    j: int,
) -> bool {
    &&& 0 <= j < class.len()
    &&& !visited.contains(class[j])
    &&& forall|k: int|
        0 <= k < class.len() && !visited.contains(#[trigger] class[k]) ==> {
            ||| degree(topology, class[k]) < degree(topology, class[j])
            ||| (degree(topology, class[k]) == degree(topology, class[j]) && j <= k)
        }
}

/// The member that a class contributes in one pass: its first unvisited
/// member of largest degree, if it has an unvisited member at all.
pub open spec fn pick(class: Seq<u64>, visited: Set<u64>, topology: Map<u64, Set<u64>>) -> Option<
    u64,
> {
    if exists|j: int| is_pick_at(class, visited, topology, j) {
        Some(class[choose|j: int| is_pick_at(class, visited, topology, j)])
    } else {
        None
    }
}

/// What picking `x` marks as visited: `x`, its neighbours, and the
/// neighbours of its neighbours.
pub open spec fn marked_by(topology: Map<u64, Set<u64>>, x: u64) -> Set<u64> {
    Set::new(
        |z: u64|
            {
                ||| z == x
                ||| neighbours(topology, x).contains(z)
                ||| exists|n: u64|
                    neighbours(topology, x).contains(n) && #[trigger] neighbours(
                        topology,
                        n,
                    ).contains(z)
            },
    )
}

/// The mapping after `x` was picked: every neighbour of `x` is removed from
/// the adjacency set of every other element, and the entry of `x` is gone.
pub open spec fn prune(topology: Map<u64, Set<u64>>, x: u64) -> Map<u64, Set<u64>> {
    Map::new(
        |k: u64| topology.contains_key(k) && k != x,
        |k: u64|
            Set::new(
                |y: u64|
                    topology[k].contains(y) && !(neighbours(topology, x).contains(y) && y != k),
            ),
    )
}

/// The state of the selection between two picks.
pub struct Selection {
    /// The elements that are dominated so far.
    pub visited: Set<u64>,
    /// The working copy of the adjacency mapping.
    pub topology: Map<u64, Set<u64>>,
    /// The elements picked so far, in order.
    pub chosen: Seq<u64>,
}

/// The state before the first pick.
pub open spec fn start(topology: Map<u64, Set<u64>>) -> Selection {
    Selection { visited: Set::empty(), topology, chosen: Seq::empty() }
}

/// One class takes its turn: its pick, if it has one, is chosen, marks its
/// closed second neighbourhood and is pruned from the mapping.
pub open spec fn step(s: Selection, class: Seq<u64>) -> Selection {
    match pick(class, s.visited, s.topology) {
        None => s,
        Some(x) => Selection {
            visited: s.visited.union(marked_by(s.topology, x)),
            topology: prune(s.topology, x),
            chosen: s.chosen.push(x),
        },
    }
}

/// One pass: every class takes its turn, in the order given.
pub open spec fn pass(s: Selection, classes: Seq<Seq<u64>>) -> Selection
    decreases classes.len(),
{
    if classes.len() == 0 {
        s
    } else {
        step(pass(s, classes.drop_last()), classes.last())
    }
}

/// The number of entries of `class` that are not visited.
pub open spec fn unvisited_in(class: Seq<u64>, visited: Set<u64>) -> nat
    decreases class.len(),
{
    if class.len() == 0 {
        0
    } else {
        unvisited_in(class.drop_last(), visited) + if visited.contains(class.last()) {
            0nat
        } else {
            1nat
        }
    }
}

/// The number of entries of all classes that are not visited.
pub open spec fn unvisited(classes: Seq<Seq<u64>>, visited: Set<u64>) -> nat
    decreases classes.len(),
{
    if classes.len() == 0 {
        0
    } else {
        unvisited(classes.drop_last(), visited) + unvisited_in(classes.last(), visited)
    }
}

/// The elements chosen when passes are repeated from state `s` until every
/// member of every class is visited.
pub open spec fn select(s: Selection, classes: Seq<Seq<u64>>) -> Seq<u64>
    decreases unvisited(classes, s.visited),
    via select_decreases
{
    if unvisited(classes, s.visited) == 0 {
        s.chosen
    } else {
        select(pass(s, classes), classes)
    }
}

#[via_fn]
proof fn select_decreases(s: Selection, classes: Seq<Seq<u64>>) {
    if unvisited(classes, s.visited) != 0 {
        lemma_pass_progress(s, classes);
    }
}

/// No entry is unvisited exactly if the count of unvisited entries is zero.
pub proof fn lemma_unvisited_in_zero(class: Seq<u64>, visited: Set<u64>)
    ensures
        unvisited_in(class, visited) == 0 <==> forall|j: int|
            0 <= j < class.len() ==> visited.contains(#[trigger] class[j]),
    decreases class.len(),
{
    if class.len() > 0 {
        lemma_unvisited_in_zero(class.drop_last(), visited);
        if unvisited_in(class, visited) == 0 {
            assert forall|j: int| 0 <= j < class.len() implies visited.contains(
                #[trigger] class[j],
            ) by {
                if j < class.len() - 1 {
                    assert(class.drop_last()[j] == class[j]);
                }
            }
        } else if forall|j: int| 0 <= j < class.len() ==> visited.contains(#[trigger] class[j]) {
            assert forall|j: int| 0 <= j < class.drop_last().len() implies visited.contains(
                #[trigger] class.drop_last()[j],
            ) by {
                assert(class.drop_last()[j] == class[j]);
            }
            assert(visited.contains(class[class.len() - 1]));
        }
    }
}

/// Visiting more never raises the count of a class, and lowers it where an
/// entry of the class becomes visited.
pub proof fn lemma_unvisited_in_shrinks(class: Seq<u64>, before: Set<u64>, after: Set<u64>)
    requires
        before.subset_of(after),
    ensures
        unvisited_in(class, after) <= unvisited_in(class, before),
        (exists|j: int|
            0 <= j < class.len() && !before.contains(#[trigger] class[j]) && after.contains(
                class[j],
            )) ==> unvisited_in(class, after) < unvisited_in(class, before),
    decreases class.len(),
{
    if class.len() > 0 {
        lemma_unvisited_in_shrinks(class.drop_last(), before, after);
        if exists|j: int|
            0 <= j < class.len() && !before.contains(#[trigger] class[j]) && after.contains(
                class[j],
            ) {
            let j = choose|j: int|
                0 <= j < class.len() && !before.contains(#[trigger] class[j]) && after.contains(
                    class[j],
                );
            if j < class.len() - 1 {
                assert(class.drop_last()[j] == class[j]);
            }
        }
    }
}

/// Visiting more never raises the count, and lowers it where an entry of a
/// class becomes visited.
pub proof fn lemma_unvisited_shrinks(classes: Seq<Seq<u64>>, before: Set<u64>, after: Set<u64>)
    requires
        before.subset_of(after),
    ensures
        unvisited(classes, after) <= unvisited(classes, before),
        (exists|i: int, j: int|
            0 <= i < classes.len() && 0 <= j < classes[i].len() && !before.contains(
                #[trigger] classes[i][j],
            ) && after.contains(classes[i][j])) ==> unvisited(classes, after) < unvisited(
            classes,
            before,
        ),
    decreases classes.len(),
{
    if classes.len() > 0 {
        lemma_unvisited_shrinks(classes.drop_last(), before, after);
        lemma_unvisited_in_shrinks(classes.last(), before, after);
        if exists|i: int, j: int|
            0 <= i < classes.len() && 0 <= j < classes[i].len() && !before.contains(
                #[trigger] classes[i][j],
            ) && after.contains(classes[i][j]) {
            let (i, j) = choose|i: int, j: int|
                0 <= i < classes.len() && 0 <= j < classes[i].len() && !before.contains(
                    #[trigger] classes[i][j],
                ) && after.contains(classes[i][j]);
            if i < classes.len() - 1 {
                assert(classes.drop_last()[i][j] == classes[i][j]);
            } else {
                assert(classes.last()[j] == classes[i][j]);
            }
        }
    }
}

/// Among the first `n` entries of a class with an unvisited one, some entry
/// is unvisited, of largest degree among the unvisited, and the first such.
proof fn lemma_best_in_prefix(
    class: Seq<u64>,
    visited: Set<u64>,
    topology: Map<u64, Set<u64>>,
    n: int,
) -> (j: int)
    requires
        0 <= n <= class.len(),
        exists|k: int| 0 <= k < n && !visited.contains(#[trigger] class[k]),
    ensures
        0 <= j < n,
        !visited.contains(class[j]),
        forall|k: int|
            0 <= k < n && !visited.contains(#[trigger] class[k]) ==> {
                ||| degree(topology, class[k]) < degree(topology, class[j])
                ||| (degree(topology, class[k]) == degree(topology, class[j]) && j <= k)
            },
    decreases n,
{
    let last = n - 1;
    if exists|k: int| 0 <= k < last && !visited.contains(#[trigger] class[k]) {
        let b = lemma_best_in_prefix(class, visited, topology, last);
        if !visited.contains(class[last]) && degree(topology, class[last]) > degree(
            topology,
            class[b],
        ) {
            last
        } else {
            b
        }
    } else {
        last
    }
}

/// A class with an unvisited member has a pick, and the pick is unvisited
/// and a member.
pub proof fn lemma_pick_exists(class: Seq<u64>, visited: Set<u64>, topology: Map<u64, Set<u64>>)
    requires
        exists|k: int| 0 <= k < class.len() && !visited.contains(#[trigger] class[k]),
    ensures
        pick(class, visited, topology) is Some,
        class.contains(pick(class, visited, topology)->0),
        !visited.contains(pick(class, visited, topology)->0),
{
    let j = lemma_best_in_prefix(class, visited, topology, class.len() as int);
    assert(is_pick_at(class, visited, topology, j));
}

/// A class without an unvisited member has no pick.
pub proof fn lemma_pick_none(class: Seq<u64>, visited: Set<u64>, topology: Map<u64, Set<u64>>)
    requires
        forall|k: int| 0 <= k < class.len() ==> visited.contains(#[trigger] class[k]),
    ensures
        pick(class, visited, topology) is None,
{
}

/// A turn never unvisits an element.
pub proof fn lemma_step_grows(s: Selection, class: Seq<u64>)
    ensures
        s.visited.subset_of(step(s, class).visited),
{
}

/// A pass never unvisits an element.
pub proof fn lemma_pass_grows(s: Selection, classes: Seq<Seq<u64>>)
    ensures
        s.visited.subset_of(pass(s, classes).visited),
    decreases classes.len(),
{
    if classes.len() > 0 {
        lemma_pass_grows(s, classes.drop_last());
        lemma_step_grows(pass(s, classes.drop_last()), classes.last());
    }
}

/// After a pass over the first `n` classes, either an entry that was
/// unvisited is visited, or these classes had no unvisited entry and the
/// state is as before.
proof fn lemma_pass_prefix(s: Selection, classes: Seq<Seq<u64>>, n: int)
    requires
        0 <= n <= classes.len(),
    ensures
        ({
            let after = pass(s, classes.take(n));
            ||| exists|i: int, j: int|
                0 <= i < classes.len() && 0 <= j < classes[i].len() && !s.visited.contains(
                    #[trigger] classes[i][j],
                ) && after.visited.contains(classes[i][j])
            ||| (after == s && forall|i: int, j: int|
                0 <= i < n && 0 <= j < classes[i].len() ==> s.visited.contains(
                    #[trigger] classes[i][j],
                ))
        }),
    decreases n,
{
    if n > 0 {
        let head = classes.take(n);
        let class = classes[n - 1];
        assert(head.drop_last() =~= classes.take(n - 1));
        assert(head.last() == class);
        lemma_pass_prefix(s, classes, n - 1);
        let mid = pass(s, classes.take(n - 1));
        let after = pass(s, head);
        assert(after == step(mid, class));
        lemma_step_grows(mid, class);
        if mid == s && forall|i: int, j: int|
            0 <= i < n - 1 && 0 <= j < classes[i].len() ==> s.visited.contains(
                #[trigger] classes[i][j],
            ) {
            if exists|k: int| 0 <= k < class.len() && !s.visited.contains(#[trigger] class[k]) {
                lemma_pick_exists(class, s.visited, s.topology);
                let x = pick(class, s.visited, s.topology)->0;
                let k = choose|k: int| 0 <= k < class.len() && class[k] == x;
                assert(marked_by(s.topology, x).contains(x));
                assert(!s.visited.contains(classes[n - 1][k]) && after.visited.contains(
                    classes[n - 1][k],
                ));
            } else {
                lemma_pick_none(class, s.visited, s.topology);
                assert forall|i: int, j: int|
                    0 <= i < n && 0 <= j < classes[i].len() implies s.visited.contains(
                    #[trigger] classes[i][j],
                ) by {
                    if i == n - 1 {
                        assert(s.visited.contains(class[j]));
                    }
                }
            }
        } else {
            let (i, j) = choose|i: int, j: int|
                0 <= i < classes.len() && 0 <= j < classes[i].len() && !s.visited.contains(
                    #[trigger] classes[i][j],
                ) && mid.visited.contains(classes[i][j]);
            assert(after.visited.contains(classes[i][j]));
        }
    } else {
        assert(classes.take(0) =~= Seq::<Seq<u64>>::empty());
    }
}

/// No entry of any class is unvisited exactly if the count is zero.
pub proof fn lemma_unvisited_zero(classes: Seq<Seq<u64>>, visited: Set<u64>)
    ensures
        unvisited(classes, visited) == 0 <==> forall|i: int, j: int|
            0 <= i < classes.len() && 0 <= j < classes[i].len() ==> visited.contains(
                #[trigger] classes[i][j],
            ),
    decreases classes.len(),
{
    if classes.len() > 0 {
        let init = classes.drop_last();
        let last = classes.last();
        lemma_unvisited_zero(init, visited);
        lemma_unvisited_in_zero(last, visited);
        if unvisited(classes, visited) == 0 {
            assert forall|i: int, j: int|
                0 <= i < classes.len() && 0 <= j < classes[i].len() implies visited.contains(
                #[trigger] classes[i][j],
            ) by {
                if i < classes.len() - 1 {
                    assert(init[i][j] == classes[i][j]);
                } else {
                    assert(last[j] == classes[i][j]);
                }
            }
        } else if forall|i: int, j: int|
            0 <= i < classes.len() && 0 <= j < classes[i].len() ==> visited.contains(
                #[trigger] classes[i][j],
            ) {
            assert forall|i: int, j: int|
                0 <= i < init.len() && 0 <= j < init[i].len() implies visited.contains(
                #[trigger] init[i][j],
            ) by {
                assert(init[i][j] == classes[i][j]);
            }
            assert forall|j: int| 0 <= j < last.len() implies visited.contains(
                #[trigger] last[j],
            ) by {
                assert(last[j] == classes[classes.len() - 1][j]);
            }
        }
    }
}

/// While an entry is unvisited, a pass visits at least one more entry.
pub proof fn lemma_pass_progress(s: Selection, classes: Seq<Seq<u64>>)
    requires
        unvisited(classes, s.visited) != 0,
    ensures
        unvisited(classes, pass(s, classes).visited) < unvisited(classes, s.visited),
{
    lemma_pass_prefix(s, classes, classes.len() as int);
    assert(classes.take(classes.len() as int) =~= classes);
    lemma_pass_grows(s, classes);
    lemma_unvisited_zero(classes, s.visited);
    lemma_unvisited_shrinks(classes, s.visited, pass(s, classes).visited);
}


/// Every adjacency of `now` is an adjacency of `then`.
pub open spec fn within(now: Map<u64, Set<u64>>, then: Map<u64, Set<u64>>) -> bool {
    forall|k: u64, y: u64|
        now.contains_key(k) && #[trigger] now[k].contains(y) ==> then.contains_key(k)
            && then[k].contains(y)
}

/// `z` is one of the chosen elements, or a neighbour of one, or a neighbour
/// of a neighbour of one.
pub open spec fn dominated(topology: Map<u64, Set<u64>>, chosen: Seq<u64>, z: u64) -> bool {
    exists|k: int| 0 <= k < chosen.len() && marked_by(topology, #[trigger] chosen[k]).contains(z)
}

/// `x` is a member of one of the classes.
pub open spec fn is_member(classes: Seq<Seq<u64>>, x: u64) -> bool {
    exists|i: int, j: int|
        0 <= i < classes.len() && 0 <= j < classes[i].len() && #[trigger] classes[i][j] == x
}

/// What holds of every state of a selection under the mapping `topology`:
/// the working mapping has no adjacency that `topology` lacks, every visited
/// element is dominated by a chosen one, and every chosen element is a
/// member of a class, visited, and chosen once.
pub open spec fn sound(s: Selection, classes: Seq<Seq<u64>>, topology: Map<u64, Set<u64>>) -> bool {
    &&& within(s.topology, topology)
    &&& forall|z: u64| s.visited.contains(z) ==> dominated(topology, s.chosen, z)
    &&& forall|k: int|
        0 <= k < s.chosen.len() ==> is_member(classes, #[trigger] s.chosen[k])
            && s.visited.contains(s.chosen[k])
    &&& s.chosen.no_duplicates()
}

/// With fewer adjacencies an element marks no more.
pub proof fn lemma_marked_within(now: Map<u64, Set<u64>>, then: Map<u64, Set<u64>>, x: u64)
    requires
        within(now, then),
    ensures
        marked_by(now, x).subset_of(marked_by(then, x)),
{
    assert forall|z: u64| marked_by(now, x).contains(z) implies marked_by(then, x).contains(z) by {
        if z != x {
            if neighbours(now, x).contains(z) {
                assert(now[x].contains(z));
            } else {
                let n = choose|n: u64|
                    neighbours(now, x).contains(n) && #[trigger] neighbours(now, n).contains(z);
                assert(now[x].contains(n));
                assert(now[n].contains(z));
                assert(neighbours(then, x).contains(n) && neighbours(then, n).contains(z));
            }
        }
    }
}

/// A turn of a class keeps the state sound.
pub proof fn lemma_step_sound(
    s: Selection,
    class: Seq<u64>,
    classes: Seq<Seq<u64>>,
    topology: Map<u64, Set<u64>>,
)
    requires
        sound(s, classes, topology),
        forall|j: int| 0 <= j < class.len() ==> is_member(classes, #[trigger] class[j]),
    ensures
        sound(step(s, class), classes, topology),
{
    let after = step(s, class);
    if pick(class, s.visited, s.topology) is Some {
        let x = pick(class, s.visited, s.topology)->0;
        let j = choose|j: int| is_pick_at(class, s.visited, s.topology, j);
        assert(is_pick_at(class, s.visited, s.topology, j));
        assert(is_member(classes, class[j]));
        lemma_marked_within(s.topology, topology, x);
        assert(within(after.topology, topology)) by {
            assert forall|k: u64, y: u64|
                after.topology.contains_key(k) && #[trigger] after.topology[k].contains(
                    y,
                ) implies topology.contains_key(k) && topology[k].contains(y) by {
                assert(s.topology[k].contains(y));
            }
        }
        assert forall|z: u64| after.visited.contains(z) implies dominated(
            topology,
            after.chosen,
            z,
        ) by {
            if s.visited.contains(z) {
                let k = choose|k: int|
                    0 <= k < s.chosen.len() && marked_by(topology, #[trigger] s.chosen[k]).contains(
                        z,
                    );
                assert(after.chosen[k] == s.chosen[k]);
            } else {
                assert(marked_by(topology, x).contains(z));
                assert(after.chosen[s.chosen.len() as int] == x);
            }
        }
        assert forall|k: int| 0 <= k < after.chosen.len() implies is_member(
            classes,
            #[trigger] after.chosen[k],
        ) && after.visited.contains(after.chosen[k]) by {
            if k < s.chosen.len() {
                assert(after.chosen[k] == s.chosen[k]);
            } else {
                assert(marked_by(s.topology, x).contains(x));
            }
        }
        assert forall|a: int, b: int|
            0 <= a < after.chosen.len() && 0 <= b < after.chosen.len() && a
                != b implies after.chosen[a] != after.chosen[b] by {
            if a < s.chosen.len() && b < s.chosen.len() {
                assert(s.chosen[a] != s.chosen[b]);
            } else if a < s.chosen.len() {
                assert(s.visited.contains(s.chosen[a]));
            } else {
                assert(s.visited.contains(s.chosen[b]));
            }
        }
    }
}

/// A pass keeps the state sound.
pub proof fn lemma_pass_sound(
    s: Selection,
    turns: Seq<Seq<u64>>,
    classes: Seq<Seq<u64>>,
    topology: Map<u64, Set<u64>>,
)
    requires
        sound(s, classes, topology),
        forall|i: int, j: int|
            0 <= i < turns.len() && 0 <= j < turns[i].len() ==> is_member(
                classes,
                #[trigger] turns[i][j],
            ),
    ensures
        sound(pass(s, turns), classes, topology),
    decreases turns.len(),
{
    if turns.len() > 0 {
        let init = turns.drop_last();
        assert forall|i: int, j: int| 0 <= i < init.len() && 0 <= j < init[i].len() implies is_member(
            classes,
            #[trigger] init[i][j],
        ) by {
            assert(init[i][j] == turns[i][j]);
        }
        lemma_pass_sound(s, init, classes, topology);
        assert forall|j: int| 0 <= j < turns.last().len() implies is_member(
            classes,
            #[trigger] turns.last()[j],
        ) by {
            assert(turns.last()[j] == turns[turns.len() - 1][j]);
        }
        lemma_step_sound(pass(s, init), turns.last(), classes, topology);
    }
}

/// From a sound state the selection ends with every member of every class
/// dominated, and chooses members only.
pub proof fn lemma_select_sound(s: Selection, classes: Seq<Seq<u64>>, topology: Map<u64, Set<u64>>)
    requires
        sound(s, classes, topology),
    ensures
        forall|i: int, j: int|
            0 <= i < classes.len() && 0 <= j < classes[i].len() ==> dominated(
                topology,
                select(s, classes),
                #[trigger] classes[i][j],
            ),
        forall|k: int|
            0 <= k < select(s, classes).len() ==> is_member(
                classes,
                #[trigger] select(s, classes)[k],
            ),
        select(s, classes).no_duplicates(),
    decreases unvisited(classes, s.visited),
{
    if unvisited(classes, s.visited) == 0 {
        lemma_unvisited_zero(classes, s.visited);
    } else {
        lemma_pass_progress(s, classes);
        lemma_pass_sound(s, classes, classes, topology);
        lemma_select_sound(pass(s, classes), classes, topology);
    }
}

/// The selection dominates: every member of every class is a chosen
/// element, or adjacent to one, or adjacent to a neighbour of one, in the
/// mapping that the selection started from; and every chosen element is a
/// member of a class, chosen once.
pub proof fn lemma_select_dominates(classes: Seq<Seq<u64>>, topology: Map<u64, Set<u64>>)
    ensures
        forall|i: int, j: int|
            0 <= i < classes.len() && 0 <= j < classes[i].len() ==> dominated(
                topology,
                select(start(topology), classes),
                #[trigger] classes[i][j],
            ),
        forall|k: int|
            0 <= k < select(start(topology), classes).len() ==> is_member(
                classes,
                #[trigger] select(start(topology), classes)[k],
            ),
        select(start(topology), classes).no_duplicates(),
{
    lemma_select_sound(start(topology), classes, topology);
}

/// The classes that a vector of id vectors stands for.
pub open spec fn chains_view(classes: Vec<Vec<u64>>) -> Seq<Seq<u64>> {
    Seq::new(classes@.len(), |i: int| classes@[i]@)
}

/// The selection state that the three working collections stand for.
pub open spec fn state_of(
    visited: HashSet<u64>,
    topology: HashMap<u64, HashSet<u64>>,
    chosen: Vec<u64>,
) -> Selection {
    Selection { visited: visited@, topology: adjacency(topology), chosen: chosen@ }
}

/// The number of elements adjacent to `x` in the working mapping.
fn degree_of(topology: &HashMap<u64, HashSet<u64>>, x: u64) -> (d: usize)
    ensures
        d == degree(adjacency(*topology), x),
{
    match topology.get(&x) {
        Some(s) => s.len(),
        None => 0,
    }
}

/// The neighbours of `x` in the working mapping, each once.
fn neighbours_of(topology: &HashMap<u64, HashSet<u64>>, x: u64) -> (adj: Vec<u64>)
    ensures
        adj@.to_set() == neighbours(adjacency(*topology), x),
{
    match topology.get(&x) {
        Some(s) => members(s),
        None => {
            let adj: Vec<u64> = Vec::new();
            assert(adj@.to_set() =~= Set::<u64>::empty());
            adj
        },
    }
}

/// The pick of a class: its first unvisited member of largest degree.
fn pick_from(
    class: &Vec<u64>,
    visited: &HashSet<u64>,
    topology: &HashMap<u64, HashSet<u64>>,
) -> (r: Option<u64>)
    ensures
        r == pick(class@, visited@, adjacency(*topology)),
{
    let ghost topo = adjacency(*topology);
    let mut best: Option<(usize, usize)> = None;
    let mut j: usize = 0;
    while j < class.len()
        invariant
            0 <= j <= class.len(),
            topo == adjacency(*topology),
            match best {
                None => forall|k: int| 0 <= k < j ==> visited@.contains(#[trigger] class@[k]),
                Some((b, d)) => {
                    &&& b < j
                    &&& !visited@.contains(class@[b as int])
                    &&& d == degree(topo, class@[b as int])
                    &&& forall|k: int|
                        0 <= k < j && !visited@.contains(#[trigger] class@[k]) ==> {
                            ||| degree(topo, class@[k]) < d
                            ||| (degree(topo, class@[k]) == d && b <= k)
                        }
                },
            },
        decreases class.len() - j,
    {
        let x = class[j];
        if !visited.contains(&x) {
            let d = degree_of(topology, x);
            match best {
                None => {
                    best = Some((j, d));
                },
                Some((_, bd)) => {
                    if d > bd {
                        best = Some((j, d));
                    }
                },
            }
        }
        j += 1;
    }
    match best {
        None => {
            proof {
                lemma_pick_none(class@, visited@, topo);
            }
            None
        },
        Some((b, _)) => {
            proof {
                assert(is_pick_at(class@, visited@, topo, b as int));
                let c = choose|c: int| is_pick_at(class@, visited@, topo, c);
                assert(is_pick_at(class@, visited@, topo, c));
                assert(!visited@.contains(class@[c]));
                assert(!visited@.contains(class@[b as int]));
                assert(c == b);
            }
            Some(class[b])
        },
    }
}

/// Marks every item of `items` as visited.
fn visit_all(visited: &mut HashSet<u64>, items: &Vec<u64>)
    ensures
        final(visited)@ == old(visited)@.union(items@.to_set()),
{
    let ghost before = visited@;
    let mut k: usize = 0;
    assert(items@.take(0).to_set() =~= Set::<u64>::empty());
    assert(before.union(Set::<u64>::empty()) =~= before);
    while k < items.len()
        invariant
            0 <= k <= items.len(),
            visited@ == before.union(items@.take(k as int).to_set()),
        decreases items.len() - k,
    {
        proof {
            items@.lemma_take_succ_push(k as int);
            items@.take(k as int).lemma_push_to_set_commute(items@[k as int]);
            assert(before.union(items@.take(k as int).to_set()).insert(items@[k as int])
                =~= before.union(items@.take(k as int).to_set().insert(items@[k as int])));
        }
        visited.insert(items[k]);
        k += 1;
    }
    assert(items@.take(items.len() as int) =~= items@);
}

/// What the first `i` neighbours in `adj` mark: themselves and their
/// neighbours.
pub open spec fn marked_upto(topology: Map<u64, Set<u64>>, adj: Seq<u64>, i: int) -> Set<u64> {
    Set::new(
        |z: u64|
            exists|a: int|
                0 <= a < i && a < adj.len() && (#[trigger] adj[a] == z || neighbours(
                    topology,
                    adj[a],
                ).contains(z)),
    )
}

/// Marks `x`, its neighbours and their neighbours as visited.
fn mark(
    visited: &mut HashSet<u64>,
    topology: &HashMap<u64, HashSet<u64>>,
    x: u64,
    adj: &Vec<u64>,
)
    requires
        adj@.to_set() == neighbours(adjacency(*topology), x),
    ensures
        final(visited)@ == old(visited)@.union(marked_by(adjacency(*topology), x)),
{
    let ghost topo = adjacency(*topology);
    let ghost before = visited@;
    visited.insert(x);
    let mut i: usize = 0;
    assert(visited@ =~= before.insert(x).union(marked_upto(topo, adj@, 0)));
    while i < adj.len()
        invariant
            0 <= i <= adj.len(),
            topo == adjacency(*topology),
            visited@ == before.insert(x).union(marked_upto(topo, adj@, i as int)),
        decreases adj.len() - i,
    {
        let n = adj[i];
        let far = neighbours_of(topology, n);
        let ghost outer = visited@;
        visited.insert(n);
        visit_all(visited, &far);
        assert(visited@ =~= before.insert(x).union(marked_upto(topo, adj@, i + 1))) by {
            assert forall|z: u64|
                marked_upto(topo, adj@, i + 1).contains(z) <==> (marked_upto(
                    topo,
                    adj@,
                    i as int,
                ).contains(z) || z == n || far@.to_set().contains(z)) by {
                if marked_upto(topo, adj@, i + 1).contains(z) {
                    let a = choose|a: int|
                        0 <= a < i + 1 && a < adj.len() && (#[trigger] adj@[a] == z || neighbours(
                            topo,
                            adj@[a],
                        ).contains(z));
                    if a < i {
                        assert(adj@[a] == z || neighbours(topo, adj@[a]).contains(z));
                    }
                }
                if z == n || far@.to_set().contains(z) {
                    assert(adj@[i as int] == z || neighbours(topo, adj@[i as int]).contains(z));
                }
                if marked_upto(topo, adj@, i as int).contains(z) {
                    let a = choose|a: int|
                        0 <= a < i && a < adj.len() && (#[trigger] adj@[a] == z || neighbours(
                            topo,
                            adj@[a],
                        ).contains(z));
                    assert(adj@[a] == z || neighbours(topo, adj@[a]).contains(z));
                }
            }
        }
        i += 1;
    }
    assert(visited@ =~= before.union(marked_by(topo, x))) by {
        assert forall|z: u64|
            before.insert(x).union(marked_upto(topo, adj@, adj.len() as int)).contains(z)
                <==> before.union(marked_by(topo, x)).contains(z) by {
            if marked_upto(topo, adj@, adj.len() as int).contains(z) {
                let a = choose|a: int|
                    0 <= a < adj.len() && a < adj.len() && (#[trigger] adj@[a] == z || neighbours(
                        topo,
                        adj@[a],
                    ).contains(z));
                assert(adj@.contains(adj@[a]));
                assert(adj@.to_set().contains(adj@[a]));
                assert(neighbours(topo, x).contains(adj@[a]));
            }
            if marked_by(topo, x).contains(z) && z != x {
                if neighbours(topo, x).contains(z) {
                    assert(adj@.to_set().contains(z));
                    assert(adj@.contains(z));
                    let a = choose|a: int| 0 <= a < adj.len() && adj@[a] == z;
                    assert(adj@[a] == z);
                } else {
                    let n = choose|n: u64|
                        neighbours(topo, x).contains(n) && #[trigger] neighbours(topo, n).contains(
                            z,
                        );
                    assert(adj@.to_set().contains(n));
                    assert(adj@.contains(n));
                    let a = choose|a: int| 0 <= a < adj.len() && adj@[a] == n;
                    assert(adj@[a] == n);
                }
            }
        }
    }
}


/// `set` without the first `b` items of `adj`, except `k` itself.
pub open spec fn without_upto(set: Set<u64>, adj: Seq<u64>, k: u64, b: int) -> Set<u64> {
    Set::new(
        |y: u64|
            set.contains(y) && !(y != k && exists|c: int|
                0 <= c < b && c < adj.len() && #[trigger] adj[c] == y),
    )
}

/// Removes the items of `adj`, except `k` itself, from the adjacency set `s`
/// of `k`.
fn strike(s: &mut HashSet<u64>, adj: &Vec<u64>, k: u64)
    ensures
        final(s)@ == without_upto(old(s)@, adj@, k, adj@.len() as int),
{
    let ghost before = s@;
    let mut b: usize = 0;
    assert(s@ =~= without_upto(before, adj@, k, 0));
    while b < adj.len()
        invariant
            0 <= b <= adj.len(),
            s@ == without_upto(before, adj@, k, b as int),
        decreases adj.len() - b,
    {
        let n = adj[b];
        if n != k {
            s.remove(&n);
        }
        assert(s@ =~= without_upto(before, adj@, k, b + 1)) by {
            assert forall|y: u64|
                without_upto(before, adj@, k, b + 1).contains(y) <==> (without_upto(
                    before,
                    adj@,
                    k,
                    b as int,
                ).contains(y) && !(y != k && y == n)) by {
                if y != k && y == n {
                    assert(adj@[b as int] == y);
                }
                if before.contains(y) && y != k && (exists|c: int|
                    0 <= c < b + 1 && c < adj.len() && #[trigger] adj@[c] == y) {
                    let c = choose|c: int|
                        0 <= c < b + 1 && c < adj.len() && #[trigger] adj@[c] == y;
                    if c < b {
                        assert(adj@[c] == y);
                    }
                }
                if before.contains(y) && y != k && (exists|c: int|
                    0 <= c < b && c < adj.len() && #[trigger] adj@[c] == y) {
                    let c = choose|c: int| 0 <= c < b && c < adj.len() && #[trigger] adj@[c] == y;
                    assert(adj@[c] == y);
                }
            }
        }
        b += 1;
    }
}

/// Removes the neighbours `adj` of `x` from the adjacency sets of all other
/// elements, and then the entry of `x`.
fn prune_from(topology: &mut HashMap<u64, HashSet<u64>>, x: u64, adj: &Vec<u64>)
    requires
        adj@.to_set() == neighbours(adjacency(*old(topology)), x),
    ensures
        adjacency(*final(topology)) == prune(adjacency(*old(topology)), x),
{
    let ghost before = adjacency(*topology);
    let keys = keys_of(topology);
    let mut i: usize = 0;
    while i < keys.len()
        invariant
            0 <= i <= keys.len(),
            keys@.to_set() == before.dom(),
            keys@.no_duplicates(),
            topology@.dom() == before.dom(),
            forall|a: int|
                0 <= a < i ==> (#[trigger] topology@[keys@[a]])@ == without_upto(
                    before[keys@[a]],
                    adj@,
                    keys@[a],
                    adj@.len() as int,
                ),
            forall|a: int| i <= a < keys.len() ==> (#[trigger] topology@[keys@[a]])@ == before[keys@[a]],
        decreases keys.len() - i,
    {
        let k = keys[i];
        assert(keys@.contains(keys@[i as int]));
        assert(keys@.to_set().contains(k));
        let ghost held = topology@;
        let taken = topology.remove(&k);
        match taken {
            Some(found) => {
                let mut s = found;
                strike(&mut s, adj, k);
                topology.insert(k, s);
                assert(topology@.dom() =~= before.dom());
                assert forall|a: int| 0 <= a < keys.len() && a != i implies #[trigger] topology@[keys@[a]]
                    == held[keys@[a]] by {
                    assert(keys@[a] != keys@[i as int]);
                }
            },
            None => {
                assert(false);
            },
        }
        i += 1;
    }
    topology.remove(&x);
    assert(adjacency(*topology) =~~= prune(before, x)) by {
        assert forall|k: u64| adjacency(*topology).contains_key(k) implies #[trigger] adjacency(
            *topology,
        )[k] =~= prune(before, x)[k] by {
            assert(keys@.to_set().contains(k));
            assert(keys@.contains(k));
            let a = choose|a: int| 0 <= a < keys.len() && keys@[a] == k;
            assert(topology@[keys@[a]]@ == without_upto(
                before[keys@[a]],
                adj@,
                keys@[a],
                adj@.len() as int,
            ));
            assert forall|y: u64|
                without_upto(before[k], adj@, k, adj@.len() as int).contains(y) <==> prune(
                    before,
                    x,
                )[k].contains(y) by {
                if exists|c: int| 0 <= c < adj@.len() && c < adj.len() && #[trigger] adj@[c] == y {
                    let c = choose|c: int|
                        0 <= c < adj@.len() && c < adj.len() && #[trigger] adj@[c] == y;
                    assert(adj@.contains(adj@[c]));
                    assert(adj@.to_set().contains(y));
                }
                if neighbours(before, x).contains(y) {
                    assert(adj@.to_set().contains(y));
                    assert(adj@.contains(y));
                    let c = choose|c: int| 0 <= c < adj.len() && adj@[c] == y;
                    assert(adj@[c] == y);
                }
            }
        }
    }
}

/// One class takes its turn.
fn take_turn(
    class: &Vec<u64>,
    visited: &mut HashSet<u64>,
    topology: &mut HashMap<u64, HashSet<u64>>,
    chosen: &mut Vec<u64>,
)
    ensures
        state_of(*final(visited), *final(topology), *final(chosen)) == step(
            state_of(*old(visited), *old(topology), *old(chosen)),
            class@,
        ),
{
    match pick_from(class, visited, topology) {
        None => {},
        Some(x) => {
            let adj = neighbours_of(topology, x);
            mark(visited, topology, x, &adj);
            prune_from(topology, x, &adj);
            chosen.push(x);
        },
    }
}

/// One pass: every class takes its turn, in the order given.
pub fn run_pass(
    classes: &Vec<Vec<u64>>,
    visited: &mut HashSet<u64>,
    topology: &mut HashMap<u64, HashSet<u64>>,
    chosen: &mut Vec<u64>,
)
    ensures
        state_of(*final(visited), *final(topology), *final(chosen)) == pass(
            state_of(*old(visited), *old(topology), *old(chosen)),
            chains_view(*classes),
        ),
{
    let ghost first = state_of(*visited, *topology, *chosen);
    let ghost all = chains_view(*classes);
    let mut i: usize = 0;
    assert(all.take(0) =~= Seq::<Seq<u64>>::empty());
    while i < classes.len()
        invariant
            0 <= i <= classes.len(),
            all == chains_view(*classes),
            state_of(*visited, *topology, *chosen) == pass(first, all.take(i as int)),
        decreases classes.len() - i,
    {
        proof {
            assert(all.take(i + 1).drop_last() =~= all.take(i as int));
            assert(all.take(i + 1).last() == classes@[i as int]@);
        }
        take_turn(&classes[i], visited, topology, chosen);
        i += 1;
    }
    assert(all.take(classes.len() as int) =~= all);
}

/// Whether every member of every class is visited.
pub fn all_visited(classes: &Vec<Vec<u64>>, visited: &HashSet<u64>) -> (b: bool)
    ensures
        b == (unvisited(chains_view(*classes), visited@) == 0),
{
    let ghost all = chains_view(*classes);
    let mut i: usize = 0;
    while i < classes.len()
        invariant
            0 <= i <= classes.len(),
            all == chains_view(*classes),
            forall|a: int, j: int|
                0 <= a < i && 0 <= j < all[a].len() ==> visited@.contains(#[trigger] all[a][j]),
        decreases classes.len() - i,
    {
        let class = &classes[i];
        let mut j: usize = 0;
        while j < class.len()
            invariant
                0 <= j <= class.len(),
                0 <= i < classes.len(),
                all == chains_view(*classes),
                class@ == all[i as int],
                forall|k: int| 0 <= k < j ==> visited@.contains(#[trigger] class@[k]),
            decreases class.len() - j,
        {
            if !visited.contains(&class[j]) {
                proof {
                    assert(!visited@.contains(all[i as int][j as int]));
                    lemma_unvisited_zero(all, visited@);
                }
                return false;
            }
            j += 1;
        }
        i += 1;
    }
    proof {
        lemma_unvisited_zero(all, visited@);
    }
    true
}

/// What a class is ordered by: its size and its colour.
#[derive(Debug, Clone, Copy, PartialEq, Eq)]
pub struct ClassKey {
    pub size: usize,
    pub color: usize,
}

impl Ordered for ClassKey {
    /// Larger classes first; among classes of one size, the smaller colour
    /// first.
    open spec fn leq(self, other: Self) -> bool {
        self.size > other.size || (self.size == other.size && self.color <= other.color)
    }

    proof fn leq_is_total() {
        let r = |a: Self, b: Self| a.leq(b);
        assert(vstd::relations::reflexive(r));
        assert(vstd::relations::antisymmetric(r)) by {
            assert forall|x: Self, y: Self| #[trigger] r(x, y) && #[trigger] r(y, x) implies x
                == y by {
                assert(x.size == y.size && x.color == y.color);
            }
        }
        assert(vstd::relations::transitive(r));
        assert(vstd::relations::strongly_connected(r));
    }

    fn le(&self, other: &Self) -> (b: bool) {
        self.size > other.size || (self.size == other.size && self.color <= other.color)
    }
}

/// The key of every class, in the order of the colours.
pub open spec fn class_keys(classes: Seq<Seq<u64>>) -> Seq<ClassKey> {
    Seq::new(
        classes.len(),
        |c: int| ClassKey { size: classes[c].len() as usize, color: c as usize },
    )
}

/// The classes sorted by size, largest first; classes of one size keep the
/// order of their colours.
pub open spec fn largest_first(classes: Seq<Seq<u64>>) -> Seq<Seq<u64>> {
    let keys = class_keys(classes).sort_by(order_of::<ClassKey>());
    Seq::new(keys.len(), |i: int| classes[keys[i].color as int])
}

/// The dominating set of a chain partition under an adjacency mapping: the
/// classes are taken largest first, and passes are repeated until every
/// member of every class is visited.
pub open spec fn dominators(classes: Seq<Seq<u64>>, topology: Map<u64, Set<u64>>) -> Seq<u64> {
    select(start(topology), largest_first(classes))
}

/// Ordering the classes keeps their members.
pub proof fn lemma_largest_first_members(classes: Seq<Seq<u64>>)
    requires
        classes.len() <= usize::MAX,
    ensures
        forall|x: u64| is_member(classes, x) <==> is_member(largest_first(classes), x),
{
    let keys = class_keys(classes);
    let ordered = keys.sort_by(order_of::<ClassKey>());
    let turns = largest_first(classes);
    ClassKey::leq_is_total();
    keys.lemma_sort_by_ensures(order_of::<ClassKey>());
    assert forall|x: u64| is_member(classes, x) implies is_member(turns, x) by {
        let (i, j) = choose|i: int, j: int|
            0 <= i < classes.len() && 0 <= j < classes[i].len() && #[trigger] classes[i][j] == x;
        assert(keys[i].color == i);
        assert(keys.contains(keys[i]));
        vstd::seq_lib::to_multiset_contains(keys, keys[i]);
        vstd::seq_lib::to_multiset_contains(ordered, keys[i]);
        assert(ordered.contains(keys[i]));
        let a = choose|a: int| 0 <= a < ordered.len() && ordered[a] == keys[i];
        assert(turns[a] == classes[i]);
        assert(turns[a][j] == x);
    }
    assert forall|x: u64| is_member(turns, x) implies is_member(classes, x) by {
        let (a, j) = choose|a: int, j: int|
            0 <= a < turns.len() && 0 <= j < turns[a].len() && #[trigger] turns[a][j] == x;
        assert(ordered.contains(ordered[a]));
        assert(keys.contains(ordered[a]));
        let i = choose|i: int| 0 <= i < keys.len() && keys[i] == ordered[a];
        assert(keys[i].color == i);
        assert(classes[i][j] == x);
    }
}

/// The dominating set dominates: every member of every class is a chosen
/// element, or adjacent to one, or adjacent to a neighbour of one; and every
/// chosen element is a member of a class, chosen once.
pub proof fn lemma_dominators_dominate(classes: Seq<Seq<u64>>, topology: Map<u64, Set<u64>>)
    requires
        classes.len() <= usize::MAX,
    ensures
        forall|x: u64|
            is_member(classes, x) ==> dominated(topology, dominators(classes, topology), x),
        forall|k: int|
            0 <= k < dominators(classes, topology).len() ==> is_member(
                classes,
                #[trigger] dominators(classes, topology)[k],
            ),
        dominators(classes, topology).no_duplicates(),
{
    let turns = largest_first(classes);
    lemma_largest_first_members(classes);
    lemma_select_dominates(turns, topology);
    assert forall|x: u64| is_member(classes, x) implies dominated(
        topology,
        dominators(classes, topology),
        x,
    ) by {
        assert(is_member(turns, x));
        let (a, j) = choose|a: int, j: int|
            0 <= a < turns.len() && 0 <= j < turns[a].len() && #[trigger] turns[a][j] == x;
        assert(dominated(topology, select(start(topology), turns), turns[a][j]));
    }
}

/// A copy of a vector of ids.
fn copy_of(v: &Vec<u64>) -> (r: Vec<u64>)
    ensures
        r@ == v@,
{
    let mut r: Vec<u64> = Vec::new();
    let mut i: usize = 0;
    while i < v.len()
        invariant
            0 <= i <= v.len(),
            r@ == v@.take(i as int),
        decreases v.len() - i,
    {
        r.push(v[i]);
        assert(v@.take(i + 1) =~= v@.take(i as int).push(v@[i as int]));
        i += 1;
    }
    assert(v@.take(v.len() as int) =~= v@);
    r
}

/// The classes sorted by size, largest first.
pub fn order_classes(classes: &Vec<Vec<u64>>) -> (ordered: Vec<Vec<u64>>)
    ensures
        chains_view(ordered) == largest_first(chains_view(*classes)),
{
    let ghost all = chains_view(*classes);
    let mut keys: Vec<ClassKey> = Vec::new();
    let mut c: usize = 0;
    while c < classes.len()
        invariant
            0 <= c <= classes.len(),
            all == chains_view(*classes),
            keys@ == class_keys(all).take(c as int),
        decreases classes.len() - c,
    {
        keys.push(ClassKey { size: classes[c].len(), color: c });
        assert(class_keys(all).take(c + 1) =~= class_keys(all).take(c as int).push(
            class_keys(all)[c as int],
        ));
        c += 1;
    }
    assert(class_keys(all).take(classes.len() as int) =~= class_keys(all));
    let keys = sorted(&keys);
    proof {
        ClassKey::leq_is_total();
        class_keys(all).lemma_sort_by_ensures(order_of::<ClassKey>());
        assert forall|i: int| 0 <= i < keys@.len() implies (#[trigger] keys@[i]).color
            < classes.len() by {
            assert(keys@.contains(keys@[i]));
            assert(class_keys(all).contains(keys@[i]));
        }
    }
    let mut ordered: Vec<Vec<u64>> = Vec::new();
    let mut i: usize = 0;
    while i < keys.len()
        invariant
            0 <= i <= keys.len(),
            all == chains_view(*classes),
            ordered.len() == i,
            forall|k: int| 0 <= k < keys@.len() ==> (#[trigger] keys@[k]).color < classes.len(),
            forall|k: int| 0 <= k < i ==> (#[trigger] ordered@[k])@ == all[keys@[k].color as int],
        decreases keys.len() - i,
    {
        let class = copy_of(&classes[keys[i].color]);
        ordered.push(class);
        i += 1;
    }
    assert(chains_view(ordered) =~= largest_first(all));
    ordered
}

} // verus!
