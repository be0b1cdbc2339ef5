//! Reading hash sets and hash maps of element ids as vectors and as
//! mathematical sets.
use std::collections::HashMap;
use std::collections::HashSet;
use vstd::prelude::*;
use vstd::std_specs::iter::IteratorSpec;

verus! {

broadcast use vstd::std_specs::hash::group_hash_axioms;

/// The adjacency mapping that a hash map of hash sets stands for.
pub open spec fn adjacency(m: HashMap<u64, HashSet<u64>>) -> Map<u64, Set<u64>> {
    Map::new(|k: u64| m@.contains_key(k), |k: u64| m@[k]@)
}

/// The elements adjacent to `x`; none where the mapping has no entry for `x`.
pub open spec fn neighbours(topology: Map<u64, Set<u64>>, x: u64) -> Set<u64> {
    if topology.contains_key(x) {
        topology[x]
    } else {
        Set::empty()
    }
}

/// The members of `s`, each once, in no particular order.
pub fn members(s: &HashSet<u64>) -> (v: Vec<u64>)
    ensures
        v@.to_set() == s@,
        v@.no_duplicates(),
{
    let mut v: Vec<u64> = Vec::new();
    let ghost all: Seq<u64> = s.iter().remaining().unref();
    for x in it: s.iter()
        invariant
            it.seq().unref() == all,
            v@ == all.take(it.index()),
    {
        v.push(*x);
    }
    assert(v@ =~= all);
    assert(all.no_duplicates()) by {
        let r = s.iter().remaining();
        assert forall|i: int, j: int|
            0 <= i < all.len() && 0 <= j < all.len() && i != j implies all[i] != all[j] by {
            assert(r[i] != r[j]);
        }
    }
    v
}

/// The keys of `m`, each once, in no particular order.
pub fn keys_of<V>(m: &HashMap<u64, V>) -> (v: Vec<u64>)
    ensures
        v@.to_set() == m@.dom(),
        v@.no_duplicates(),
{
    let mut v: Vec<u64> = Vec::new();
    let ghost all: Seq<u64> = m.keys().remaining().unref();
    for x in it: m.keys()
        invariant
            it.seq().unref() == all,
            v@ == all.take(it.index()),
    {
        v.push(*x);
    }
    assert(v@ =~= all);
    assert(all.no_duplicates()) by {
        let r = m.keys().remaining();
        assert forall|i: int, j: int|
            0 <= i < all.len() && 0 <= j < all.len() && i != j implies all[i] != all[j] by {
            assert(r[i] != r[j]);
        }
    }
    v
}

} // verus!
