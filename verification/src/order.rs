//! Sorting by a total order, and strictly increasing vectors used as sets.
use vstd::prelude::*;
use vstd::relations::sorted_by;
use vstd::relations::total_ordering;
use vstd::seq_lib::lemma_sorted_unique;

verus! {

/// A copyable value with a total order that executable code can decide.
pub trait Ordered: Copy {
    /// `self` comes before `other`, or equals it.
    spec fn leq(self, other: Self) -> bool;

    /// The order is reflexive, antisymmetric, transitive and total.
    proof fn leq_is_total()
        ensures
            total_ordering(|a: Self, b: Self| a.leq(b)),
    ;

    /// Decides the order.
    fn le(&self, other: &Self) -> (b: bool)
        ensures
            b == self.leq(*other),
    ;
}

/// The order of an [`Ordered`] type as a relation.
pub open spec fn order_of<T: Ordered>() -> spec_fn(T, T) -> bool {
    |a: T, b: T| a.leq(b)
}

/// Sorts `v` by the order of its items; the outcome is the one sorted
/// arrangement of `v`.
pub fn sorted<T: Ordered>(v: &Vec<T>) -> (out: Vec<T>)
    ensures
        out@ == v@.sort_by(order_of::<T>()),
{
    let ghost leq = order_of::<T>();
    let mut out: Vec<T> = Vec::new();
    let mut i: usize = 0;
    proof {
        T::leq_is_total();
        assert(v@.take(0) =~= Seq::<T>::empty());
    }
    while i < v.len()
        invariant
            0 <= i <= v.len(),
            leq == order_of::<T>(),
            total_ordering(leq),
            sorted_by(out@, leq),
            out@.to_multiset() == v@.take(i as int).to_multiset(),
        decreases v.len() - i,
    {
        let x = v[i];
        let mut pos: usize = 0;
        while pos < out.len() && out[pos].le(&x)
            invariant
                0 <= pos <= out.len(),
                leq == order_of::<T>(),
                forall|k: int| 0 <= k < pos ==> leq(#[trigger] out@[k], x),
            decreases out.len() - pos,
        {
            pos += 1;
        }
        proof {
            let before = out@;
            let after = before.insert(pos as int, x);
            vstd::seq_lib::to_multiset_insert(before, pos as int, x);
            vstd::seq_lib::to_multiset_build(v@.take(i as int), x);
            assert(v@.take(i as int).push(x) =~= v@.take(i + 1));
            assert forall|a: int, b: int| 0 <= a < b < after.len() implies leq(
                after[a],
                after[b],
            ) by {
                if b < pos {
                } else if b == pos {
                } else if a < pos {
                    // after[b] lies at or behind the first item that x precedes strictly
                    assert(leq(before[a], x));
                    assert(!leq(before[pos as int], x));
                    assert(leq(x, before[pos as int]));
                    if b - 1 > pos {
                        assert(leq(before[pos as int], before[b - 1]));
                    }
                } else if a == pos {
                    assert(!leq(before[pos as int], x));
                    assert(leq(x, before[pos as int]));
                    if b - 1 > pos {
                        assert(leq(before[pos as int], before[b - 1]));
                    }
                } else {
                }
            }
        }
        out.insert(pos, x);
        i += 1;
    }
    proof {
        assert(v@.take(v.len() as int) =~= v@);
        v@.lemma_sort_by_ensures(leq);
        lemma_sorted_unique(out@, v@.sort_by(leq), leq);
    }
    out
}


/// Every item is smaller than the items behind it.
pub open spec fn increasing(s: Seq<u64>) -> bool {
    forall|i: int, j: int| 0 <= i < j < s.len() ==> s[i] < s[j]
}

/// An increasing sequence holds nothing twice, so it is as long as its set
/// of items is large.
pub proof fn lemma_increasing_len(s: Seq<u64>)
    requires
        increasing(s),
    ensures
        s.no_duplicates(),
        s.to_set().len() == s.len(),
        s.to_set().finite(),
{
    vstd::seq_lib::seq_to_set_is_finite(s);
    s.unique_seq_to_set();
}

/// Two increasing sequences with the same items are the same sequence.
pub proof fn lemma_increasing_unique(a: Seq<u64>, b: Seq<u64>)
    requires
        increasing(a),
        increasing(b),
        a.to_set() == b.to_set(),
    ensures
        a == b,
    decreases a.len(),
{
    lemma_increasing_len(a);
    lemma_increasing_len(b);
    if a.len() > 0 {
        let x = a.last();
        let y = b.last();
        assert(a.contains(x));
        assert(b.contains(y));
        assert(a.to_set().contains(y));
        assert(b.to_set().contains(x));
        assert(a.contains(y));
        assert(b.contains(x));
        let i = choose|i: int| 0 <= i < a.len() && a[i] == y;
        let j = choose|j: int| 0 <= j < b.len() && b[j] == x;
        assert(x == y);
        let a0 = a.drop_last();
        let b0 = b.drop_last();
        assert(a0.to_set() =~= b0.to_set()) by {
            assert forall|z: u64| a0.to_set().contains(z) <==> b0.to_set().contains(z) by {
                if a0.contains(z) {
                    let k = choose|k: int| 0 <= k < a0.len() && a0[k] == z;
                    assert(a[k] == z);
                    assert(a.contains(z));
                    assert(b.to_set().contains(z));
                    assert(b.contains(z));
                    let l = choose|l: int| 0 <= l < b.len() && b[l] == z;
                    assert(z < x);
                    assert(b0[l] == z);
                }
                if b0.contains(z) {
                    let k = choose|k: int| 0 <= k < b0.len() && b0[k] == z;
                    assert(b[k] == z);
                    assert(b.contains(z));
                    assert(a.to_set().contains(z));
                    assert(a.contains(z));
                    let l = choose|l: int| 0 <= l < a.len() && a[l] == z;
                    assert(z < y);
                    assert(a0[l] == z);
                }
            }
        }
        lemma_increasing_unique(a0, b0);
        assert(a =~= a0.push(x));
        assert(b =~= b0.push(y));
    } else {
        if b.len() > 0 {
            assert(b.contains(b[0]));
            assert(a.to_set().contains(b[0]));
            assert(a.contains(b[0]));
        }
        assert(a =~= b);
    }
}

/// Adds `x` to an increasing vector, which stays increasing.
pub fn insert_sorted(v: &mut Vec<u64>, x: u64)
    requires
        increasing(old(v)@),
    ensures
        increasing(final(v)@),
        final(v)@.to_set() == old(v)@.to_set().insert(x),
{
    let ghost before = v@;
    let mut pos: usize = 0;
    while pos < v.len() && v[pos] < x
        invariant
            0 <= pos <= v.len(),
            v@ == before,
            forall|k: int| 0 <= k < pos ==> #[trigger] before[k] < x,
        decreases v.len() - pos,
    {
        pos += 1;
    }
    if pos < v.len() && v[pos] == x {
        assert(before.contains(before[pos as int]));
        assert(before.to_set().insert(x) =~= before.to_set());
    } else {
        v.insert(pos, x);
        assert(v@.to_set() =~= before.to_set().insert(x)) by {
            assert forall|z: u64| v@.to_set().contains(z) <==> before.to_set().insert(
                x,
            ).contains(z) by {
                if v@.contains(z) {
                    let k = choose|k: int| 0 <= k < v@.len() && v@[k] == z;
                    if k < pos {
                        assert(before[k] == z);
                    } else if k > pos {
                        assert(before[k - 1] == z);
                    }
                }
                if before.contains(z) {
                    let k = choose|k: int| 0 <= k < before.len() && before[k] == z;
                    if k < pos {
                        assert(v@[k] == z);
                    } else {
                        assert(v@[k + 1] == z);
                    }
                }
                if z == x {
                    assert(v@[pos as int] == z);
                }
            }
        }
    }
}

} // verus!
