//! The interval ranker: canonical sets are grouped into distinct sets, and
//! each distinct set gets the number of distinct sets that come before it.
use crate::order::increasing;
use crate::order::insert_sorted;
use crate::order::lemma_increasing_len;
use crate::order::lemma_increasing_unique;
use crate::resolve::UnsharedSet;
use vstd::prelude::*;

verus! {

/// `r` leads its group: no smaller element has the same set.
pub open spec fn is_first(sets: Map<u64, Set<u64>>, r: u64) -> bool {
    &&& sets.contains_key(r)
    &&& forall|w: u64| sets.contains_key(w) && #[trigger] sets[w] == sets[r] ==> r <= w
}

/// The smallest element whose set is that of `v`.
pub open spec fn leader_of(sets: Map<u64, Set<u64>>, v: u64) -> u64 {
    choose|r: u64| is_first(sets, r) && sets[r] == sets[v]
}

/// The set of `r` is ranked before the set of `v`: it is larger (where the
/// ranking is descending; smaller where it is ascending), or as large with
/// a smaller leader.
pub open spec fn precedes(sets: Map<u64, Set<u64>>, descending: bool, r: u64, v: u64) -> bool {
    let a = sets[r].len();
    let b = sets[v].len();
    if a == b {
        r < leader_of(sets, v)
    } else if descending {
        a > b
    } else {
        a < b
    }
}

/// The leaders.
pub open spec fn leading(sets: Map<u64, Set<u64>>) -> spec_fn(u64) -> bool {
    |r: u64| is_first(sets, r)
}

/// The leaders whose sets are ranked before the set of `v`.
pub open spec fn ahead(sets: Map<u64, Set<u64>>, descending: bool, v: u64) -> spec_fn(u64) -> bool {
    |r: u64| is_first(sets, r) && precedes(sets, descending, r, v)
}

/// The number of distinct sets.
pub open spec fn distinct_count(sets: Map<u64, Set<u64>>) -> nat {
    Set::new(leading(sets)).len()
}

/// The rank of the set of `v`: the number of distinct sets that come before
/// it when the distinct sets are sorted by size.
pub open spec fn rank(sets: Map<u64, Set<u64>>, descending: bool, v: u64) -> nat {
    Set::new(ahead(sets, descending, v)).len()
}

/// The number of items of `s` of which `q` holds.
pub open spec fn count_in(s: Seq<u64>, q: spec_fn(u64) -> bool) -> nat
    decreases s.len(),
{
    if s.len() == 0 {
        0
    } else {
        count_in(s.drop_last(), q) + if q(s.last()) {
            1nat
        } else {
            0nat
        }
    }
}

/// Counting along a sequence that holds nothing twice gives the size of the
/// set of its items of which `q` holds.
pub proof fn lemma_count_in(s: Seq<u64>, q: spec_fn(u64) -> bool)
    requires
        s.no_duplicates(),
    ensures
        Set::new(|r: u64| s.contains(r) && q(r)).finite(),
        Set::new(|r: u64| s.contains(r) && q(r)).len() == count_in(s, q),
        count_in(s, q) <= s.len(),
    decreases s.len(),
{
    let all = Set::new(|r: u64| s.contains(r) && q(r));
    if s.len() == 0 {
        assert(all =~= Set::<u64>::empty());
    } else {
        let init = s.drop_last();
        let x = s.last();
        let rest = Set::new(|r: u64| init.contains(r) && q(r));
        lemma_count_in(init, q);
        assert(!init.contains(x)) by {
            if init.contains(x) {
                let k = choose|k: int| 0 <= k < init.len() && init[k] == x;
                assert(s[k] == s[s.len() - 1]);
            }
        }
        assert forall|r: u64| s.contains(r) <==> (init.contains(r) || r == x) by {
            if s.contains(r) {
                let k = choose|k: int| 0 <= k < s.len() && s[k] == r;
                if k < s.len() - 1 {
                    assert(init[k] == r);
                }
            }
            if init.contains(r) {
                let k = choose|k: int| 0 <= k < init.len() && init[k] == r;
                assert(s[k] == r);
            }
            if r == x {
                assert(s[s.len() - 1] == r);
            }
        }
        if q(x) {
            assert(all =~= rest.insert(x));
        } else {
            assert(all =~= rest);
        }
    }
}

/// The canonical sets of the elements `ks`, by element.
pub open spec fn table(ks: Seq<u64>, canon: Seq<UnsharedSet>) -> Map<u64, Set<u64>> {
    Map::new(|v: u64| ks.contains(v), |v: u64| canon[ks.index_of(v)]@)
}

/// `ks` lists elements in increasing order and `canon` their canonical
/// sets, each well formed.
pub open spec fn tabled(ks: Seq<u64>, canon: Seq<UnsharedSet>) -> bool {
    &&& increasing(ks)
    &&& canon.len() == ks.len()
    &&& forall|i: int| 0 <= i < canon.len() ==> (#[trigger] canon[i]).wf()
}

/// `l` is the first index whose canonical set is that of index `i`.
pub open spec fn is_lead(canon: Seq<UnsharedSet>, i: int, l: int) -> bool {
    &&& 0 <= l <= i
    &&& canon[l].0@ == canon[i].0@
    &&& forall|j: int| 0 <= j < l ==> (#[trigger] canon[j]).0@ != canon[i].0@
}

/// `lead` gives, for each index, the first index with the same canonical set.
pub open spec fn leads(canon: Seq<UnsharedSet>, lead: Seq<usize>) -> bool {
    &&& lead.len() == canon.len()
    &&& forall|i: int| 0 <= i < lead.len() ==> is_lead(canon, i, #[trigger] lead[i] as int)
}

/// What the table holds for the element at index `i`.
pub proof fn lemma_table_at(ks: Seq<u64>, canon: Seq<UnsharedSet>, i: int)
    requires
        tabled(ks, canon),
        0 <= i < ks.len(),
    ensures
        table(ks, canon).contains_key(ks[i]),
        table(ks, canon)[ks[i]] == canon[i]@,
        table(ks, canon)[ks[i]].len() == canon[i].0@.len(),
{
    assert(ks.contains(ks[i]));
    let k = ks.index_of(ks[i]);
    assert(0 <= k < ks.len() && ks[k] == ks[i]);
    assert(k == i);
    assert(canon[i].wf());
    lemma_increasing_len(canon[i].0@);
}

/// Two indices have the same canonical vector exactly if the table holds the
/// same set for their elements.
pub proof fn lemma_table_same(ks: Seq<u64>, canon: Seq<UnsharedSet>, i: int, j: int)
    requires
        tabled(ks, canon),
        0 <= i < ks.len(),
        0 <= j < ks.len(),
    ensures
        canon[i].0@ == canon[j].0@ <==> table(ks, canon)[ks[i]] == table(ks, canon)[ks[j]],
{
    lemma_table_at(ks, canon, i);
    lemma_table_at(ks, canon, j);
    assert(canon[i].wf());
    assert(canon[j].wf());
    if canon[i]@ == canon[j]@ {
        lemma_increasing_unique(canon[i].0@, canon[j].0@);
    }
}

/// The leaders of the table are the elements at the indices that lead, and
/// the leader of each element is the element at its leading index.
pub proof fn lemma_leads(ks: Seq<u64>, canon: Seq<UnsharedSet>, lead: Seq<usize>)
    requires
        tabled(ks, canon),
        leads(canon, lead),
    ensures
        forall|j: int|
            0 <= j < ks.len() ==> (is_first(table(ks, canon), #[trigger] ks[j]) <==> lead[j] == j),
        forall|i: int|
            0 <= i < ks.len() ==> leader_of(table(ks, canon), #[trigger] ks[i])
                == ks[lead[i] as int],
{
    let sets = table(ks, canon);
    assert forall|j: int| 0 <= j < ks.len() implies (is_first(sets, #[trigger] ks[j]) <==> lead[j]
        == j) by {
        lemma_table_at(ks, canon, j);
        assert(is_lead(canon, j, lead[j] as int));
        let l = lead[j] as int;
        if l == j {
            assert forall|w: u64| sets.contains_key(w) && #[trigger] sets[w] == sets[ks[j]] implies ks[j]
                <= w by {
                let a = choose|a: int| 0 <= a < ks.len() && ks[a] == w;
                lemma_table_same(ks, canon, a, j);
                if a < j {
                    assert(canon[a].0@ != canon[j].0@);
                }
            }
        } else {
            lemma_table_at(ks, canon, l);
            lemma_table_same(ks, canon, l, j);
            assert(sets.contains_key(ks[l]) && sets[ks[l]] == sets[ks[j]]);
            assert(ks[l] < ks[j]);
        }
    }
    assert forall|i: int| 0 <= i < ks.len() implies leader_of(sets, #[trigger] ks[i])
        == ks[lead[i] as int] by {
        assert(is_lead(canon, i, lead[i] as int));
        let l = lead[i] as int;
        assert(is_lead(canon, l, lead[l] as int));
        assert(lead[l] == l) by {
            if lead[l] < l {
                assert(canon[lead[l] as int].0@ != canon[i].0@);
            }
        }
        assert(is_first(sets, ks[l]));
        lemma_table_at(ks, canon, i);
        lemma_table_at(ks, canon, l);
        lemma_table_same(ks, canon, l, i);
        let r = leader_of(sets, ks[i]);
        assert(is_first(sets, ks[l]) && sets[ks[l]] == sets[ks[i]]);
        assert(is_first(sets, r) && sets[r] == sets[ks[i]]);
        assert(r <= ks[l] && ks[l] <= r);
    }
}

/// Whether two vectors hold the same items in the same order.
pub fn same(a: &Vec<u64>, b: &Vec<u64>) -> (r: bool)
    ensures
        r == (a@ == b@),
{
    if a.len() != b.len() {
        return false;
    }
    let mut i: usize = 0;
    while i < a.len()
        invariant
            0 <= i <= a.len(),
            a.len() == b.len(),
            forall|k: int| 0 <= k < i ==> a@[k] == b@[k],
        decreases a.len() - i,
    {
        if a[i] != b[i] {
            return false;
        }
        i += 1;
    }
    assert(a@ =~= b@);
    true
}

/// For each index, the first index with the same canonical set.
pub fn leaders(canon: &Vec<UnsharedSet>) -> (lead: Vec<usize>)
    ensures
        leads(canon@, lead@),
{
    let mut lead: Vec<usize> = Vec::new();
    let mut i: usize = 0;
    while i < canon.len()
        invariant
            0 <= i <= canon.len(),
            lead.len() == i,
            forall|k: int| 0 <= k < i ==> is_lead(canon@, k, #[trigger] lead@[k] as int),
        decreases canon.len() - i,
    {
        let mut j: usize = 0;
        while j < i && !same(&canon[j].0, &canon[i].0)
            invariant
                0 <= j <= i < canon.len(),
                forall|k: int| 0 <= k < j ==> (#[trigger] canon@[k]).0@ != canon@[i as int].0@,
            decreases i - j,
        {
            j += 1;
        }
        lead.push(j);
        i += 1;
    }
    lead
}

/// The elements of a store in increasing order.
pub fn sorted_ids(ids: &Vec<u64>) -> (ks: Vec<u64>)
    ensures
        increasing(ks@),
        ks@.to_set() == ids@.to_set(),
{
    let mut ks: Vec<u64> = Vec::new();
    let mut i: usize = 0;
    assert(ids@.take(0).to_set() =~= ks@.to_set());
    while i < ids.len()
        invariant
            0 <= i <= ids.len(),
            increasing(ks@),
            ks@.to_set() == ids@.take(i as int).to_set(),
        decreases ids.len() - i,
    {
        proof {
            ids@.lemma_take_succ_push(i as int);
            ids@.take(i as int).lemma_push_to_set_commute(ids@[i as int]);
        }
        insert_sorted(&mut ks, ids[i]);
        i += 1;
    }
    assert(ids@.take(ids.len() as int) =~= ids@);
    ks
}


/// The number of distinct sets of a table is the number of leaders along
/// its elements.
pub proof fn lemma_distinct_count(ks: Seq<u64>, canon: Seq<UnsharedSet>)
    requires
        tabled(ks, canon),
    ensures
        distinct_count(table(ks, canon)) == count_in(ks, leading(table(ks, canon))),
        count_in(ks, leading(table(ks, canon))) <= ks.len(),
{
    let q = leading(table(ks, canon));
    lemma_increasing_len(ks);
    lemma_count_in(ks, q);
    assert(Set::new(q) =~= Set::new(|r: u64| ks.contains(r) && q(r)));
}

/// The rank of a set in a table is the number of leaders ahead of it along
/// the elements of the table.
pub proof fn lemma_rank_count(ks: Seq<u64>, canon: Seq<UnsharedSet>, descending: bool, v: u64)
    requires
        tabled(ks, canon),
    ensures
        rank(table(ks, canon), descending, v) == count_in(
            ks,
            ahead(table(ks, canon), descending, v),
        ),
        count_in(ks, ahead(table(ks, canon), descending, v)) <= ks.len(),
{
    let q = ahead(table(ks, canon), descending, v);
    lemma_increasing_len(ks);
    lemma_count_in(ks, q);
    assert(Set::new(q) =~= Set::new(|r: u64| ks.contains(r) && q(r)));
}

/// Whether the element at index `j` leads, decided by indices.
pub proof fn lemma_leading_at(ks: Seq<u64>, canon: Seq<UnsharedSet>, lead: Seq<usize>, j: int)
    requires
        tabled(ks, canon),
        leads(canon, lead),
        0 <= j < ks.len(),
    ensures
        leading(table(ks, canon))(ks[j]) == (lead[j] == j),
{
    lemma_leads(ks, canon, lead);
}

/// Whether the element at index `j` leads a set that is ranked before the
/// set at index `i`, decided by indices and lengths.
pub proof fn lemma_ahead_at(
    ks: Seq<u64>,
    canon: Seq<UnsharedSet>,
    lead: Seq<usize>,
    descending: bool,
    i: int,
    j: int,
)
    requires
        tabled(ks, canon),
        leads(canon, lead),
        0 <= i < ks.len(),
        0 <= j < ks.len(),
    ensures
        0 <= lead[i] <= i,
        ahead(table(ks, canon), descending, ks[i])(ks[j]) == (lead[j] == j && {
            let a = canon[j].0@.len();
            let b = canon[i].0@.len();
            if a == b {
                j < lead[i]
            } else if descending {
                a > b
            } else {
                a < b
            }
        }),
{
    lemma_leads(ks, canon, lead);
    lemma_table_at(ks, canon, i);
    lemma_table_at(ks, canon, j);
    assert(is_lead(canon, i, lead[i] as int));
    let first = lead[i] as int;
    assert(leader_of(table(ks, canon), ks[i]) == ks[first]);
    if j < first {
        assert(ks[j] < ks[first]);
    } else if j > first {
        assert(ks[first] < ks[j]);
    }
}

/// One more item is counted where `q` holds of it.
pub proof fn lemma_count_next(s: Seq<u64>, q: spec_fn(u64) -> bool, j: int)
    requires
        0 <= j < s.len(),
    ensures
        count_in(s.take(j + 1), q) == count_in(s.take(j), q) + if q(s[j]) {
            1nat
        } else {
            0nat
        },
{
    assert(s.take(j + 1).drop_last() =~= s.take(j));
    assert(s.take(j + 1).last() == s[j]);
}

/// The number of distinct canonical sets.
pub fn count_distinct(ks: &Vec<u64>, canon: &Vec<UnsharedSet>, lead: &Vec<usize>) -> (c: usize)
    requires
        tabled(ks@, canon@),
        leads(canon@, lead@),
    ensures
        c == distinct_count(table(ks@, canon@)),
        c <= ks@.len(),
{
    let ghost q = leading(table(ks@, canon@));
    let mut c: usize = 0;
    let mut j: usize = 0;
    assert(ks@.take(0) =~= Seq::<u64>::empty());
    while j < ks.len()
        invariant
            0 <= j <= ks.len(),
            ks.len() == lead.len(),
            tabled(ks@, canon@),
            leads(canon@, lead@),
            q == leading(table(ks@, canon@)),
            c == count_in(ks@.take(j as int), q),
            c <= j,
        decreases ks.len() - j,
    {
        proof {
            lemma_count_next(ks@, q, j as int);
            lemma_leading_at(ks@, canon@, lead@, j as int);
        }
        if lead[j] == j {
            c += 1;
        }
        j += 1;
    }
    proof {
        assert(ks@.take(ks.len() as int) =~= ks@);
        lemma_distinct_count(ks@, canon@);
    }
    c
}

/// The rank of the canonical set at index `i`.
pub fn rank_of(
    ks: &Vec<u64>,
    canon: &Vec<UnsharedSet>,
    lead: &Vec<usize>,
    descending: bool,
    i: usize,
) -> (r: usize)
    requires
        tabled(ks@, canon@),
        leads(canon@, lead@),
        i < ks@.len(),
    ensures
        r == rank(table(ks@, canon@), descending, ks@[i as int]),
        r <= ks@.len(),
{
    let ghost q = ahead(table(ks@, canon@), descending, ks@[i as int]);
    let size = canon[i].0.len();
    let first = lead[i];
    let mut r: usize = 0;
    let mut j: usize = 0;
    assert(ks@.take(0) =~= Seq::<u64>::empty());
    while j < ks.len()
        invariant
            0 <= j <= ks.len(),
            ks.len() == lead.len(),
            ks.len() == canon.len(),
            tabled(ks@, canon@),
            leads(canon@, lead@),
            i < ks.len(),
            first == lead@[i as int],
            size == canon@[i as int].0@.len(),
            q == ahead(table(ks@, canon@), descending, ks@[i as int]),
            r == count_in(ks@.take(j as int), q),
            r <= j,
        decreases ks.len() - j,
    {
        let other = canon[j].0.len();
        proof {
            lemma_count_next(ks@, q, j as int);
            lemma_ahead_at(ks@, canon@, lead@, descending, i as int, j as int);
        }
        let before = if other == size {
            j < first
        } else if descending {
            other > size
        } else {
            other < size
        };
        if lead[j] == j && before {
            r += 1;
        }
        j += 1;
    }
    proof {
        assert(ks@.take(ks.len() as int) =~= ks@);
        lemma_rank_count(ks@, canon@, descending, ks@[i as int]);
    }
    r
}


/// Among the elements with the set of `x`, none of which is above `x`, one
/// is the smallest.
proof fn lemma_leader_below(sets: Map<u64, Set<u64>>, x: u64) -> (r: u64)
    requires
        sets.contains_key(x),
    ensures
        is_first(sets, r),
        sets[r] == sets[x],
    decreases x,
{
    if exists|z: u64| z < x && sets.contains_key(z) && #[trigger] sets[z] == sets[x] {
        let z = choose|z: u64| z < x && sets.contains_key(z) && #[trigger] sets[z] == sets[x];
        lemma_leader_below(sets, z)
    } else {
        x
    }
}

/// Every element has a leader, which leads and has the set of the element;
/// the leader of a leader is itself.
pub proof fn lemma_leader(sets: Map<u64, Set<u64>>, v: u64)
    requires
        sets.contains_key(v),
    ensures
        is_first(sets, leader_of(sets, v)),
        sets[leader_of(sets, v)] == sets[v],
        leader_of(sets, leader_of(sets, v)) == leader_of(sets, v),
        forall|w: u64|
            sets.contains_key(w) && sets[w] == sets[v] ==> #[trigger] leader_of(sets, w)
                == leader_of(sets, v),
{
    let r = lemma_leader_below(sets, v);
    let l = leader_of(sets, v);
    assert(is_first(sets, l) && sets[l] == sets[v]);
    assert forall|w: u64| sets.contains_key(w) && sets[w] == sets[v] implies #[trigger] leader_of(
        sets,
        w,
    ) == l by {
        let rw = lemma_leader_below(sets, w);
        let lw = leader_of(sets, w);
        assert(is_first(sets, lw) && sets[lw] == sets[w]);
        assert(l <= lw && lw <= l);
    }
}

/// Where the set of `v` comes before the set of `w`, its rank is smaller.
pub proof fn lemma_rank_less(sets: Map<u64, Set<u64>>, descending: bool, v: u64, w: u64)
    requires
        sets.dom().finite(),
        sets.contains_key(v),
        sets.contains_key(w),
        precedes(sets, descending, leader_of(sets, v), w),
    ensures
        rank(sets, descending, v) < rank(sets, descending, w),
{
    let a = Set::new(ahead(sets, descending, v));
    let b = Set::new(ahead(sets, descending, w));
    let lv = leader_of(sets, v);
    lemma_leader(sets, v);
    lemma_leader(sets, w);
    assert(b.subset_of(sets.dom()));
    vstd::set_lib::lemma_len_subset(b, sets.dom());
    assert(b.contains(lv));
    assert(a.subset_of(b.remove(lv))) by {
        assert forall|r: u64| a.contains(r) implies b.remove(lv).contains(r) by {
            assert(is_first(sets, r) && precedes(sets, descending, r, v));
            assert(precedes(sets, descending, r, w));
        }
    }
    vstd::set_lib::lemma_len_subset(a, b.remove(lv));
}

/// Ranks number the distinct sets. Every rank is below the number of
/// distinct sets; two elements have the same rank exactly if they have the
/// same set; and where the ranking is descending a larger set has the
/// smaller rank, where it is ascending a smaller set has.
pub proof fn lemma_rank_numbers(sets: Map<u64, Set<u64>>, descending: bool, v: u64, w: u64)
    requires
        sets.dom().finite(),
        sets.contains_key(v),
        sets.contains_key(w),
    ensures
        rank(sets, descending, v) < distinct_count(sets),
        sets[v] == sets[w] <==> rank(sets, descending, v) == rank(sets, descending, w),
        descending && sets[v].len() > sets[w].len() ==> rank(sets, descending, v) < rank(
            sets,
            descending,
            w,
        ),
        !descending && sets[v].len() < sets[w].len() ==> rank(sets, descending, v) < rank(
            sets,
            descending,
            w,
        ),
{
    let a = Set::new(ahead(sets, descending, v));
    let b = Set::new(ahead(sets, descending, w));
    let all = Set::new(leading(sets));
    let lv = leader_of(sets, v);
    let lw = leader_of(sets, w);
    lemma_leader(sets, v);
    lemma_leader(sets, w);
    assert(all.subset_of(sets.dom()));
    vstd::set_lib::lemma_len_subset(all, sets.dom());
    assert(all.contains(lv));
    assert(a.subset_of(all.remove(lv)));
    vstd::set_lib::lemma_len_subset(a, all.remove(lv));
    if sets[v] == sets[w] {
        assert(lv == lw);
        assert(a =~= b);
    } else {
        assert(lv != lw);
        if precedes(sets, descending, lv, w) {
            lemma_rank_less(sets, descending, v, w);
        } else {
            assert(precedes(sets, descending, lw, v));
            lemma_rank_less(sets, descending, w, v);
        }
    }
    if descending && sets[v].len() > sets[w].len() {
        lemma_rank_less(sets, descending, v, w);
    }
    if !descending && sets[v].len() < sets[w].len() {
        lemma_rank_less(sets, descending, v, w);
    }
}


/// Every number below the number of distinct sets is the rank of some set:
/// with the law above, ranks map the distinct sets one to one onto the
/// numbers below their count.
pub proof fn lemma_rank_onto(sets: Map<u64, Set<u64>>, descending: bool, k: nat)
    requires
        sets.dom().finite(),
        k < distinct_count(sets),
    ensures
        exists|v: u64| sets.contains_key(v) && #[trigger] rank(sets, descending, v) == k,
{
    let all = Set::new(leading(sets));
    let f = |r: u64| rank(sets, descending, r) as int;
    let image = all.map(f);
    let count = distinct_count(sets) as int;
    assert(all.subset_of(sets.dom()));
    vstd::set_lib::lemma_len_subset(all, sets.dom());
    assert(vstd::relations::injective_on(f, all)) by {
        assert forall|x1: u64, x2: u64|
            all.contains(x1) && all.contains(x2) && #[trigger] f(x1) == #[trigger] f(
                x2,
            ) implies x1 == x2 by {
            lemma_rank_numbers(sets, descending, x1, x2);
            assert(sets[x1] == sets[x2]);
            assert(x1 <= x2 && x2 <= x1);
        }
    }
    vstd::set_lib::lemma_map_size(all, image, f);
    vstd::set_lib::lemma_int_range(0, count);
    assert(image.subset_of(vstd::set_lib::set_int_range(0, count))) by {
        assert forall|i: int| image.contains(i) implies vstd::set_lib::set_int_range(
            0,
            count,
        ).contains(i) by {
            let r = choose|r: u64| all.contains(r) && i == f(r);
            lemma_rank_numbers(sets, descending, r, r);
        }
    }
    vstd::set_lib::lemma_subset_equality(image, vstd::set_lib::set_int_range(0, count));
    assert(image.contains(k as int));
    let r = choose|r: u64| all.contains(r) && k as int == f(r);
    assert(sets.contains_key(r) && rank(sets, descending, r) == k);
}

} // verus!
