//! Newest-first ordering of listed messages by their modification time.

use vstd::prelude::*;
use rayon::slice::ParallelSliceMut;

verus! {

broadcast use vstd::seq_lib::group_to_multiset_ensures;

/// Lexicographic order on pairs of integers, as std orders tuples.
pub open spec fn pair_le(a: (u64, usize), b: (u64, usize)) -> bool {
    a.0 < b.0 || (a.0 == b.0 && a.1 <= b.1)
}

/// `order` lists the positions of `keys` newest first: every position once,
/// larger keys before smaller ones, and positions with equal keys in their
/// original order.
pub open spec fn is_newest_first(keys: Seq<u64>, order: Seq<usize>) -> bool {
    &&& order.len() == keys.len()
    &&& forall|j: int| 0 <= j < order.len() ==> order[j] < keys.len()
    &&& forall|j: int, k: int|
        #![trigger order[j], order[k]]
        0 <= j < k < order.len() ==> keys[order[j] as int] > keys[order[k] as int] || (
        keys[order[j] as int] == keys[order[k] as int] && order[j] < order[k])
}

/// Sorts the pairs in ascending lexicographic order with rayon's
/// `ParallelSliceMut::par_sort_unstable`. Claimed: the result is a
/// rearrangement of the input (same multiset of pairs) in ascending order.
#[verifier::external_body]
fn par_sort_pairs(v: &mut Vec<(u64, usize)>)
    ensures
        final(v)@.len() == old(v)@.len(),
        final(v)@.to_multiset() == old(v)@.to_multiset(),
        forall|i: int, j: int|
            0 <= i < j < final(v)@.len() ==> pair_le(final(v)@[i], final(v)@[j]),
{
    v.par_sort_unstable()
}

/// The positions of `keys` newest first, ties kept in their original order.
pub fn newest_first(keys: &Vec<u64>) -> (order: Vec<usize>)
    ensures
        is_newest_first(keys@, order@),
{
    let n = keys.len();
    let mut pairs: Vec<(u64, usize)> = Vec::new();
    for i in 0..n
        invariant
            n == keys@.len(),
            pairs@.len() == i,
            forall|j: int| 0 <= j < i ==> pairs@[j] == ((u64::MAX - keys@[j]) as u64, j as usize),
    {
        pairs.push((u64::MAX - keys[i], i));
    }
    let ghost before = pairs@;
    proof {
        assert(before.no_duplicates());
        before.lemma_multiset_has_no_duplicates();
    }
    par_sort_pairs(&mut pairs);
    let ghost after = pairs@;
    proof {
        assert forall|x: (u64, usize)| after.to_multiset().contains(x) implies after.to_multiset().count(x) == 1 by {
            assert(before.to_multiset().contains(x));
        }
        after.lemma_multiset_has_no_duplicates_conv();
        assert forall|j: int| 0 <= j < n implies after[j].1 < n && after[j].0 == u64::MAX - keys@[after[j].1 as int] by {
            assert(after.contains(after[j]));
            assert(after.to_multiset().count(after[j]) > 0);
            assert(before.contains(after[j]));
        }
    }
    let mut order: Vec<usize> = Vec::new();
    for j in 0..n
        invariant
            n == keys@.len(),
            pairs@ == after,
            after.len() == n,
            order@.len() == j,
            forall|i: int| 0 <= i < j ==> order@[i] == after[i].1,
    {
        order.push(pairs[j].1);
    }
    proof {
        assert forall|j: int, k: int| 0 <= j < k < n implies
            keys@[order@[j] as int] > keys@[order@[k] as int] || (
            keys@[order@[j] as int] == keys@[order@[k] as int] && order@[j] < order@[k]) by {
            assert(pair_le(after[j], after[k]));
            assert(after[j] != after[k]);
        }
    }
    order
}

/// Position `a` comes before position `b` in a newest-first order of `keys`.
pub open spec fn newer(keys: Seq<u64>, a: int, b: int) -> bool {
    keys[a] > keys[b] || (keys[a] == keys[b] && a < b)
}

/// `order` holds position `x`.
pub open spec fn lists(order: Seq<usize>, x: int) -> bool {
    exists|j: int| 0 <= j < order.len() && order[j] == x
}

/// A newest-first order lists every position of `keys`.
pub proof fn lemma_newest_first_covers(keys: Seq<u64>, order: Seq<usize>)
    requires
        is_newest_first(keys, order),
    ensures
        forall|x: int| 0 <= x < keys.len() ==> #[trigger] lists(order, x),
{
    let ints = order.map_values(|v: usize| v as int);
    assert(ints.no_duplicates()) by {
        assert forall|j: int, k: int| 0 <= j < ints.len() && 0 <= k < ints.len() && j != k implies ints[j] != ints[k] by {
            if j < k {
                assert(order[j] != order[k]);
            } else {
                assert(order[k] != order[j]);
            }
        }
    }
    ints.unique_seq_to_set();
    let range = vstd::set_lib::set_int_range(0, keys.len() as int);
    vstd::set_lib::lemma_int_range(0, keys.len() as int);
    assert(ints.to_set().subset_of(range));
    vstd::set_lib::lemma_subset_equality(ints.to_set(), range);
    assert forall|x: int| 0 <= x < keys.len() implies #[trigger] lists(order, x) by {
        assert(range.contains(x));
        assert(ints.to_set().contains(x));
        let j = choose|j: int| 0 <= j < ints.len() && ints[j] == x;
        assert(order[j] == x);
    }
}

proof fn lemma_same_at(keys: Seq<u64>, o1: Seq<usize>, o2: Seq<usize>, j: int)
    requires
        is_newest_first(keys, o1),
        is_newest_first(keys, o2),
        0 <= j < o1.len(),
        forall|k: int| 0 <= k < j ==> o1[k] == o2[k],
    ensures
        o1[j] == o2[j],
{
    lemma_newest_first_covers(keys, o1);
    lemma_newest_first_covers(keys, o2);
    let a = o1[j] as int;
    let b = o2[j] as int;
    if a != b {
        assert(lists(o1, b));
        assert(lists(o2, a));
        let p = choose|p: int| 0 <= p < o1.len() && o1[p] == b;
        let q = choose|q: int| 0 <= q < o2.len() && o2[q] == a;
        if p < j {
            assert(o2[p] == b);
            assert(o2[p] != o2[j]);
        }
        if q < j {
            assert(o1[q] == a);
            assert(o1[q] != o1[j]);
        }
        assert(p != j);
        assert(q != j);
        assert(newer(keys, a, b));
        assert(newer(keys, b, a));
    }
}

proof fn lemma_same_upto(keys: Seq<u64>, o1: Seq<usize>, o2: Seq<usize>, n: int)
    requires
        is_newest_first(keys, o1),
        is_newest_first(keys, o2),
        0 <= n <= o1.len(),
    ensures
        forall|k: int| 0 <= k < n ==> o1[k] == o2[k],
    decreases n,
{
    if n > 0 {
        lemma_same_upto(keys, o1, o2, n - 1);
        lemma_same_at(keys, o1, o2, n - 1);
    }
}

/// The newest-first order of given keys is unique: the ordering is
/// determined by the keys alone.
pub proof fn lemma_newest_first_unique(keys: Seq<u64>, o1: Seq<usize>, o2: Seq<usize>)
    requires
        is_newest_first(keys, o1),
        is_newest_first(keys, o2),
    ensures
        o1 == o2,
{
    lemma_same_upto(keys, o1, o2, o1.len() as int);
    assert(o1 =~= o2);
}

/// Ordering keys that are already newest first leaves them where they are:
/// the only newest-first order of the reordered keys is the identity.
pub proof fn lemma_newest_first_idempotent(keys: Seq<u64>, order: Seq<usize>, again: Seq<usize>)
    requires
        keys.len() <= usize::MAX,
        is_newest_first(keys, order),
        is_newest_first(order.map_values(|i: usize| keys[i as int]), again),
    ensures
        forall|j: int| 0 <= j < again.len() ==> again[j] == j,
{
    let sorted = order.map_values(|i: usize| keys[i as int]);
    let id = Seq::new(keys.len(), |j: int| j as usize);
    assert forall|j: int| 0 <= j < id.len() implies id[j] == j && sorted[j] == keys[order[j] as int] by {}
    assert(is_newest_first(sorted, id)) by {
        assert forall|j: int, k: int| 0 <= j < k < id.len() implies
            sorted[id[j] as int] > sorted[id[k] as int] || (sorted[id[j] as int] == sorted[id[k] as int] && id[j] < id[k]) by {
            assert(id[j] == j && id[k] == k);
            assert(sorted[j] == keys[order[j] as int] && sorted[k] == keys[order[k] as int]);
            assert(keys[order[j] as int] > keys[order[k] as int] || (
                keys[order[j] as int] == keys[order[k] as int] && order[j] < order[k]));
        }
    }
    lemma_newest_first_unique(sorted, again, id);
}

} // verus!
