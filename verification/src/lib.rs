//! In-place, stable insertion sort.
//!
//! The sort reorders a vector into ascending order by repeatedly inserting
//! each element into the sorted prefix before it, moving it left one swap at
//! a time while it is strictly smaller than its left neighbour. Because only
//! strictly out-of-order neighbours are exchanged, equal elements are never
//! swapped past each other, which makes the sort stable.
//!
//! [`insertion_sort`] sorts a vector of integers; its contract states that
//! the result is sorted and holds exactly the input's elements, which pins
//! the result down to the one sorted arrangement
//! ([`lemma_sorted_permutation_unique`]). Stability is not observable on
//! plain integers, so [`insertion_sort_pairs`] runs the same algorithm on
//! `(key, tag)` pairs, comparing keys alone, and its contract adds that
//! every key's pairs keep their order of arrival.

use vstd::prelude::*;
use vstd::seq_lib::lemma_sorted_unique;
use vstd::relations::{sorted_by, total_ordering};

verus! {

broadcast use vstd::seq_lib::group_to_multiset_ensures;

/// A sequence is in ascending order: each element is at most every later one.
pub open spec fn sorted(s: Seq<i64>) -> bool {
    forall|p: int, q: int| 0 <= p < q < s.len() ==> s[p] <= s[q]
}

/// Exchanging the elements at two positions of a sequence leaves the
/// multiset of its elements unchanged.
proof fn lemma_swap_preserves_multiset<A>(s: Seq<A>, a: int, b: int)
    requires
        0 <= a < s.len(),
        0 <= b < s.len(),
    ensures
        s.update(a, s[b]).update(b, s[a]).to_multiset() == s.to_multiset(),
{
    broadcast use vstd::multiset::group_multiset_axioms;

    if a == b {
        assert(s.update(a, s[b]).update(b, s[a]) =~= s);
    } else {
        let s1 = s.update(a, s[b]);
        let s2 = s1.update(b, s[a]);
        assert(s1[b] == s[b]);
        assert(s2.to_multiset() =~= s.to_multiset());
    }
}

/// Sorts the vector in place into ascending order.
///
/// The result is sorted, holds exactly the elements it started with, and an
/// input that was already sorted comes back unchanged.
pub fn insertion_sort(arr: &mut Vec<i64>)
    ensures
        sorted(final(arr)@),
        final(arr)@.to_multiset() == old(arr)@.to_multiset(),
        final(arr)@.len() == old(arr)@.len(),
        sorted(old(arr)@) ==> final(arr)@ == old(arr)@,
{
    let len = arr.len();
    let mut i: usize = 1;
    while i < len
        invariant
            1 <= i,
            len == arr@.len(),
            arr@.to_multiset() == old(arr)@.to_multiset(),
            forall|p: int, q: int| 0 <= p < q < i && q < len ==> arr@[p] <= arr@[q],
        decreases len - i,
    {
        let mut j: usize = i;
        while j > 0 && arr[j] < arr[j - 1]
            invariant
                j <= i < len,
                len == arr@.len(),
                arr@.to_multiset() == old(arr)@.to_multiset(),
                forall|p: int, q: int| 0 <= p < q <= i && q != j ==> arr@[p] <= arr@[q],
            decreases j,
        {
            let ghost pre = arr@;
            let tmp = arr[j];
            arr[j] = arr[j - 1];
            arr[j - 1] = tmp;
            proof {
                lemma_swap_preserves_multiset(pre, j as int, j - 1);
            }
            j -= 1;
        }
        proof {
            assert forall|p: int, q: int| 0 <= p < q <= i implies arr@[p] <= arr@[q] by {
                if q == j && p < j - 1 {
                    assert(arr@[p] <= arr@[j - 1]);
                }
            }
        }
        i += 1;
    }
    proof {
        if sorted(old(arr)@) {
            lemma_sorted_permutation_unique(old(arr)@, arr@);
        }
    }
}

/// Two sorted sequences that hold the same elements are the same sequence:
/// a multiset of integers has exactly one sorted arrangement. The contract
/// of [`insertion_sort`] therefore determines its result completely.
pub proof fn lemma_sorted_permutation_unique(s: Seq<i64>, t: Seq<i64>)
    requires
        sorted(s),
        sorted(t),
        s.to_multiset() == t.to_multiset(),
    ensures
        s == t,
{
    let leq = |a: i64, b: i64| a <= b;
    assert(total_ordering(leq));
    assert(sorted_by(s, leq));
    assert(sorted_by(t, leq));
    lemma_sorted_unique(s, t, leq);
}

/// Sorting is idempotent: if `once` is a sorted rearrangement of `s`, and
/// `twice` is a sorted rearrangement of `once`, then the second sort changed
/// nothing, so sorting twice is the same as sorting once.
pub proof fn lemma_sort_idempotent(s: Seq<i64>, once: Seq<i64>, twice: Seq<i64>)
    requires
        sorted(once),
        once.to_multiset() == s.to_multiset(),
        sorted(twice),
        twice.to_multiset() == once.to_multiset(),
    ensures
        twice == once,
{
    lemma_sorted_permutation_unique(once, twice);
}

/// Pairs in ascending order of their key, the first component; the second
/// component plays no part in the comparison.
pub open spec fn sorted_by_key(s: Seq<(i64, usize)>) -> bool {
    forall|p: int, q: int| 0 <= p < q < s.len() ==> s[p].0 <= s[q].0
}

/// The subsequence of pairs whose key is `k`, in their order of appearance.
pub open spec fn with_key(s: Seq<(i64, usize)>, k: i64) -> Seq<(i64, usize)> {
    s.filter(|e: (i64, usize)| e.0 == k)
}

/// Stability: for every key, `t` holds the pairs with that key in exactly
/// the order `s` held them.
pub open spec fn preserves_key_order(s: Seq<(i64, usize)>, t: Seq<(i64, usize)>) -> bool {
    forall|k: i64| with_key(t, k) == with_key(s, k)
}

/// The pairs with key `k` among a two-element sequence, in order.
proof fn lemma_with_key_two(x: (i64, usize), y: (i64, usize), k: i64)
    ensures
        with_key(seq![x, y], k) == if x.0 == k && y.0 == k {
            seq![x, y]
        } else if x.0 == k {
            seq![x]
        } else if y.0 == k {
            seq![y]
        } else {
            Seq::<(i64, usize)>::empty()
        },
{
    reveal(Seq::filter);
    let single = seq![x];
    assert(single.drop_last() =~= Seq::<(i64, usize)>::empty());
    assert(with_key(Seq::<(i64, usize)>::empty(), k) == Seq::<(i64, usize)>::empty());
    assert(with_key(single, k) == if x.0 == k { seq![x] } else { Seq::<(i64, usize)>::empty() });
    assert(seq![x, y].drop_last() =~= single);
    if x.0 == k && y.0 == k {
        assert(with_key(seq![x, y], k) =~= seq![x, y]);
    } else if x.0 == k {
        assert(with_key(seq![x, y], k) =~= seq![x]);
    } else if y.0 == k {
        assert(with_key(seq![x, y], k) =~= seq![y]);
    } else {
        assert(with_key(seq![x, y], k) =~= Seq::<(i64, usize)>::empty());
    }
}

/// Exchanging two adjacent pairs whose keys differ moves no pair past
/// another pair with the same key, so every key's subsequence is unchanged.
proof fn lemma_swap_adjacent_preserves_key_order(s: Seq<(i64, usize)>, j: int)
    requires
        1 <= j < s.len(),
        s[j].0 != s[j - 1].0,
    ensures
        preserves_key_order(s, s.update(j, s[j - 1]).update(j - 1, s[j])),
{
    broadcast use vstd::seq_lib::group_seq_lib_default;

    let t = s.update(j, s[j - 1]).update(j - 1, s[j]);
    let x = s[j - 1];
    let y = s[j];
    let a = s.subrange(0, j - 1);
    let b = s.subrange(j + 1, s.len() as int);
    assert(s =~= (a + seq![x, y]) + b);
    assert(t =~= (a + seq![y, x]) + b);
    assert forall|k: i64| with_key(t, k) == with_key(s, k) by {
        lemma_with_key_two(x, y, k);
        lemma_with_key_two(y, x, k);
        assert(with_key(s, k) == (with_key(a, k) + with_key(seq![x, y], k)) + with_key(b, k));
        assert(with_key(t, k) == (with_key(a, k) + with_key(seq![y, x], k)) + with_key(b, k));
        assert(with_key(seq![x, y], k) == with_key(seq![y, x], k));
    }
}

/// Sorts the vector of `(key, tag)` pairs in place into ascending order of
/// key, stably: pairs with equal keys keep the order they arrived in.
///
/// Tagging each element with its original position and sorting the pairs
/// with this function therefore shows the sort never reorders equal
/// elements: within each key the tags come out exactly as they went in.
pub fn insertion_sort_pairs(arr: &mut Vec<(i64, usize)>)
    ensures
        sorted_by_key(final(arr)@),
        final(arr)@.to_multiset() == old(arr)@.to_multiset(),
        final(arr)@.len() == old(arr)@.len(),
        preserves_key_order(old(arr)@, final(arr)@),
{
    let len = arr.len();
    let mut i: usize = 1;
    while i < len
        invariant
            1 <= i,
            len == arr@.len(),
            arr@.to_multiset() == old(arr)@.to_multiset(),
            preserves_key_order(old(arr)@, arr@),
            forall|p: int, q: int| 0 <= p < q < i && q < len ==> arr@[p].0 <= arr@[q].0,
        decreases len - i,
    {
        let mut j: usize = i;
        while j > 0 && arr[j].0 < arr[j - 1].0
            invariant
                j <= i < len,
                len == arr@.len(),
                arr@.to_multiset() == old(arr)@.to_multiset(),
                preserves_key_order(old(arr)@, arr@),
                forall|p: int, q: int| 0 <= p < q <= i && q != j ==> arr@[p].0 <= arr@[q].0,
            decreases j,
        {
            let ghost pre = arr@;
            let tmp = arr[j];
            arr[j] = arr[j - 1];
            arr[j - 1] = tmp;
            proof {
                lemma_swap_preserves_multiset(pre, j as int, j - 1);
                lemma_swap_adjacent_preserves_key_order(pre, j as int);
            }
            j -= 1;
        }
        proof {
            assert forall|p: int, q: int| 0 <= p < q <= i implies arr@[p].0 <= arr@[q].0 by {
                if q == j && p < j - 1 {
                    assert(arr@[p].0 <= arr@[j - 1].0);
                }
            }
        }
        i += 1;
    }
}

} // verus!
