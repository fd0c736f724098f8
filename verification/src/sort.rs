//! In-place quicksort: `run` sorts a vector ascending, returning a
//! permutation of the input.

use vstd::prelude::*;

verus! {

use vstd::multiset::Multiset;
use vstd::seq_lib::to_multiset_update;
use vstd::seq_lib::group_to_multiset_ensures;

/// `s` is sorted ascending between the inclusive positions `lo` and `hi`.
pub open spec fn sorted_between(s: Seq<i64>, lo: int, hi: int) -> bool {
    forall|x: int, y: int| lo <= x < y <= hi ==> s[x] <= s[y]
}

/// `s` is sorted ascending.
pub open spec fn sorted(s: Seq<i64>) -> bool {
    sorted_between(s, 0, s.len() - 1)
}

/// Concatenation turns into multiset addition.
proof fn lemma_multiset_of_concat(a: Seq<i64>, b: Seq<i64>)
    ensures
        (a + b).to_multiset() == a.to_multiset().add(b.to_multiset()),
    decreases b.len(),
{
    broadcast use group_to_multiset_ensures;

    if b.len() == 0 {
        assert(a + b =~= a);
        assert(b.to_multiset() =~= Multiset::<i64>::empty());
        assert((a + b).to_multiset() =~= a.to_multiset().add(b.to_multiset()));
    } else {
        lemma_multiset_of_concat(a, b.drop_last());
        assert(a + b =~= (a + b.drop_last()).push(b.last()));
        assert((a + b).to_multiset() =~= a.to_multiset().add(b.to_multiset())) by {
            assert(((a + b.drop_last()).push(b.last())).to_multiset() =~= (a
                + b.drop_last()).to_multiset().insert(b.last()));
            assert(b =~= b.drop_last().push(b.last()));
            assert(b.to_multiset() =~= b.drop_last().to_multiset().insert(b.last()));
        }
    }
}

/// Swapping two places inside a window keeps the window's multiset.
proof fn lemma_swap_subrange_multiset(s0: Seq<i64>, s1: Seq<i64>, lo: int, hi: int, a: int, b: int)
    requires
        0 <= lo <= a < hi <= s0.len(),
        lo <= b < hi,
        s1 == s0.update(a, s0[b]).update(b, s0[a]),
    ensures
        s1.subrange(lo, hi).to_multiset() == s0.subrange(lo, hi).to_multiset(),
{
    broadcast use to_multiset_update;
    broadcast use group_to_multiset_ensures;

    let t0 = s0.subrange(lo, hi);
    let t1 = s1.subrange(lo, hi);
    let mid = t0.update(a - lo, t0[b - lo]);
    assert(t1 =~= mid.update(b - lo, t0[a - lo])) by {
        assert forall|k: int| 0 <= k < hi - lo implies t1[k] == mid.update(
            b - lo,
            t0[a - lo],
        )[k] by {
            assert(t1[k] == s1[lo + k]);
            assert(t0[k] == s0[lo + k]);
        }
    }
    assert(t0.contains(t0[a - lo]));
    assert(t0.contains(t0[b - lo]));
    assert(t0.to_multiset().count(t0[a - lo]) > 0);
    assert(t0.to_multiset().count(t0[b - lo]) > 0);
    assert(mid[b - lo] == t0[b - lo]);
    assert(mid.to_multiset() == t0.to_multiset().insert(t0[b - lo]).remove(t0[a - lo]));
    assert(t1.to_multiset() == mid.to_multiset().insert(t0[a - lo]).remove(mid[b - lo]));
    assert(t1.to_multiset() =~= t0.to_multiset());
}

/// A strict upper bound on every element survives any reordering.
proof fn lemma_multiset_bound_lt(s: Seq<i64>, t: Seq<i64>, v: i64)
    requires
        s.to_multiset() == t.to_multiset(),
        forall|k: int| 0 <= k < s.len() ==> s[k] < v,
    ensures
        forall|k: int| 0 <= k < t.len() ==> t[k] < v,
{
    broadcast use group_to_multiset_ensures;

    assert forall|k: int| 0 <= k < t.len() implies t[k] < v by {
        assert(t.contains(t[k]));
        assert(t.to_multiset().count(t[k]) > 0);
        assert(s.to_multiset().count(t[k]) > 0);
        assert(s.contains(t[k]));
        let idx = choose|idx: int| 0 <= idx < s.len() && s[idx] == t[k];
        assert(s[idx] < v);
    }
}

/// A lower bound on every element survives any reordering.
proof fn lemma_multiset_bound_ge(s: Seq<i64>, t: Seq<i64>, v: i64)
    requires
        s.to_multiset() == t.to_multiset(),
        forall|k: int| 0 <= k < s.len() ==> s[k] >= v,
    ensures
        forall|k: int| 0 <= k < t.len() ==> t[k] >= v,
{
    broadcast use group_to_multiset_ensures;

    assert forall|k: int| 0 <= k < t.len() implies t[k] >= v by {
        assert(t.contains(t[k]));
        assert(t.to_multiset().count(t[k]) > 0);
        assert(s.to_multiset().count(t[k]) > 0);
        assert(s.contains(t[k]));
        let idx = choose|idx: int| 0 <= idx < s.len() && s[idx] == t[k];
        assert(s[idx] >= v);
    }
}

/// Swap two elements in place.
fn swap_cells(arr: &mut Vec<i64>, a: usize, b: usize)
    requires
        a < old(arr)@.len(),
        b < old(arr)@.len(),
    ensures
        final(arr)@ == old(arr)@.update(a as int, old(arr)@[b as int]).update(
            b as int,
            old(arr)@[a as int],
        ),
        final(arr)@.len() == old(arr)@.len(),
{
    let x = arr[a];
    let y = arr[b];
    arr.set(a, y);
    arr.set(b, x);
}

/// Partition `arr[low..=high]` around its last element: afterwards the
/// window is a permutation of itself, the pivot value sits at the returned
/// position with everything left of it strictly smaller and everything
/// right of it at least as large, and nothing outside the window moved.
fn partition(arr: &mut Vec<i64>, low: usize, high: usize) -> (p: usize)
    requires
        low <= high < old(arr)@.len(),
    ensures
        low <= p <= high,
        final(arr)@.len() == old(arr)@.len(),
        forall|k: int|
            0 <= k < old(arr)@.len() && !(low <= k <= high) ==> final(arr)@[k] == old(arr)@[k],
        final(arr)@.subrange(low as int, high + 1).to_multiset() == old(arr)@.subrange(
            low as int,
            high + 1,
        ).to_multiset(),
        forall|k: int| low <= k < p ==> final(arr)@[k] < final(arr)@[p as int],
        forall|k: int| p < k <= high ==> final(arr)@[k] >= final(arr)@[p as int],
{
    let ghost s0 = arr@;
    let pivot = arr[high];
    let mut i = low;
    let mut j = low;
    while j < high
        invariant
            low <= i <= j <= high < arr@.len(),
            arr@.len() == s0.len(),
            s0 == old(arr)@,
            pivot == s0[high as int],
            arr@[high as int] == pivot,
            forall|k: int| 0 <= k < s0.len() && !(low <= k <= high) ==> arr@[k] == s0[k],
            arr@.subrange(low as int, high + 1).to_multiset() == s0.subrange(
                low as int,
                high + 1,
            ).to_multiset(),
            forall|k: int| low <= k < i ==> arr@[k] < pivot,
            forall|k: int| i <= k < j ==> arr@[k] >= pivot,
        decreases high - j,
    {
        if arr[j] < pivot {
            let ghost before = arr@;
            swap_cells(arr, i, j);
            proof {
                lemma_swap_subrange_multiset(
                    before,
                    arr@,
                    low as int,
                    high + 1,
                    i as int,
                    j as int,
                );
            }
            i = i + 1;
        }
        j = j + 1;
    }
    let ghost before = arr@;
    swap_cells(arr, i, high);
    proof {
        lemma_swap_subrange_multiset(before, arr@, low as int, high + 1, i as int, high as int);
    }
    i
}

/// Quicksort `arr[low..=high]` in place: afterwards the window is sorted
/// and a permutation of what it held, and nothing outside it moved.
fn quick_sort(arr: &mut Vec<i64>, low: usize, high: usize)
    requires
        low <= high < old(arr)@.len(),
    ensures
        final(arr)@.len() == old(arr)@.len(),
        forall|k: int|
            0 <= k < old(arr)@.len() && !(low <= k <= high) ==> final(arr)@[k] == old(arr)@[k],
        final(arr)@.subrange(low as int, high + 1).to_multiset() == old(arr)@.subrange(
            low as int,
            high + 1,
        ).to_multiset(),
        sorted_between(final(arr)@, low as int, high as int),
    decreases high - low,
{
    if low >= high {
        return ;
    }
    let p = partition(arr, low, high);
    let ghost s1 = arr@;
    let ghost piv = arr@[p as int];
    if p > low {
        quick_sort(arr, low, p - 1);
    }
    let ghost s2 = arr@;
    if p < high {
        quick_sort(arr, p + 1, high);
    }
    proof {
        let lo = low as int;
        let hi = high + 1;
        // The pivot cell and the right part were untouched by the left
        // recursion; the left part and the pivot cell were untouched by the
        // right one.
        assert(s2[p as int] == piv);
        assert(arr@[p as int] == piv);
        assert(s2.subrange(lo, p as int).to_multiset() == s1.subrange(
            lo,
            p as int,
        ).to_multiset()) by {
            if p > low {
            } else {
                assert(s2.subrange(lo, p as int) =~= s1.subrange(lo, p as int));
            }
        }
        assert(s2.subrange(p + 1, hi) =~= s1.subrange(p + 1, hi));
        assert(arr@.subrange(lo, p + 1) =~= s2.subrange(lo, p + 1));
        assert(arr@.subrange(p + 1, hi).to_multiset() == s2.subrange(p + 1, hi).to_multiset())
            by {
            if p < high {
            } else {
                assert(arr@.subrange(p + 1, hi) =~= s2.subrange(p + 1, hi));
            }
        }
        // Recombine the window's multiset, split after the pivot.
        let w0 = old(arr)@.subrange(lo, hi);
        let w1 = s1.subrange(lo, hi);
        let w3 = arr@.subrange(lo, hi);
        assert(w1 =~= s1.subrange(lo, p + 1) + s1.subrange(p + 1, hi));
        assert(w3 =~= arr@.subrange(lo, p + 1) + arr@.subrange(p + 1, hi));
        lemma_multiset_of_concat(s1.subrange(lo, p + 1), s1.subrange(p + 1, hi));
        lemma_multiset_of_concat(arr@.subrange(lo, p + 1), arr@.subrange(p + 1, hi));
        assert(s1.subrange(lo, p + 1) =~= s1.subrange(lo, p as int) + seq![s1[p as int]]);
        assert(s2.subrange(lo, p + 1) =~= s2.subrange(lo, p as int) + seq![s2[p as int]]);
        lemma_multiset_of_concat(s1.subrange(lo, p as int), seq![s1[p as int]]);
        lemma_multiset_of_concat(s2.subrange(lo, p as int), seq![s2[p as int]]);
        assert(seq![s1[p as int]].to_multiset() == seq![s2[p as int]].to_multiset()) by {
            assert(s1[p as int] == piv && s2[p as int] == piv);
        }
        assert(arr@.subrange(lo, p + 1).to_multiset() == s1.subrange(lo, p + 1).to_multiset());
        assert(w3.to_multiset() == w0.to_multiset());
        // Bounds transfer to the final array: the left part stays strictly
        // below the pivot, the right part stays at or above it.
        assert(forall|k: int| lo <= k < p ==> s1[k] < piv);
        lemma_multiset_bound_lt(s1.subrange(lo, p as int), s2.subrange(lo, p as int), piv);
        assert(forall|k: int| lo <= k < p ==> arr@[k] < piv) by {
            assert(forall|k: int| lo <= k < p ==> arr@[k] == arr@.subrange(lo, p + 1)[k - lo]);
            assert(forall|k: int| lo <= k < p ==> s2[k] == s2.subrange(lo, p as int)[k - lo]);
        }
        assert(forall|k: int| p < k < hi ==> s2[k] >= piv) by {
            assert(forall|k: int| p < k < hi ==> s2[k] == s1[k]);
        }
        lemma_multiset_bound_ge(s2.subrange(p + 1, hi), arr@.subrange(p + 1, hi), piv);
        assert(forall|k: int| p < k < hi ==> arr@[k] >= piv) by {
            assert(forall|k: int|
                p < k < hi ==> arr@[k] == arr@.subrange(p + 1, hi)[k - p - 1]);
        }
        // Sortedness across the split.
        assert forall|x: int, y: int| low <= x < y <= high implies arr@[x] <= arr@[y] by {
            if y < p {
            } else if x > p {
            } else if y == p {
                assert(arr@[x] < piv);
            } else if x == p {
                assert(arr@[y] >= piv);
            } else {
                assert(arr@[x] < piv);
                assert(arr@[y] >= piv);
            }
        }
    }
}

/// Sort the vector ascending in place. The result is sorted and holds
/// exactly the elements it started with.
pub fn run(arr: &mut Vec<i64>)
    requires
        old(arr)@.len() >= 1,
    ensures
        final(arr)@.len() == old(arr)@.len(),
        sorted(final(arr)@),
        final(arr)@.to_multiset() == old(arr)@.to_multiset(),
{
    let len = arr.len();
    quick_sort(arr, 0, len - 1);
    proof {
        assert(old(arr)@.subrange(0, old(arr)@.len() as int) =~= old(arr)@);
        assert(arr@.subrange(0, arr@.len() as int) =~= arr@);
    }
}

} // verus!
