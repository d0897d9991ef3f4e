//! In-place quicksort: the result is a permutation of the input and is
//! non-decreasing.

use vstd::prelude::*;

verus! {

/// The sequence is non-decreasing.
pub open spec fn sorted(s: Seq<i32>) -> bool {
    forall|i: int, j: int| 0 <= i <= j < s.len() ==> s[i] <= s[j]
}

/// Exchanges the elements at `i` and `j`.
fn swap_elems(a: &mut Vec<i32>, i: usize, j: usize)
    requires
        i < old(a).len(),
        j < old(a).len(),
    ensures
        final(a)@ == old(a)@.update(i as int, old(a)@[j as int]).update(
            j as int,
            old(a)@[i as int],
        ),
{
    let x = a[i];
    let y = a[j];
    a[i] = y;
    a[j] = x;
}

/// Swapping two positions inside `[lo, hi)` leaves that range's multiset of
/// elements unchanged.
proof fn lemma_swap_multiset(s: Seq<i32>, lo: int, hi: int, i: int, j: int)
    requires
        0 <= lo <= i < hi <= s.len(),
        lo <= j < hi,
    ensures
        s.update(i, s[j]).update(j, s[i]).subrange(lo, hi).to_multiset() == s.subrange(
            lo,
            hi,
        ).to_multiset(),
{
    broadcast use vstd::seq_lib::group_to_multiset_ensures;

    let sub = s.subrange(lo, hi);
    let sub2 = s.update(i, s[j]).update(j, s[i]).subrange(lo, hi);
    assert(sub2 =~= sub.update(i - lo, sub[j - lo]).update(j - lo, sub[i - lo]));
    assert(sub.update(i - lo, sub[j - lo]).to_multiset() == sub.to_multiset().insert(
        sub[j - lo],
    ).remove(sub[i - lo]));
    if i == j {
        assert(sub2.to_multiset() =~= sub.to_multiset());
    } else {
        assert(sub.update(i - lo, sub[j - lo])[j - lo] == sub[j - lo]);
        assert(sub2.to_multiset() =~= sub.to_multiset());
    }
}

/// Partitions `[lo, hi)` around a pivot: afterwards the pivot sits at the
/// returned position, everything left of it is no greater, everything right
/// of it is strictly greater, and the range holds the same elements.
fn partition(a: &mut Vec<i32>, lo: usize, hi: usize) -> (p: usize)
    requires
        lo < hi <= old(a).len(),
    ensures
        lo <= p < hi,
        final(a).len() == old(a).len(),
        forall|k: int| 0 <= k < old(a).len() && !(lo <= k < hi) ==> final(a)@[k] == old(a)@[k],
        final(a)@.subrange(lo as int, hi as int).to_multiset() == old(a)@.subrange(
            lo as int,
            hi as int,
        ).to_multiset(),
        forall|k: int| lo <= k < p ==> final(a)@[k] <= final(a)@[p as int],
        forall|k: int| p < k < hi ==> final(a)@[k] > final(a)@[p as int],
{
    let ghost orig = a@;
    let pivot_index = lo + (hi - lo) / 2;
    swap_elems(a, pivot_index, hi - 1);
    proof {
        lemma_swap_multiset(orig, lo as int, hi as int, pivot_index as int, hi - 1);
    }
    let ghost start = a@;
    let pivot = a[hi - 1];
    let mut i = lo;
    let mut j = lo;
    while j < hi - 1
        invariant
            lo <= i <= j <= hi - 1 < a.len(),
            a.len() == start.len() == orig.len(),
            hi <= a.len(),
            a@[hi - 1] == pivot,
            forall|k: int| 0 <= k < a.len() && !(lo <= k < hi) ==> a@[k] == orig[k],
            a@.subrange(lo as int, hi as int).to_multiset() == orig.subrange(
                lo as int,
                hi as int,
            ).to_multiset(),
            forall|k: int| lo <= k < i ==> a@[k] <= pivot,
            forall|k: int| i <= k < j ==> a@[k] > pivot,
        decreases hi - 1 - j,
    {
        if a[j] <= pivot {
            let ghost before = a@;
            swap_elems(a, j, i);
            proof {
                lemma_swap_multiset(before, lo as int, hi as int, j as int, i as int);
            }
            i = i + 1;
        }
        j = j + 1;
    }
    let ghost before = a@;
    swap_elems(a, i, hi - 1);
    proof {
        lemma_swap_multiset(before, lo as int, hi as int, i as int, hi - 1);
    }
    i
}

fn sort_range(a: &mut Vec<i32>, lo: usize, hi: usize)
    requires
        lo <= hi <= old(a).len(),
    ensures
        final(a).len() == old(a).len(),
        forall|k: int| 0 <= k < old(a).len() && !(lo <= k < hi) ==> final(a)@[k] == old(a)@[k],
        final(a)@.subrange(lo as int, hi as int).to_multiset() == old(a)@.subrange(
            lo as int,
            hi as int,
        ).to_multiset(),
        forall|x: int, y: int| lo <= x <= y < hi ==> final(a)@[x] <= final(a)@[y],
    decreases hi - lo,
{
    broadcast use vstd::seq_lib::group_to_multiset_ensures;

    if hi - lo <= 1 {
        return ;
    }
    let p = partition(a, lo, hi);
    let ghost a1 = a@;
    sort_range(a, lo, p);
    let ghost a2 = a@;
    sort_range(a, p + 1, hi);
    let ghost a3 = a@;
    proof {
        assert(a2.subrange(lo as int, p as int).to_multiset() == a1.subrange(
            lo as int,
            p as int,
        ).to_multiset());
        assert(a3.subrange(p + 1, hi as int).to_multiset() == a2.subrange(
            p + 1,
            hi as int,
        ).to_multiset());
        assert(a2.subrange(p + 1, hi as int) =~= a1.subrange(p + 1, hi as int));
        assert(a3[p as int] == a1[p as int]);

        // every element left of the pivot is still bounded by it
        assert forall|k: int| lo <= k < p implies a3[k] <= a3[p as int] by {
            let v = a3[k];
            assert(a3.subrange(lo as int, p as int)[k - lo] == v);
            assert(a3.subrange(lo as int, p as int) =~= a2.subrange(lo as int, p as int));
            assert(a2.subrange(lo as int, p as int).to_multiset().count(v) > 0);
            assert(a1.subrange(lo as int, p as int).to_multiset().count(v) > 0);
            assert(a1.subrange(lo as int, p as int).contains(v));
            let w = choose|w: int| 0 <= w < p - lo && #[trigger] a1.subrange(lo as int, p as int)[w] == v;
            assert(a1[lo + w] == v);
        }
        // every element right of the pivot still exceeds it
        assert forall|k: int| p < k < hi implies a3[k] > a3[p as int] by {
            let v = a3[k];
            assert(a3.subrange(p + 1, hi as int)[k - p - 1] == v);
            assert(a3.subrange(p + 1, hi as int).to_multiset().count(v) > 0);
            assert(a1.subrange(p + 1, hi as int).to_multiset().count(v) > 0);
            assert(a1.subrange(p + 1, hi as int).contains(v));
            let w = choose|w: int| 0 <= w < hi - p - 1 && #[trigger] a1.subrange(p + 1, hi as int)[w] == v;
            assert(a1[p + 1 + w] == v);
        }
        // the three pieces reassemble the range's multiset
        assert(a3.subrange(lo as int, hi as int) =~= a3.subrange(lo as int, p as int) + a3.subrange(
            p as int,
            p + 1,
        ) + a3.subrange(p + 1, hi as int));
        assert(a1.subrange(lo as int, hi as int) =~= a1.subrange(lo as int, p as int) + a1.subrange(
            p as int,
            p + 1,
        ) + a1.subrange(p + 1, hi as int));
        vstd::seq_lib::lemma_multiset_commutative(
            a3.subrange(lo as int, p as int) + a3.subrange(p as int, p + 1),
            a3.subrange(p + 1, hi as int),
        );
        vstd::seq_lib::lemma_multiset_commutative(
            a3.subrange(lo as int, p as int),
            a3.subrange(p as int, p + 1),
        );
        vstd::seq_lib::lemma_multiset_commutative(
            a1.subrange(lo as int, p as int) + a1.subrange(p as int, p + 1),
            a1.subrange(p + 1, hi as int),
        );
        vstd::seq_lib::lemma_multiset_commutative(
            a1.subrange(lo as int, p as int),
            a1.subrange(p as int, p + 1),
        );
        assert(a3.subrange(p as int, p + 1) =~= a1.subrange(p as int, p + 1));
        assert(a3.subrange(lo as int, p as int) =~= a2.subrange(lo as int, p as int));
    }
}

/// Quicksort: afterwards the vector holds the same elements (as a
/// multiset) in non-decreasing order.
pub fn sort(array: &mut Vec<i32>)
    ensures
        final(array)@.to_multiset() == old(array)@.to_multiset(),
        sorted(final(array)@),
{
    let len = array.len();
    sort_range(array, 0, len);
    assert(array@.subrange(0, len as int) =~= array@);
    assert(old(array)@.subrange(0, len as int) =~= old(array)@);
}

} // verus!
