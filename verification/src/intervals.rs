//! Merging of inclusive integer intervals: the intervals are sorted by
//! start and overlapping ones are fused, so that the result is disjoint,
//! sorted, and covers exactly the same integer points.

use vstd::prelude::*;

verus! {

/// The per-element views of a sequence of vectors.
pub open spec fn views(s: Seq<Vec<i32>>) -> Seq<Seq<i32>> {
    Seq::new(s.len(), |i: int| s[i]@)
}

/// Every element is a `[start, end]` pair.
pub open spec fn all_pairs(s: Seq<Seq<i32>>) -> bool {
    forall|i: int| 0 <= i < s.len() ==> (#[trigger] s[i]).len() == 2
}

/// The integer point `p` lies in some interval of `s`.
pub open spec fn covers(s: Seq<Seq<i32>>, p: int) -> bool {
    exists|i: int| 0 <= i < s.len() && (#[trigger] s[i])[0] <= p <= s[i][1]
}

/// Interval starts are non-decreasing.
pub open spec fn starts_sorted(s: Seq<Seq<i32>>) -> bool {
    forall|i: int, j: int| 0 <= i <= j < s.len() ==> (#[trigger] s[i])[0] <= (#[trigger] s[j])[0]
}

/// Intervals are sorted and pairwise non-overlapping: each ends strictly
/// before the next begins.
pub open spec fn disjoint_sorted(s: Seq<Seq<i32>>) -> bool {
    forall|i: int, j: int| 0 <= i < j < s.len() ==> (#[trigger] s[i])[1] < (#[trigger] s[j])[0]
}

/// Stable insertion of `iv` into `s` after every element whose start is no
/// greater.
pub open spec fn insert_sorted(iv: Seq<i32>, s: Seq<Seq<i32>>) -> Seq<Seq<i32>>
    decreases s.len(),
{
    if s.len() == 0 {
        seq![iv]
    } else if s.last()[0] <= iv[0] {
        s.push(iv)
    } else {
        insert_sorted(iv, s.drop_last()).push(s.last())
    }
}

/// Stable insertion sort of intervals by their start.
pub open spec fn sort_by_start(s: Seq<Seq<i32>>) -> Seq<Seq<i32>>
    decreases s.len(),
{
    if s.len() == 0 {
        Seq::empty()
    } else {
        insert_sorted(s.last(), sort_by_start(s.drop_last()))
    }
}

/// One pass over the sorted intervals from position `i`, carrying the
/// intervals already emitted and the interval being grown: an interval that
/// starts within the current one extends it, any other closes it.
pub open spec fn merge_loop(s: Seq<Seq<i32>>, i: int, merged: Seq<Seq<i32>>, cur: Seq<i32>) -> Seq<
    Seq<i32>,
>
    decreases s.len() - i,
        when 0 <= i <= s.len()
{
    if i >= s.len() {
        merged.push(cur)
    } else if s[i][0] <= cur[1] {
        merge_loop(
            s,
            i + 1,
            merged,
            seq![
                cur[0],
                if s[i][1] > cur[1] {
                    s[i][1]
                } else {
                    cur[1]
                },
            ],
        )
    } else {
        merge_loop(s, i + 1, merged.push(cur), s[i])
    }
}

/// The merged form of a sorted interval sequence.
pub open spec fn merge_fold(s: Seq<Seq<i32>>) -> Seq<Seq<i32>> {
    if s.len() == 0 {
        Seq::empty()
    } else {
        merge_loop(s, 1, Seq::empty(), s[0])
    }
}

/// What `merge_intervals` returns: the intervals sorted by start, then
/// merged.
pub open spec fn spec_merge_intervals(s: Seq<Seq<i32>>) -> Seq<Seq<i32>> {
    merge_fold(sort_by_start(s))
}

/// A point is covered by a concatenation exactly when one of the halves
/// covers it.
proof fn lemma_covers_append(s1: Seq<Seq<i32>>, s2: Seq<Seq<i32>>, p: int)
    ensures
        covers(s1 + s2, p) <==> (covers(s1, p) || covers(s2, p)),
{
    if covers(s1, p) {
        let i = choose|i: int| 0 <= i < s1.len() && (#[trigger] s1[i])[0] <= p <= s1[i][1];
        assert((s1 + s2)[i] == s1[i]);
    }
    if covers(s2, p) {
        let i = choose|i: int| 0 <= i < s2.len() && (#[trigger] s2[i])[0] <= p <= s2[i][1];
        assert((s1 + s2)[s1.len() + i] == s2[i]);
    }
    if covers(s1 + s2, p) {
        let i = choose|i: int|
            0 <= i < (s1 + s2).len() && (#[trigger] (s1 + s2)[i])[0] <= p <= (s1 + s2)[i][1];
        if i < s1.len() {
            assert(s1[i] == (s1 + s2)[i]);
        } else {
            assert(s2[i - s1.len()] == (s1 + s2)[i]);
        }
    }
}

/// Appending one interval covers its points and nothing more.
proof fn lemma_covers_push(s: Seq<Seq<i32>>, iv: Seq<i32>, p: int)
    ensures
        covers(s.push(iv), p) == (covers(s, p) || (iv[0] <= p <= iv[1])),
{
    lemma_covers_append(s, seq![iv], p);
    assert(s.push(iv) =~= s + seq![iv]);
    assert((seq![iv])[0] == iv);
    if iv[0] <= p <= iv[1] {
        assert(((seq![iv])[0])[0] <= p <= ((seq![iv])[0])[1]);
        assert(covers(seq![iv], p));
    }
    if covers(seq![iv], p) {
        let i = choose|i: int| 0 <= i < 1 && ((#[trigger] (seq![iv])[i]))[0] <= p <= (seq![iv])[i][1];
        assert(i == 0);
    }
}

/// Sequences with the same multiset of intervals cover the same points.
proof fn lemma_covers_permutation(s1: Seq<Seq<i32>>, s2: Seq<Seq<i32>>, p: int)
    requires
        s1.to_multiset() == s2.to_multiset(),
    ensures
        covers(s1, p) == covers(s2, p),
{
    broadcast use vstd::seq_lib::group_to_multiset_ensures;

    if covers(s1, p) {
        let i = choose|i: int| 0 <= i < s1.len() && (#[trigger] s1[i])[0] <= p <= s1[i][1];
        assert(s1.contains(s1[i]));
        assert(s1.to_multiset().count(s1[i]) > 0);
        assert(s2.to_multiset().count(s1[i]) > 0);
        assert(s2.contains(s1[i]));
        let j = choose|j: int| 0 <= j < s2.len() && #[trigger] s2[j] == s1[i];
        assert((s2[j])[0] <= p <= s2[j][1]);
        assert(covers(s2, p));
    }
    if covers(s2, p) {
        let i = choose|i: int| 0 <= i < s2.len() && (#[trigger] s2[i])[0] <= p <= s2[i][1];
        assert(s2.contains(s2[i]));
        assert(s2.to_multiset().count(s2[i]) > 0);
        assert(s1.to_multiset().count(s2[i]) > 0);
        assert(s1.contains(s2[i]));
        let j = choose|j: int| 0 <= j < s1.len() && #[trigger] s1[j] == s2[i];
        assert((s1[j])[0] <= p <= s1[j][1]);
        assert(covers(s1, p));
    }
}

/// Inserting anywhere adds the element to the multiset.
proof fn lemma_seq_insert_multiset(s: Seq<Seq<i32>>, j: int, x: Seq<i32>)
    requires
        0 <= j <= s.len(),
    ensures
        s.insert(j, x).to_multiset() == s.to_multiset().insert(x),
{
    broadcast use vstd::seq_lib::group_to_multiset_ensures;

    assert(s.insert(j, x) =~= s.take(j).push(x) + s.skip(j));
    assert(s =~= s.take(j) + s.skip(j));
    vstd::seq_lib::lemma_multiset_commutative(s.take(j).push(x), s.skip(j));
    vstd::seq_lib::lemma_multiset_commutative(s.take(j), s.skip(j));
    assert(s.take(j).push(x).to_multiset() == s.take(j).to_multiset().insert(x));
    assert(s.insert(j, x).to_multiset() =~= s.to_multiset().insert(x));
}

/// Where the scan from the right stops is where `insert_sorted` puts the
/// element.
proof fn lemma_insert_sorted_at(s: Seq<Seq<i32>>, iv: Seq<i32>, j: int)
    requires
        0 <= j <= s.len(),
        forall|k: int| j <= k < s.len() ==> (#[trigger] s[k])[0] > iv[0],
        j > 0 ==> s[j - 1][0] <= iv[0],
    ensures
        insert_sorted(iv, s) == s.insert(j, iv),
    decreases s.len(),
{
    if s.len() == 0 {
        assert(insert_sorted(iv, s) =~= s.insert(0, iv));
    } else if s.last()[0] <= iv[0] {
        assert(j == s.len());
        assert(insert_sorted(iv, s) =~= s.insert(j, iv));
    } else {
        assert(j < s.len());
        lemma_insert_sorted_at(s.drop_last(), iv, j);
        assert(insert_sorted(iv, s) == s.drop_last().insert(j, iv).push(s.last()));
        assert(s.drop_last().insert(j, iv).push(s.last()) =~= s.insert(j, iv));
    }
}

/// Merges the intervals: the result is the stable-sorted input with every
/// run of overlapping intervals fused; it is sorted by start, pairwise
/// disjoint, and covers exactly the points the input covers.
pub fn merge_intervals(intervals: Vec<Vec<i32>>) -> (r: Vec<Vec<i32>>)
    requires
        all_pairs(views(intervals@)),
    ensures
        views(r@) == spec_merge_intervals(views(intervals@)),
        all_pairs(views(r@)),
        disjoint_sorted(views(r@)),
        starts_sorted(views(r@)),
        forall|p: int| covers(views(r@), p) == covers(views(intervals@), p),
{
    broadcast use vstd::seq_lib::group_to_multiset_ensures;

    let ghost input = views(intervals@);
    let n = intervals.len();
    if n == 0 {
        let r: Vec<Vec<i32>> = Vec::new();
        assert(views(r@) =~= spec_merge_intervals(input));
        assert(forall|p: int| !covers(views(r@), p) && !covers(input, p));
        return r;
    }

    // stable insertion sort by interval start
    let mut sorted_vec: Vec<Vec<i32>> = Vec::new();
    let mut i: usize = 0;
    while i < n
        invariant
            0 <= i <= n,
            n == intervals.len(),
            input == views(intervals@),
            all_pairs(input),
            views(sorted_vec@) == sort_by_start(input.take(i as int)),
            views(sorted_vec@).to_multiset() == input.take(i as int).to_multiset(),
            all_pairs(views(sorted_vec@)),
            starts_sorted(views(sorted_vec@)),
            sorted_vec.len() == i,
        decreases n - i,
    {
        let iv = (&intervals[i]).clone();
        assert(iv@ == input[i as int]);
        assert(input[i as int].len() == 2);
        let mut j = sorted_vec.len();
        assert(forall|k: int|
            0 <= k < sorted_vec.len() ==> (#[trigger] sorted_vec@[k])@ == views(sorted_vec@)[k]);
        while j > 0 && sorted_vec[j - 1][0] > iv[0]
            invariant
                0 <= j <= sorted_vec.len(),
                all_pairs(views(sorted_vec@)),
                forall|k: int|
                    0 <= k < sorted_vec.len() ==> (#[trigger] sorted_vec@[k])@ == views(
                        sorted_vec@,
                    )[k],
                forall|k: int| 0 <= k < sorted_vec.len() ==> (#[trigger] sorted_vec@[k])@.len() == 2,
                iv@.len() == 2,
                forall|k: int|
                    j <= k < sorted_vec.len() ==> (#[trigger] views(sorted_vec@)[k])[0] > iv@[0],
            decreases j,
        {
            j = j - 1;
        }
        let ghost old_sorted = views(sorted_vec@);
        sorted_vec.insert(j, iv);
        proof {
            assert(views(sorted_vec@) =~= old_sorted.insert(j as int, iv@));
            lemma_insert_sorted_at(old_sorted, iv@, j as int);
            lemma_seq_insert_multiset(old_sorted, j as int, iv@);
            assert(input.take(i + 1).drop_last() =~= input.take(i as int));
            assert(input.take(i + 1).last() == input[i as int]);
            assert(input.take(i + 1) =~= input.take(i as int).push(input[i as int]));
            input.take(i as int).to_multiset_ensures();
            assert(input.take(i as int).push(input[i as int]).to_multiset() =~= input.take(
                i as int,
            ).to_multiset().insert(input[i as int]));
        }
        i = i + 1;
    }
    proof {
        assert(input.take(n as int) =~= input);
    }
    let ghost ss = views(sorted_vec@);

    // merge pass over the sorted intervals
    let mut merged: Vec<Vec<i32>> = Vec::new();
    let mut cur: Vec<i32> = (&sorted_vec[0]).clone();
    assert(cur@ == ss[0]);
    proof {
        assert(views(merged@) =~= Seq::<Seq<i32>>::empty());
        assert(views(merged@).push(cur@) + ss.skip(1) =~= ss);
        assert forall|p: int| covers(views(merged@).push(cur@) + ss.skip(1), p) == covers(
            input,
            p,
        ) by {
            lemma_covers_permutation(ss, input, p);
        }
    }
    let mut k: usize = 1;
    while k < n
        invariant
            1 <= k <= n,
            n == sorted_vec.len(),
            ss == views(sorted_vec@),
            ss == sort_by_start(input),
            ss.to_multiset() == input.to_multiset(),
            all_pairs(ss),
            starts_sorted(ss),
            cur@.len() == 2,
            all_pairs(views(merged@)),
            disjoint_sorted(views(merged@).push(cur@)),
            starts_sorted(views(merged@).push(cur@)),
            forall|j: int| k <= j < n ==> cur@[0] <= (#[trigger] ss[j])[0],
            merge_loop(ss, k as int, views(merged@), cur@) == merge_fold(ss),
            forall|p: int|
                covers(views(merged@).push(cur@) + ss.skip(k as int), p) == covers(input, p),
        decreases n - k,
    {
        let ghost pre_merged = views(merged@);
        let ghost pre_cur = cur@;
        let nxt_start = sorted_vec[k][0];
        let nxt_end = sorted_vec[k][1];
        assert(ss[k as int][0] == nxt_start && ss[k as int][1] == nxt_end);
        if nxt_start <= cur[1] {
            let ce = cur[1];
            if nxt_end > ce {
                cur[1] = nxt_end;
            }
            proof {
                assert(cur@ =~= seq![
                    pre_cur[0],
                    if ss[k as int][1] > pre_cur[1] {
                        ss[k as int][1]
                    } else {
                        pre_cur[1]
                    },
                ]);
                assert(views(merged@) == pre_merged);
                assert(cur@[0] == pre_cur[0]);
                assert(disjoint_sorted(views(merged@).push(cur@))) by {
                    let t0 = pre_merged.push(pre_cur);
                    let t = pre_merged.push(cur@);
                    assert forall|x: int, y: int| 0 <= x < y < t.len() implies (#[trigger] t[x])[1]
                        < (#[trigger] t[y])[0] by {
                        assert(t0[x][1] < t0[y][0]);
                        if y == t.len() - 1 {
                            assert(t[x] == t0[x] && t[y][0] == t0[y][0]);
                        } else {
                            assert(t[x] == t0[x] && t[y] == t0[y]);
                        }
                    }
                    assert(views(merged@).push(cur@) =~= t);
                }
                assert(starts_sorted(views(merged@).push(cur@))) by {
                    let t0 = pre_merged.push(pre_cur);
                    let t = pre_merged.push(cur@);
                    assert forall|x: int, y: int| 0 <= x <= y < t.len() implies (#[trigger] t[x])[0]
                        <= (#[trigger] t[y])[0] by {
                        assert(t0[x][0] <= t0[y][0]);
                        assert(t[x][0] == t0[x][0] && t[y][0] == t0[y][0]);
                    }
                    assert(views(merged@).push(cur@) =~= t);
                }
                assert forall|p: int|
                    covers(views(merged@).push(cur@) + ss.skip(k + 1), p) == covers(
                        input,
                        p,
                    ) by {
                    lemma_covers_append(pre_merged.push(cur@), ss.skip(k + 1), p);
                    lemma_covers_append(pre_merged.push(pre_cur), ss.skip(k as int), p);
                    assert(ss.skip(k as int) =~= seq![ss[k as int]] + ss.skip(k + 1));
                    lemma_covers_append(seq![ss[k as int]], ss.skip(k + 1), p);
                    lemma_covers_push(pre_merged, cur@, p);
                    lemma_covers_push(pre_merged, pre_cur, p);
                    assert((seq![ss[k as int]])[0] == ss[k as int]);
                    if ss[k as int][0] <= p <= ss[k as int][1] {
                        assert(((seq![ss[k as int]])[0])[0] <= p <= ((seq![ss[k as int]])[0])[1]);
                    }
                    if covers(seq![ss[k as int]], p) {
                        let i0 = choose|i0: int|
                            0 <= i0 < 1 && ((#[trigger] (seq![ss[k as int]])[i0]))[0] <= p <= (
                            seq![ss[k as int]])[i0][1];
                        assert(i0 == 0);
                    }
                    assert((cur@[0] <= p <= cur@[1]) == ((pre_cur[0] <= p <= pre_cur[1]) || (
                    ss[k as int][0] <= p <= ss[k as int][1])));
                }
            }
        } else {
            merged.push(cur);
            cur = (&sorted_vec[k]).clone();
            proof {
                assert(views(merged@) =~= pre_merged.push(pre_cur));
                assert(cur@ == ss[k as int]);
                assert(pre_cur[0] <= ss[k as int][0]);
                assert(disjoint_sorted(views(merged@).push(cur@))) by {
                    let t0 = pre_merged.push(pre_cur);
                    let t = t0.push(ss[k as int]);
                    assert forall|x: int, y: int| 0 <= x < y < t.len() implies (#[trigger] t[x])[1]
                        < (#[trigger] t[y])[0] by {
                        if y == t.len() - 1 {
                            assert(t[x] == t0[x]);
                            if x < t.len() - 2 {
                                assert(t0[x][1] < t0[t0.len() - 1][0]);
                                assert(t0[t0.len() - 1] == pre_cur);
                            }
                            assert(t[x][1] < ss[k as int][0]);
                        } else {
                            assert(t[x] == t0[x] && t[y] == t0[y]);
                            assert(t0[x][1] < t0[y][0]);
                        }
                    }
                    assert(views(merged@).push(cur@) =~= t);
                }
                assert(starts_sorted(views(merged@).push(cur@))) by {
                    let t0 = pre_merged.push(pre_cur);
                    let t = t0.push(ss[k as int]);
                    assert forall|x: int, y: int| 0 <= x <= y < t.len() implies (#[trigger] t[x])[0]
                        <= (#[trigger] t[y])[0] by {
                        if x == y {
                        } else if y == t.len() - 1 {
                            assert(t[x] == t0[x]);
                            assert(t0[x][0] <= t0[t0.len() - 1][0]);
                            assert(t0[t0.len() - 1] == pre_cur);
                        } else {
                            assert(t[x] == t0[x] && t[y] == t0[y]);
                            assert(t0[x][0] <= t0[y][0]);
                        }
                    }
                    assert(views(merged@).push(cur@) =~= t);
                }
                assert forall|p: int|
                    covers(views(merged@).push(cur@) + ss.skip(k + 1), p) == covers(
                        input,
                        p,
                    ) by {
                    lemma_covers_append(views(merged@).push(cur@), ss.skip(k + 1), p);
                    lemma_covers_append(pre_merged.push(pre_cur), ss.skip(k as int), p);
                    assert(ss.skip(k as int) =~= seq![ss[k as int]] + ss.skip(k + 1));
                    lemma_covers_append(seq![ss[k as int]], ss.skip(k + 1), p);
                    lemma_covers_push(views(merged@), cur@, p);
                    lemma_covers_push(pre_merged, pre_cur, p);
                    assert((seq![ss[k as int]])[0] == ss[k as int]);
                    if ss[k as int][0] <= p <= ss[k as int][1] {
                        assert(((seq![ss[k as int]])[0])[0] <= p <= ((seq![ss[k as int]])[0])[1]);
                    }
                    if covers(seq![ss[k as int]], p) {
                        let i0 = choose|i0: int|
                            0 <= i0 < 1 && ((#[trigger] (seq![ss[k as int]])[i0]))[0] <= p <= (
                            seq![ss[k as int]])[i0][1];
                        assert(i0 == 0);
                    }
                }
            }
        }
        k = k + 1;
    }
    merged.push(cur);
    proof {
        assert(views(merged@) =~= views(merged@.drop_last()).push(cur@));
        assert(ss.skip(n as int) =~= Seq::<Seq<i32>>::empty());
        assert(views(merged@.drop_last()).push(cur@) + ss.skip(n as int) =~= views(merged@));
        assert(views(merged@) == merge_fold(ss));
        assert forall|p: int| covers(views(merged@), p) == covers(input, p) by {
            assert(covers(views(merged@.drop_last()).push(cur@) + ss.skip(n as int), p) == covers(
                input,
                p,
            ));
        }
    }
    merged
}

} // verus!
