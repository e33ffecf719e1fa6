//! Insertion sort that counts key comparisons and element shifts.
use vstd::prelude::*;
use crate::scan_sort::{inversions, inversions_before, smaller_after, sorted_i32};

verus! {

broadcast use vstd::seq_lib::group_to_multiset_ensures, vstd::multiset::group_multiset_axioms;

/// Number of elements of `s` greater than `x`.
pub open spec fn count_gt(s: Seq<i32>, x: i32) -> nat
    decreases s.len(),
{
    if s.len() == 0 {
        0
    } else {
        count_gt(s.drop_last(), x) + if s.last() > x {
            1nat
        } else {
            0nat
        }
    }
}

/// Inversions counted by their second position: for each `i`, the earlier
/// elements greater than `s[i]`, over the positions below `i`.
pub open spec fn inversions_by_second(s: Seq<i32>, i: int) -> nat
    decreases i,
{
    if i <= 0 || i > s.len() {
        0
    } else {
        inversions_by_second(s, i - 1) + count_gt(s.subrange(0, i - 1), s[i - 1])
    }
}

/// Number of positions `i` in `1..k` that have an earlier element not
/// greater than `s[i]`.
pub open spec fn stops_before(s: Seq<i32>, k: int) -> nat
    decreases k,
{
    if k <= 1 || k > s.len() {
        0
    } else {
        stops_before(s, k - 1) + if exists|j: int| 0 <= j < k - 1 && #[trigger] s[j] <= s[k - 1] {
            1nat
        } else {
            0nat
        }
    }
}

proof fn lemma_count_gt_bound(s: Seq<i32>, x: i32)
    ensures
        count_gt(s, x) <= s.len(),
        count_gt(s, x) < s.len() <==> exists|j: int| 0 <= j < s.len() && s[j] <= x,
    decreases s.len(),
{
    if s.len() > 0 {
        lemma_count_gt_bound(s.drop_last(), x);
        if count_gt(s, x) < s.len() {
            if s.last() > x {
                let j = choose|j: int| 0 <= j < s.drop_last().len() && s.drop_last()[j] <= x;
                assert(s[j] <= x);
            } else {
                assert(s[s.len() - 1] <= x);
            }
        }
        if exists|j: int| 0 <= j < s.len() && s[j] <= x {
            let j = choose|j: int| 0 <= j < s.len() && s[j] <= x;
            if j < s.len() - 1 {
                assert(s.drop_last()[j] <= x);
            }
        }
    }
}

proof fn lemma_count_gt_concat(a: Seq<i32>, b: Seq<i32>, x: i32)
    ensures
        count_gt(a + b, x) == count_gt(a, x) + count_gt(b, x),
    decreases b.len(),
{
    if b.len() == 0 {
        assert(a + b =~= a);
    } else {
        lemma_count_gt_concat(a, b.drop_last(), x);
        assert((a + b).drop_last() =~= a + b.drop_last());
    }
}

/// Two sequences with the same elements have as many elements above `x`.
proof fn lemma_count_gt_multiset(s1: Seq<i32>, s2: Seq<i32>, x: i32)
    requires
        s1.to_multiset() == s2.to_multiset(),
    ensures
        count_gt(s1, x) == count_gt(s2, x),
    decreases s1.len(),
{
    if s1.len() == 0 {
        assert(s1.to_multiset().len() == 0);
        assert(s2.len() == 0);
    } else {
        let y = s1.last();
        assert(s1.to_multiset().count(y) > 0) by {
            assert(s1.contains(y)) by {
                assert(s1[s1.len() - 1] == y);
            }
        }
        assert(s2.contains(y));
        let k = choose|k: int| 0 <= k < s2.len() && s2[k] == y;
        let r2 = s2.remove(k);
        assert(s1.drop_last().to_multiset() == s1.to_multiset().remove(y)) by {
            assert(s1.drop_last() =~= s1.remove(s1.len() - 1));
        }
        lemma_count_gt_multiset(s1.drop_last(), r2, x);
        assert(s2 =~= s2.subrange(0, k) + seq![y] + s2.subrange(k + 1, s2.len() as int));
        assert(r2 =~= s2.subrange(0, k) + s2.subrange(k + 1, s2.len() as int));
        lemma_count_gt_concat(s2.subrange(0, k) + seq![y], s2.subrange(k + 1, s2.len() as int), x);
        lemma_count_gt_concat(s2.subrange(0, k), seq![y], x);
        lemma_count_gt_concat(s2.subrange(0, k), s2.subrange(k + 1, s2.len() as int), x);
        assert(count_gt(seq![y], x) == if y > x {
            1nat
        } else {
            0nat
        }) by {
            assert(seq![y].drop_last() =~= Seq::<i32>::empty());
            assert(count_gt(Seq::<i32>::empty(), x) == 0);
            assert(seq![y].last() == y);
        }
    }
}

/// In a sorted sequence, the elements above `x` are exactly those from
/// position `j` on, when everything before `j` is at most `x`.
proof fn lemma_count_gt_sorted_split(s: Seq<i32>, x: i32, j: int)
    requires
        0 <= j <= s.len(),
        forall|k: int| 0 <= k < j ==> s[k] <= x,
        forall|k: int| j <= k < s.len() ==> s[k] > x,
    ensures
        count_gt(s, x) == s.len() - j,
    decreases s.len(),
{
    if s.len() > 0 {
        if j == s.len() {
            lemma_count_gt_sorted_split(s.drop_last(), x, j - 1);
        } else {
            lemma_count_gt_sorted_split(s.drop_last(), x, j);
        }
    }
}

/// Appending an element adds, to the inversions counted by first position,
/// the earlier elements greater than it.
proof fn lemma_smaller_after_push(s: Seq<i32>, y: i32, i: int, j: int)
    requires
        0 <= i,
        j <= s.len(),
    ensures
        smaller_after(s.push(y), i, j) == smaller_after(s, i, j),
    decreases j - i,
{
    if j > i + 1 {
        lemma_smaller_after_push(s, y, i, j - 1);
    }
}

proof fn lemma_inversions_push(s: Seq<i32>, y: i32, i: int)
    requires
        0 <= i <= s.len(),
    ensures
        inversions_before(s.push(y), i) == inversions_before(s, i) + count_gt(s.subrange(0, i), y),
    decreases i,
{
    if i > 0 {
        lemma_inversions_push(s, y, i - 1);
        let t = s.push(y);
        lemma_smaller_after_push(s, y, i - 1, s.len() as int);
        assert(smaller_after(t, i - 1, t.len() as int) == smaller_after(t, i - 1, s.len() as int) + if y
            < s[i - 1] {
            1nat
        } else {
            0nat
        });
        assert(s.subrange(0, i).drop_last() =~= s.subrange(0, i - 1));
    } else {
        assert(s.subrange(0, 0) =~= Seq::<i32>::empty());
    }
}

/// Counting inversions by first or by second position gives the same.
proof fn lemma_inversions_by_second(s: Seq<i32>)
    ensures
        inversions_by_second(s, s.len() as int) == inversions(s),
    decreases s.len(),
{
    if s.len() > 0 {
        let p = s.drop_last();
        let y = s.last();
        lemma_inversions_by_second(p);
        assert(s =~= p.push(y));
        lemma_inversions_push(p, y, p.len() as int);
        assert(smaller_after(s, p.len() as int, s.len() as int) == 0);
        assert(p.subrange(0, p.len() as int) =~= p);
        assert(s.subrange(0, s.len() - 1) =~= p);
        lemma_by_second_prefix(s, p, p.len() as int);
    }
}

proof fn lemma_by_second_prefix(s: Seq<i32>, p: Seq<i32>, i: int)
    requires
        0 <= i <= p.len(),
        p.len() < s.len(),
        forall|k: int| 0 <= k < p.len() ==> s[k] == p[k],
    ensures
        inversions_by_second(s, i) == inversions_by_second(p, i),
    decreases i,
{
    if i > 0 {
        lemma_by_second_prefix(s, p, i - 1);
        assert(s.subrange(0, i - 1) =~= p.subrange(0, i - 1));
    }
}

proof fn lemma_by_second_mono(s: Seq<i32>, i: int, k: int)
    requires
        0 <= i <= k <= s.len(),
    ensures
        inversions_by_second(s, i) <= inversions_by_second(s, k),
    decreases k - i,
{
    if i < k {
        lemma_by_second_mono(s, i, k - 1);
    }
}

proof fn lemma_stops_mono(s: Seq<i32>, i: int, k: int)
    requires
        0 <= i <= k <= s.len(),
    ensures
        stops_before(s, i) <= stops_before(s, k),
    decreases k - i,
{
    if i < k {
        lemma_stops_mono(s, i, k - 1);
    }
}

/// When every element from position `j` on is above `x`, at least that
/// many elements are above `x`.
proof fn lemma_count_gt_suffix(s: Seq<i32>, x: i32, j: int)
    requires
        0 <= j <= s.len(),
    ensures
        (forall|k: int| j <= k < s.len() ==> s[k] > x) ==> count_gt(s, x) >= s.len() - j,
    decreases s.len(),
{
    if s.len() > j {
        lemma_count_gt_suffix(s.drop_last(), x, j);
    }
}

/// Sorts `array` in place by inserting each element into the sorted part
/// before it. Returns the array, the number of key comparisons and the
/// number of element shifts.
pub fn insertion_sort_counter(array: &mut [i32]) -> (res: (&mut [i32], usize, usize))
    requires
        inversions(old(array)@) + stops_before(old(array)@, old(array)@.len() as int) <= usize::MAX,
    ensures
        final(array)@ == final(res.0)@,
        res.0@.to_multiset() == old(array)@.to_multiset(),
        sorted_i32(res.0@),
        res.2 == inversions(old(array)@),
        res.1 == inversions(old(array)@) + stops_before(old(array)@, old(array)@.len() as int),
{
    let ghost s = array@;
    let n = array.len();
    let mut comparisons: usize = 0;
    let mut shifts: usize = 0;
    if n == 0 {
        proof {
            assert(inversions(s) == 0);
            assert(sorted_i32(array@));
        }
        return (array, comparisons, shifts);
    }
    proof {
        lemma_inversions_by_second(s);
        assert(array@.subrange(0, 1) =~= s.subrange(0, 1));
        assert(s.subrange(0, 0) =~= Seq::<i32>::empty());
        assert(count_gt(s.subrange(0, 0), s[0]) == 0);
        assert(inversions_by_second(s, 0) == 0);
        assert(inversions_by_second(s, 1) == inversions_by_second(s, 0) + count_gt(
            s.subrange(0, 0),
            s[0],
        ));
        assert(stops_before(s, 1) == 0);
    }
    let mut i: usize = 1;
    while i < n
        invariant
            n == s.len(),
            array@.len() == n,
            1 <= i <= n,
            sorted_i32(array@.subrange(0, i as int)),
            array@.subrange(0, i as int).to_multiset() == s.subrange(0, i as int).to_multiset(),
            forall|k: int| i <= k < n ==> #[trigger] array@[k] == s[k],
            shifts == inversions_by_second(s, i as int),
            comparisons == shifts + stops_before(s, i as int),
            inversions_by_second(s, n as int) + stops_before(s, n as int) <= usize::MAX,
        decreases n - i,
    {
        let key = array[i];
        let mut j = i;
        let ghost p = array@.subrange(0, i as int);
        let ghost comps0 = comparisons;
        let ghost shifts0 = shifts;
        let ghost cg = count_gt(p, key);
        let ghost stop = exists|k: int| 0 <= k < i && s[k] <= s[i as int];
        proof {
            lemma_count_gt_multiset(p, s.subrange(0, i as int), key);
            lemma_count_gt_bound(s.subrange(0, i as int), key);
            assert(stop == exists|k: int| 0 <= k < s.subrange(0, i as int).len() && s.subrange(
                0,
                i as int,
            )[k] <= key) by {
                if stop {
                    let k = choose|k: int| 0 <= k < i && s[k] <= s[i as int];
                    assert(s.subrange(0, i as int)[k] <= key);
                }
            }
            lemma_by_second_mono(s, i + 1, n as int);
            lemma_stops_mono(s, i + 1, n as int);
            assert(inversions_by_second(s, i + 1) == shifts0 + cg);
            assert(stops_before(s, i + 1) == stops_before(s, i as int) + if stop {
                1nat
            } else {
                0nat
            });
        }
        while j > 0
            invariant_except_break
                forall|k: int| j <= k < i ==> p[k] > key,
                comparisons == comps0 + (i - j),
            invariant
                shifts0 <= comps0,
                j <= i < n,
                array@.len() == n,
                p.len() == i,
                sorted_i32(p),
                key == s[i as int],
                forall|k: int| 0 <= k < j ==> #[trigger] array@[k] == p[k],
                forall|k: int| j < k <= i ==> #[trigger] array@[k] == p[k - 1],
                forall|k: int| i < k < n ==> #[trigger] array@[k] == s[k],
                shifts == shifts0 + (i - j),
                cg == count_gt(p, key),
                comps0 + cg + (if stop {
                    1nat
                } else {
                    0nat
                }) <= usize::MAX,
                stop == (cg < i),
            ensures
                forall|k: int| j <= k < i ==> p[k] > key,
                j == 0 ==> comparisons == comps0 + i,
                j > 0 ==> p[j - 1] <= key && comparisons == comps0 + (i - j) + 1,
                shifts == shifts0 + (i - j),
            decreases j,
        {
            proof {
                lemma_count_gt_suffix(p, key, j as int);
                lemma_count_gt_suffix(p, key, j - 1);
                lemma_count_gt_bound(p, key);
                if p[j - 1] <= key {
                    assert(cg < i);
                } else {
                    assert(cg >= i - j + 1);
                }
            }
            comparisons += 1;
            if array[j - 1] <= key {
                break;
            }
            array[j] = array[j - 1];
            shifts += 1;
            j -= 1;
        }
        array[j] = key;
        proof {
            let q = array@.subrange(0, i + 1);
            assert(q =~= p.insert(j as int, key));
            assert(s.subrange(0, i + 1) =~= s.subrange(0, i as int).push(key));
            assert forall|k: int| 0 <= k < j implies p[k] <= key by {
                if j > 0 {
                    assert(p[k] <= p[j - 1]);
                }
            }
            lemma_count_gt_sorted_split(p, key, j as int);
            assert forall|a: int, b: int| 0 <= a <= b < q.len() implies q[a] <= q[b] by {
                if a < j && b > j {
                    assert(p[a] <= p[b - 1]);
                } else if a > j {
                    assert(p[a - 1] <= p[b - 1]);
                } else if a < j && b < j {
                } else if a == j && b > j {
                } else if a < j && b == j {
                }
            }
            assert(stop == (j > 0));
        }
        i += 1;
    }
    proof {
        assert(array@.subrange(0, n as int) =~= array@);
        assert(s.subrange(0, n as int) =~= s);
    }
    (array, comparisons, shifts)
}

} // verus!
