//! Linear search against sorting once and binary-searching: the two
//! searches with their comparison counts, and a dual-pivot quicksort whose
//! pivots come from a seeded generator.
use vstd::prelude::*;
use vstd::arithmetic::power2::{pow2, lemma_pow2_pos, lemma2_to64};
use rand::rngs::StdRng;
use crate::bisection::{bisect, lemma_halving};
use crate::generators::with_swaps;
use crate::perm::{
    lemma_swap_multiset, swapped, lemma_permutes_forall, lemma_permutes_trans, lemma_permutes_whole, lemma_permutes_widen,
    lemma_swap_permutes, permutes_range, swap,
};
use crate::quicksort::{
    lemma_no_repeats_distinct, lemma_no_repeats_perm, lemma_no_repeats_sub, lemma_pow3_mono,
    lemma_three_parts, no_repeats, pow3, max_int2,
    is_sorted, lemma_cost_bound, lemma_small_square, lemma_sorted_parts, lemma_sorted_transfer,
    partition_dual, sorted_range,
};
use crate::random::random_below;

verus! {

/// Scans `array` from the front for `searched`. Returns the first position
/// holding it, if any, and the number of elements compared.
pub fn linear_search(array: &[usize], searched: usize) -> (res: (Option<usize>, usize))
    ensures
        match res.0 {
            Some(i) => {
                &&& i < array@.len()
                &&& array@[i as int] == searched
                &&& forall|j: int| 0 <= j < i ==> array@[j] != searched
                &&& res.1 == i + 1
            },
            None => {
                &&& forall|j: int| 0 <= j < array@.len() ==> array@[j] != searched
                &&& res.1 == array@.len()
            },
        },
{
    let mut comparisons: usize = 0;
    let n = array.len();
    let mut i: usize = 0;
    while i < n
        invariant
            n == array@.len(),
            i <= n,
            comparisons == i,
            forall|j: int| 0 <= j < i ==> array@[j] != searched,
        decreases n - i,
    {
        comparisons += 1;
        if array[i] == searched {
            return (Some(i), comparisons);
        }
        i += 1;
    }
    (None, comparisons)
}

/// Position of the first element of `array` that is not below `searched`
/// (`array.len()` when there is none), found by halving the interval, and
/// the number of probes made: both are those of `bisect`. For a sorted
/// array the position is exactly that first one; the probes number at most
/// `1 + log2(len)`.
pub fn lower_bound(array: &[usize], searched: usize) -> (res: (usize, usize))
    ensures
        (res.0 as int, res.1 as nat) == bisect(|i: int| array@[i] < searched, 0, array@.len() as int),
        res.0 <= array@.len(),
        is_sorted(array@) ==> forall|i: int| 0 <= i < res.0 ==> array@[i] < searched,
        is_sorted(array@) ==> forall|i: int| res.0 <= i < array@.len() ==> array@[i] >= searched,
        res.1 == 0 <==> array@.len() == 0,
        res.1 > 0 ==> pow2((res.1 - 1) as nat) <= array@.len(),
        res.1 <= array@.len(),
{
    let mut left_border: usize = 0;
    let n = array.len();
    let mut right_border: usize = n;
    let mut comparisons: usize = 0;
    proof {
        lemma2_to64();
    }
    while left_border < right_border
        invariant
            left_border <= right_border <= array@.len(),
            n == array@.len(),
            comparisons + (right_border - left_border) <= array@.len(),
            pow2(comparisons as nat) * (right_border - left_border) <= array@.len(),
            comparisons > 0 ==> pow2((comparisons - 1) as nat) <= array@.len(),
            comparisons == 0 ==> left_border == 0 && right_border == array@.len(),
            bisect(|i: int| array@[i] < searched, 0, array@.len() as int).0 == bisect(
                |i: int| array@[i] < searched,
                left_border as int,
                right_border as int,
            ).0,
            bisect(|i: int| array@[i] < searched, 0, array@.len() as int).1 == bisect(
                |i: int| array@[i] < searched,
                left_border as int,
                right_border as int,
            ).1 + comparisons,
            is_sorted(array@) ==> forall|i: int| 0 <= i < left_border ==> array@[i] < searched,
            is_sorted(array@) ==> forall|i: int|
                right_border <= i < array@.len() ==> array@[i] >= searched,
        decreases right_border - left_border,
    {
        let k = left_border + (right_border - left_border) / 2;
        let ghost m = right_border - left_border;
        proof {
            lemma_pow2_pos(comparisons as nat);
            assert(pow2(comparisons as nat) * 1 <= pow2(comparisons as nat) * m) by (nonlinear_arith)
                requires
                    m >= 1,
                    pow2(comparisons as nat) > 0,
            ;
        }
        assert(comparisons < n);
        comparisons += 1;
        if array[k] < searched {
            left_border = k + 1;
        } else {
            right_border = k;
        }
        proof {
            lemma_halving((comparisons - 1) as nat, m, right_border - left_border, array@.len() as int);
        }
    }
    (left_border, comparisons)
}

/// Scanning the data and binary-searching a sorted copy of it answer a
/// query alike: the key occurs in the data exactly when the lower-bound
/// position in the sorted copy holds it.
pub proof fn lemma_search_strategies_agree(raw: Seq<usize>, sorted: Seq<usize>, q: usize, pos: int)
    requires
        is_sorted(sorted),
        sorted.to_multiset() == raw.to_multiset(),
        0 <= pos <= sorted.len(),
        forall|i: int| 0 <= i < pos ==> sorted[i] < q,
        forall|i: int| pos <= i < sorted.len() ==> sorted[i] >= q,
    ensures
        (exists|j: int| 0 <= j < raw.len() && raw[j] == q) <==> (pos < sorted.len() && sorted[pos]
            == q),
{
    broadcast use vstd::seq_lib::group_to_multiset_ensures;
    raw.to_multiset_ensures();
    sorted.to_multiset_ensures();
    if exists|j: int| 0 <= j < raw.len() && raw[j] == q {
        let j = choose|j: int| 0 <= j < raw.len() && raw[j] == q;
        assert(raw.contains(q));
        assert(raw.to_multiset().count(q) > 0);
        assert(sorted.to_multiset().count(q) > 0);
        assert(sorted.contains(q));
        let i = choose|i: int| 0 <= i < sorted.len() && sorted[i] == q;
        assert(i >= pos);
        assert(sorted[pos] <= sorted[i]);
    }
    if pos < sorted.len() && sorted[pos] == q {
        assert(sorted.contains(q));
        assert(sorted.to_multiset().count(q) > 0);
        assert(raw.to_multiset().count(q) > 0);
        assert(raw.contains(q));
    }
}

/// The even numbers `0, 2, .., 2(n - 1)` in increasing order.
pub open spec fn doubles(n: nat) -> Seq<usize> {
    Seq::new(n, |i: int| (2 * i) as usize)
}

/// The exchanges of a Fisher-Yates shuffle of `n` elements: for `i` from
/// `n - 1` down to `1`, in that order, position `i` with a position at most
/// `i`.
pub open spec fn fisher_yates_pairs(pairs: Seq<(int, int)>, n: int) -> bool {
    &&& pairs.len() == if n > 1 { n - 1 } else { 0 }
    &&& forall|k: int|
        0 <= k < pairs.len() ==> #[trigger] pairs[k].0 == n - 1 - k && 0 <= pairs[k].1 <= pairs[k].0
}

/// The exchanges of a Fisher-Yates shuffle only rearrange: the shuffled
/// sequence has the same elements, each as often, as before.
pub proof fn lemma_fisher_yates_permutes(s: Seq<usize>, pairs: Seq<(int, int)>)
    requires
        forall|k: int|
            0 <= k < pairs.len() ==> 0 <= #[trigger] pairs[k].1 <= pairs[k].0 < s.len(),
    ensures
        with_swaps(s, pairs).len() == s.len(),
        with_swaps(s, pairs).to_multiset() == s.to_multiset(),
    decreases pairs.len(),
{
    if pairs.len() > 0 {
        let rest = pairs.drop_last();
        assert forall|k: int| 0 <= k < rest.len() implies 0 <= #[trigger] rest[k].1 <= rest[k].0
            < s.len() by {
            assert(rest[k] == pairs[k]);
        }
        lemma_fisher_yates_permutes(s, rest);
        let w = with_swaps(s, rest);
        lemma_swap_multiset(w, pairs.last().0, pairs.last().1);
    }
}

/// The even numbers below `2n`, shuffled by Fisher-Yates with positions
/// drawn from `rng`: the result is `doubles(n)` after one exchange for each
/// position from the last down to the second, each with a position drawn at
/// or below it.
pub fn shuffled_doubles(n: usize, rng: &mut StdRng) -> (v: Vec<usize>)
    requires
        2 * n <= usize::MAX,
    ensures
        v@.len() == n,
        v@.to_multiset() == doubles(n as nat).to_multiset(),
        exists|pairs: Seq<(int, int)>|
            fisher_yates_pairs(pairs, n as int) && v@ == with_swaps(doubles(n as nat), pairs),
{
    let mut v: Vec<usize> = Vec::new();
    let mut x: usize = 0;
    while x < n
        invariant
            x <= n,
            2 * n <= usize::MAX,
            v@ == doubles(x as nat),
        decreases n - x,
    {
        v.push(x * 2);
        x += 1;
        proof {
            assert(v@ =~= doubles(x as nat));
        }
    }
    let ghost mut pairs: Seq<(int, int)> = Seq::empty();
    proof {
        assert(with_swaps(doubles(n as nat), pairs) == doubles(n as nat));
    }
    let mut i: usize = n;
    while i > 1
        invariant
            i <= n,
            v@.len() == n,
            v@.to_multiset() == doubles(n as nat).to_multiset(),
            pairs.len() == if i > 1 { n - i } else if n > 1 { n - 1 } else { 0 },
            n <= 1 ==> i == n,
            forall|k: int|
                0 <= k < pairs.len() ==> #[trigger] pairs[k].0 == n - 1 - k && 0 <= pairs[k].1
                    <= pairs[k].0,
            v@ == with_swaps(doubles(n as nat), pairs),
        decreases i,
    {
        i -= 1;
        let j = random_below(rng, i + 1);
        let ghost before = v@;
        proof {
            lemma_swap_multiset(v@, i as int, j as int);
        }
        let a = v[i];
        let b = v[j];
        v.set(i, b);
        v.set(j, a);
        proof {
            assert(v@ =~= swapped(before, i as int, j as int));
            let old_pairs = pairs;
            pairs = pairs.push((i as int, j as int));
            assert(pairs.drop_last() =~= old_pairs);
            assert forall|k: int| 0 <= k < pairs.len() implies #[trigger] pairs[k].0 == n - 1 - k && 0
                <= pairs[k].1 <= pairs[k].0 by {
                if k < old_pairs.len() {
                    assert(pairs[k] == old_pairs[k]);
                }
            }
        }
    }
    proof {
        assert(fisher_yates_pairs(pairs, n as int));
    }
    v
}

/// Statistics of one quicksort run with seeded random pivots.
pub struct QuickSort {
    pub comparisons: usize,
    pub max_depth: usize,
}

impl QuickSort {
    /// A fresh run with both counters at zero.
    pub fn new() -> (qs: Self)
        ensures
            qs.comparisons == 0,
            qs.max_depth == 0,
    {
        QuickSort { comparisons: 0, max_depth: 0 }
    }

    /// Sorts `arr`, drawing the two pivots of every partition from `rng`.
    pub fn sort(&mut self, arr: &mut [usize], rng: &mut StdRng)
        requires
            old(self).comparisons + old(arr)@.len() * old(arr)@.len() <= usize::MAX,
        ensures
            final(arr)@.to_multiset() == old(arr)@.to_multiset(),
            is_sorted(final(arr)@),
            old(self).comparisons <= final(self).comparisons,
            final(self).comparisons <= old(self).comparisons + old(arr)@.len() * old(arr)@.len(),
            final(self).max_depth >= old(self).max_depth,
            final(self).max_depth >= 1,
            final(self).comparisons + 1 >= old(self).comparisons + old(arr)@.len(),
            final(self).max_depth <= max_int2(old(self).max_depth as int, 1 + old(arr)@.len() as int),
            old(arr)@.len() >= 3 ==> final(self).max_depth >= 2,
            no_repeats(old(arr)@, 0, old(arr)@.len() as int) ==> old(arr)@.len() < pow3(
                final(self).max_depth as nat,
            ),
    {
        let n = arr.len();
        proof {
            if n >= 2 {
                lemma_small_square(n as int);
            }
        }
        self.sort_rec(arr, 0, n, 1, rng);
        proof {
            lemma_permutes_whole(old(arr)@, arr@);
        }
    }

    #[verifier::spinoff_prover]
    #[verifier::rlimit(100)]
    fn sort_rec(&mut self, arr: &mut [usize], lo: usize, hi: usize, depth: usize, rng: &mut StdRng)
        requires
            lo <= hi <= old(arr)@.len(),
            old(self).comparisons + (hi - lo) * (hi - lo) <= usize::MAX,
            depth + (hi - lo) < usize::MAX,
        ensures
            permutes_range(old(arr)@, final(arr)@, lo as int, hi as int),
            sorted_range(final(arr)@, lo as int, hi as int),
            old(self).comparisons <= final(self).comparisons,
            final(self).comparisons <= old(self).comparisons + (hi - lo) * (hi - lo),
            final(self).max_depth >= old(self).max_depth,
            final(self).max_depth >= depth,
            final(self).comparisons + 1 >= old(self).comparisons + (hi - lo),
            final(self).max_depth <= max_int2(old(self).max_depth as int, depth + (hi - lo)),
            hi - lo >= 3 ==> final(self).max_depth >= depth + 1,
            no_repeats(old(arr)@, lo as int, hi as int) ==> hi - lo < pow3(
                (final(self).max_depth - depth + 1) as nat,
            ),
        decreases hi - lo,
    {
        if self.max_depth < depth {
            self.max_depth = depth;
        }
        let n = hi - lo;
        proof {
            lemma_pow3_mono(1, (self.max_depth - depth + 1) as nat);
        }
        if n <= 1 {
            return;
        }
        let ghost a0 = arr@;
        let ghost c0 = self.comparisons;
        let ghost nr = no_repeats(a0, lo as int, hi as int);
        proof {
            lemma_small_square(n as int);
        }
        if n == 2 {
            self.comparisons += 1;
            if arr[lo] > arr[lo + 1] {
                proof {
                    lemma_swap_permutes(arr@, lo as int, hi as int, lo as int, lo + 1);
                }
                swap(arr, lo, lo + 1);
            }
            return;
        }
        let i = random_below(rng, n);
        let offset = 1 + random_below(rng, n - 1);
        let j = (i + offset) % n;
        proof {
            lemma_swap_permutes(arr@, lo as int, hi as int, lo as int, lo + i);
        }
        swap(arr, lo, lo + i);
        let actual_j = if j == 0 {
            i
        } else {
            j
        };
        let ghost a1 = arr@;
        proof {
            lemma_swap_permutes(arr@, lo as int, hi as int, hi - 1, lo + actual_j);
        }
        swap(arr, hi - 1, lo + actual_j);
        proof {
            lemma_permutes_trans(a0, a1, arr@, lo as int, hi as int);
        }
        let ghost a1 = arr@;
        let (p1_idx, p2_idx) = partition_dual(arr, lo, hi, &mut self.comparisons);
        proof {
            lemma_permutes_trans(a0, a1, arr@, lo as int, hi as int);
        }
        let l_pivot = arr[p1_idx];
        let r_pivot = arr[p2_idx];
        proof {
            if nr {
                lemma_no_repeats_perm(a0, arr@, lo as int, hi as int);
                lemma_no_repeats_distinct(arr@, lo as int, hi as int, p1_idx as int, p2_idx as int);
                lemma_no_repeats_sub(arr@, lo as int, hi as int, lo as int, p1_idx as int);
            }
        }
        let pivots_are_equal = l_pivot == r_pivot;
        let ghost b0 = arr@;
        let ghost cp = self.comparisons;
        proof {
            lemma_cost_bound(n as int, p1_idx - lo, p2_idx - p1_idx - 1, hi - p2_idx - 1);
            assert(cp <= c0 + 2 * n - 3);
        }
        self.sort_rec(arr, lo, p1_idx, depth + 1, rng);
        let ghost b1 = arr@;
        let ghost d1 = self.max_depth;
        proof {
            if nr {
                lemma_no_repeats_sub(b0, lo as int, hi as int, p1_idx + 1, p2_idx as int);
                lemma_no_repeats_perm(b0, b1, p1_idx + 1, p2_idx as int);
            }
        }
        proof {
            lemma_permutes_forall(b0, b1, lo as int, p1_idx as int, |x: usize| x < l_pivot);
            lemma_permutes_widen(b0, b1, lo as int, hi as int, lo as int, p1_idx as int);
            lemma_permutes_trans(a0, b0, b1, lo as int, hi as int);
        }
        assert(forall|i: int| p1_idx <= i < hi ==> arr@[i] == b0[i]);
        assert(forall|i: int|
            p1_idx < i < p2_idx ==> l_pivot <= #[trigger] b0[i] && b0[i] <= r_pivot);
        assert forall|i: int| p1_idx < i < p2_idx implies l_pivot <= #[trigger] arr@[i] && arr@[i]
            <= r_pivot by {
            assert(arr@[i] == b0[i]);
            assert(l_pivot <= b0[i] && b0[i] <= r_pivot);
        }
        if !pivots_are_equal {
            self.sort_rec(arr, p1_idx + 1, p2_idx, depth + 1, rng);
            proof {
                lemma_permutes_forall(
                    b1,
                    arr@,
                    p1_idx + 1,
                    p2_idx as int,
                    |x: usize| l_pivot <= x && x <= r_pivot,
                );
                lemma_permutes_widen(b1, arr@, lo as int, hi as int, p1_idx + 1, p2_idx as int);
                lemma_permutes_trans(a0, b1, arr@, lo as int, hi as int);
            }
        }
        let ghost b2 = arr@;
        let ghost d2 = self.max_depth;
        assert(forall|i: int| p2_idx <= i < hi ==> arr@[i] == b0[i]);
        proof {
            if nr {
                lemma_no_repeats_sub(b0, lo as int, hi as int, p2_idx + 1, hi as int);
                lemma_no_repeats_perm(b0, b2, p2_idx + 1, hi as int);
            }
        }
        assert forall|i: int| p2_idx < i < hi implies #[trigger] arr@[i] > r_pivot by {
            assert(arr@[i] == b0[i]);
            assert(b0[i] > r_pivot);
        }
        self.sort_rec(arr, p2_idx + 1, hi, depth + 1, rng);
        proof {
            if nr {
                let k = (self.max_depth - depth) as nat;
                lemma_pow3_mono((d1 - depth) as nat, k);
                lemma_pow3_mono((d2 - depth) as nat, k);
                assert(((self.max_depth - depth + 1) as nat) == k + 1);
                lemma_three_parts(
                    n as int,
                    p1_idx - lo,
                    p2_idx - p1_idx - 1,
                    hi - p2_idx - 1,
                    k,
                );
            }
            lemma_permutes_forall(b2, arr@, p2_idx + 1, hi as int, |x: usize| x > r_pivot);
            lemma_permutes_widen(b2, arr@, lo as int, hi as int, p2_idx + 1, hi as int);
            lemma_permutes_trans(a0, b2, arr@, lo as int, hi as int);
            assert forall|i: int| lo <= i <= p2_idx implies arr@[i] == b2[i] by {}
            assert forall|i: int| lo <= i <= p1_idx implies b2[i] == b1[i] by {}
            assert forall|i: int| lo <= i < p1_idx implies #[trigger] arr@[i] < l_pivot by {
                assert(arr@[i] == b1[i]);
            }
            assert forall|i: int| p1_idx < i < p2_idx implies l_pivot <= #[trigger] arr@[i]
                && arr@[i] <= r_pivot by {
                assert(arr@[i] == b2[i]);
            }
            lemma_sorted_transfer(b1, arr@, lo as int, p1_idx as int);
            if !pivots_are_equal {
                lemma_sorted_transfer(b2, arr@, p1_idx + 1, p2_idx as int);
            }
            if pivots_are_equal {
                assert(sorted_range(arr@, p1_idx + 1, p2_idx as int));
            }
            lemma_sorted_parts(
                arr@,
                lo as int,
                p1_idx as int,
                p2_idx as int,
                hi as int,
                l_pivot,
                r_pivot,
            );
        }
    }
}

} // verus!
