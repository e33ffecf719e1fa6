//! Dual-pivot quicksort that counts comparisons and recursion depth, in a
//! deterministic variant (pivots are the first and last element, with a
//! recursion-depth cut-off) and a randomised variant (random pivots).
use vstd::prelude::*;
use crate::perm::{
    swapped, lemma_permutes_forall, lemma_permutes_trans, lemma_permutes_whole, lemma_permutes_widen,
    lemma_split_multiset, lemma_swap_permutes, permutes_range, swap,
};
use crate::random::random_u32;

verus! {

/// Depth at which the deterministic variant gives up.
pub const MAX_DEPTH_LIMIT: usize = 1200;

/// `s[lo..hi]` is in non-decreasing order.
pub open spec fn sorted_range(s: Seq<usize>, lo: int, hi: int) -> bool {
    forall|i: int, j: int| lo <= i <= j < hi ==> s[i] <= s[j]
}

/// The whole sequence is in non-decreasing order.
pub open spec fn is_sorted(s: Seq<usize>) -> bool {
    sorted_range(s, 0, s.len() as int)
}

/// Two sorted arrangements of the same elements are equal: whichever of
/// the sorts of this library produced them, their results agree.
pub proof fn lemma_sorted_arrangement_unique(a: Seq<usize>, b: Seq<usize>)
    requires
        is_sorted(a),
        is_sorted(b),
        a.to_multiset() == b.to_multiset(),
    ensures
        a == b,
    decreases a.len(),
{
    broadcast use vstd::seq_lib::group_to_multiset_ensures, vstd::multiset::group_multiset_axioms;
    a.to_multiset_ensures();
    b.to_multiset_ensures();
    if a.len() == 0 {
        assert(b.len() == 0);
        assert(a =~= b);
    } else {
        assert(b.len() > 0);
        assert(a.to_multiset().count(a[0]) > 0);
        assert(b.contains(a[0]));
        let j = choose|j: int| 0 <= j < b.len() && b[j] == a[0];
        assert(b[0] <= a[0]);
        assert(b.to_multiset().count(b[0]) > 0);
        assert(a.contains(b[0]));
        let k = choose|k: int| 0 <= k < a.len() && a[k] == b[0];
        assert(a[0] <= b[0]);
        let a1 = a.drop_first();
        let b1 = b.drop_first();
        assert(a =~= seq![a[0]] + a1);
        assert(b =~= seq![a[0]] + b1);
        vstd::seq_lib::lemma_multiset_commutative(seq![a[0]], a1);
        vstd::seq_lib::lemma_multiset_commutative(seq![a[0]], b1);
        assert(a1.to_multiset() =~= b1.to_multiset()) by {
            assert(seq![a[0]].to_multiset() =~= vstd::multiset::Multiset::singleton(a[0])) by {
                assert(seq![a[0]] =~= Seq::<usize>::empty().push(a[0]));
            }
            assert forall|x: usize| a1.to_multiset().count(x) == b1.to_multiset().count(x) by {
                assert(a.to_multiset().count(x) == seq![a[0]].to_multiset().count(x)
                    + a1.to_multiset().count(x));
                assert(b.to_multiset().count(x) == seq![a[0]].to_multiset().count(x)
                    + b1.to_multiset().count(x));
            }
        }
        lemma_sorted_arrangement_unique(a1, b1);
        assert(a =~= b);
    }
}

/// Statistics and settings of one quicksort run.
pub struct QuickSort {
    pub comparisons: usize,
    pub max_depth: usize,
    pub is_random: bool,
    pub aborted: bool,
}

pub(crate) proof fn lemma_cost_bound(n: int, a: int, b: int, c: int)
    requires
        n >= 3,
        a >= 0,
        b >= 0,
        c >= 0,
        a + b + c == n - 2,
    ensures
        2 * n - 3 + a * a + b * b + c * c <= n * n,
        a * a <= (n - 2) * (n - 2),
        (n - 2) * (n - 2) + 2 * n - 3 <= n * n,
        a * a + b * b <= (a + b) * (a + b),
        (a + b) * (a + b) <= (n - 2) * (n - 2),
{
    assert(a * a + b * b + c * c <= (a + b + c) * (a + b + c)) by (nonlinear_arith)
        requires
            a >= 0,
            b >= 0,
            c >= 0,
    ;
    assert(a * a <= (n - 2) * (n - 2)) by (nonlinear_arith)
        requires
            0 <= a <= n - 2,
    ;
    assert(a * a + b * b <= (a + b) * (a + b)) by (nonlinear_arith)
        requires
            a >= 0,
            b >= 0,
    ;
    assert((a + b) * (a + b) <= (n - 2) * (n - 2)) by (nonlinear_arith)
        requires
            0 <= a + b <= n - 2,
    ;
    assert((n - 2) * (n - 2) + 2 * n - 3 <= n * n) by (nonlinear_arith)
        requires
            n >= 3,
    ;
}

pub(crate) proof fn lemma_small_square(n: int)
    requires
        n >= 2,
        n * n <= usize::MAX,
    ensures
        2 * n <= usize::MAX,
        2 * n <= n * n,
        n <= n * n,
{
    assert(2 * n <= n * n) by (nonlinear_arith)
        requires
            n >= 2,
    ;
}

/// A sorted block stays sorted in a sequence that agrees with it there.
pub(crate) proof fn lemma_sorted_transfer(a: Seq<usize>, b: Seq<usize>, lo: int, hi: int)
    requires
        sorted_range(a, lo, hi),
        forall|i: int| lo <= i < hi ==> a[i] == b[i],
    ensures
        sorted_range(b, lo, hi),
{
}

/// Gluing three sorted blocks around two pivots gives a sorted block.
pub(crate) proof fn lemma_sorted_parts(s: Seq<usize>, lo: int, p1: int, p2: int, hi: int, l: usize, r: usize)
    requires
        0 <= lo <= p1 < p2 < hi <= s.len(),
        s[p1] == l,
        s[p2] == r,
        l <= r,
        sorted_range(s, lo, p1),
        sorted_range(s, p1 + 1, p2),
        sorted_range(s, p2 + 1, hi),
        forall|i: int| lo <= i < p1 ==> s[i] < l,
        forall|i: int| p1 < i < p2 ==> l <= s[i] && s[i] <= r,
        forall|i: int| p2 < i < hi ==> s[i] > r,
    ensures
        sorted_range(s, lo, hi),
{
}


/// Dual-pivot partition of `arr[lo..hi]` around its first and last element
/// (the smaller one becomes the left pivot). Returns the final positions
/// of the two pivots: smaller elements end up left of the left pivot,
/// elements between the pivots in the middle, larger ones right of the right
/// pivot. Counts one comparison for ordering the pivots, then one for each
/// element that goes left of the left pivot and two for every other element
/// between the two ends.
pub fn partition_dual(arr: &mut [usize], lo: usize, hi: usize, comparisons: &mut usize) -> (res: (
    usize,
    usize,
))
    requires
        lo + 3 <= hi <= old(arr)@.len(),
        *old(comparisons) + 2 * (hi - lo) <= usize::MAX,
    ensures
        lo <= res.0 < res.1 < hi,
        permutes_range(old(arr)@, final(arr)@, lo as int, hi as int),
        final(arr)@[res.0 as int] == min_usize(old(arr)@[lo as int], old(arr)@[hi - 1]),
        final(arr)@[res.1 as int] == max_usize(old(arr)@[lo as int], old(arr)@[hi - 1]),
        forall|i: int| lo <= i < res.0 ==> #[trigger] final(arr)@[i] < final(arr)@[res.0 as int],
        forall|i: int|
            res.0 < i < res.1 ==> final(arr)@[res.0 as int] <= #[trigger] final(arr)@[i]
                && final(arr)@[i] <= final(arr)@[res.1 as int],
        forall|i: int| res.1 < i < hi ==> #[trigger] final(arr)@[i] > final(arr)@[res.1 as int],
        *final(comparisons) == *old(comparisons) + 2 * (hi - lo) - 3 - (res.0 - lo),
        final(arr)@ == partitioned(old(arr)@, lo as int, hi as int).0,
        res.0 == partitioned(old(arr)@, lo as int, hi as int).1,
        res.1 == partitioned(old(arr)@, lo as int, hi as int).2,
{
    let ghost a0 = arr@;
    let ghost c0 = *comparisons;
    let n = hi - lo;
        *comparisons += 1;
        let mut l_pivot = arr[lo];
        let mut r_pivot = arr[hi - 1];
        if l_pivot > r_pivot {
            let tmp = l_pivot;
            l_pivot = r_pivot;
            r_pivot = tmp;
            let ghost a1 = arr@;
            proof {
                lemma_swap_permutes(arr@, lo as int, hi as int, lo as int, hi - 1);
            }
            swap(arr, lo, hi - 1);
            proof {
                lemma_permutes_trans(a0, a1, arr@, lo as int, hi as int);
            }
        }
        
        let mut lt = lo + 1;
        let mut gt = hi - 2;
        let mut k = lt;
        let ghost s1 = arr@;

        while k <= gt
            invariant
                lo + 1 <= lt <= k <= gt + 1 <= hi - 1,
                hi <= arr@.len(),
                n == hi - lo,
                n >= 3,
                arr@[lo as int] == l_pivot,
                arr@[hi - 1] == r_pivot,
                l_pivot <= r_pivot,
                forall|i: int| lo + 1 <= i < lt ==> arr@[i] < l_pivot,
                forall|i: int| lt <= i < k ==> l_pivot <= arr@[i] && arr@[i] <= r_pivot,
                forall|i: int| gt < i < hi - 1 ==> arr@[i] > r_pivot,
                permutes_range(a0, arr@, lo as int, hi as int),
                *comparisons == c0 + 1 + 2 * ((k - lo - 1) + (hi - 2 - gt)) - (lt - lo - 1),
                c0 + 2 * n <= usize::MAX,
                l_pivot == min_usize(a0[lo as int], a0[hi - 1]),
                r_pivot == max_usize(a0[lo as int], a0[hi - 1]),
                s1 == (if a0[lo as int] > a0[hi - 1] {
                    swapped(a0, lo as int, hi - 1)
                } else {
                    a0
                }),
                partition_scan(arr@, lt as int, k as int, gt as int, l_pivot, r_pivot)
                    == partition_scan(s1, lo + 1, lo + 1, hi - 2, l_pivot, r_pivot),
            decreases gt + 1 - k,
        {
            *comparisons += 1;
            let ghost a1 = arr@;
            if arr[k] < l_pivot {
                proof {
                    lemma_swap_permutes(arr@, lo as int, hi as int, lt as int, k as int);
                }
                swap(arr, lt, k);
                proof {
                    lemma_permutes_trans(a0, a1, arr@, lo as int, hi as int);
                }
                lt += 1;
                k += 1;
            } else {
                *comparisons += 1;
                if arr[k] > r_pivot {
                    proof {
                        lemma_swap_permutes(arr@, lo as int, hi as int, gt as int, k as int);
                    }
                    swap(arr, gt, k);
                    proof {
                        lemma_permutes_trans(a0, a1, arr@, lo as int, hi as int);
                    }
                    gt -= 1;
                } else {
                    k += 1;
                }
            }
        }

        let p1_idx = lt - 1;
        let p2_idx = gt + 1;
        let ghost a1 = arr@;
        proof {
            lemma_swap_permutes(arr@, lo as int, hi as int, lo as int, p1_idx as int);
        }
        swap(arr, lo, p1_idx);
        let ghost a2 = arr@;
        proof {
            lemma_permutes_trans(a0, a1, arr@, lo as int, hi as int);
            lemma_swap_permutes(arr@, lo as int, hi as int, hi - 1, p2_idx as int);
        }
        swap(arr, hi - 1, p2_idx);
        proof {
            lemma_permutes_trans(a0, a2, arr@, lo as int, hi as int);
        }
        (p1_idx, p2_idx)
}

/// The larger of two integers.
pub open spec fn max_int2(a: int, b: int) -> int {
    if a >= b { a } else { b }
}

/// `3` to the power `k`.
pub open spec fn pow3(k: nat) -> nat
    decreases k,
{
    if k == 0 {
        1
    } else {
        3 * pow3((k - 1) as nat)
    }
}

/// Powers of three grow with the exponent.
pub proof fn lemma_pow3_mono(a: nat, b: nat)
    requires
        a <= b,
    ensures
        1 <= pow3(a) <= pow3(b),
    decreases b,
{
    if a < b {
        lemma_pow3_mono(a, (b - 1) as nat);
    } else {
        lemma_pow3_pos(a);
    }
}

proof fn lemma_pow3_pos(k: nat)
    ensures
        1 <= pow3(k),
    decreases k,
{
    if k > 0 {
        lemma_pow3_pos((k - 1) as nat);
    }
}

/// No value occurs twice in `s[lo..hi]`.
pub open spec fn no_repeats(s: Seq<usize>, lo: int, hi: int) -> bool {
    forall|x: usize| s.subrange(lo, hi).to_multiset().count(x) <= 1
}

/// A stretch inside a stretch without repeats has none.
pub proof fn lemma_no_repeats_sub(s: Seq<usize>, lo: int, hi: int, a: int, b: int)
    requires
        no_repeats(s, lo, hi),
        0 <= lo <= a <= b <= hi <= s.len(),
    ensures
        no_repeats(s, a, b),
{
    lemma_split_multiset(s, lo, a, hi);
    lemma_split_multiset(s, a, b, hi);
    assert forall|x: usize| s.subrange(a, b).to_multiset().count(x) <= 1 by {
        assert(s.subrange(lo, hi).to_multiset().count(x) >= s.subrange(a, hi).to_multiset().count(x));
        assert(s.subrange(a, hi).to_multiset().count(x) >= s.subrange(a, b).to_multiset().count(x));
    }
}

/// Rearranging a stretch, or changing nothing in it, keeps it without
/// repeats.
pub proof fn lemma_no_repeats_perm(a: Seq<usize>, b: Seq<usize>, lo: int, hi: int)
    requires
        no_repeats(a, lo, hi),
        permutes_range(a, b, lo, hi) || (0 <= lo <= hi <= a.len() && hi <= b.len() && forall|i: int|
            lo <= i < hi ==> a[i] == b[i]),
    ensures
        no_repeats(b, lo, hi),
{
    if !permutes_range(a, b, lo, hi) {
        assert(a.subrange(lo, hi) =~= b.subrange(lo, hi));
    }
}

/// In a stretch without repeats, two different positions hold different
/// values.
pub proof fn lemma_no_repeats_distinct(s: Seq<usize>, lo: int, hi: int, i: int, j: int)
    requires
        no_repeats(s, lo, hi),
        0 <= lo <= i < j < hi <= s.len(),
    ensures
        s[i] != s[j],
{
    lemma_split_multiset(s, lo, i + 1, hi);
    let p = s.subrange(lo, i + 1);
    let q = s.subrange(i + 1, hi);
    p.to_multiset_ensures();
    q.to_multiset_ensures();
    assert(p[i - lo] == s[i]);
    assert(q[j - i - 1] == s[j]);
    assert(p.contains(s[i]));
    assert(q.contains(s[j]));
    if s[i] == s[j] {
        assert(p.to_multiset().count(s[i]) > 0);
        assert(q.to_multiset().count(s[i]) > 0);
        assert(s.subrange(lo, hi).to_multiset().count(s[i]) >= 2);
    }
}

/// Three stretches, each shorter than `3^k`, plus two pivots, are shorter
/// than `3^(k+1)`.
pub proof fn lemma_three_parts(n: int, a: int, b: int, c: int, k: nat)
    requires
        a + b + c == n - 2,
        0 <= a < pow3(k),
        0 <= b < pow3(k),
        0 <= c < pow3(k),
    ensures
        n < pow3(k + 1),
{
    assert(pow3(k + 1) == 3 * pow3(k));
}

/// The smaller of two values.
pub open spec fn min_usize(a: usize, b: usize) -> usize {
    if a <= b { a } else { b }
}

/// The larger of two values.
pub open spec fn max_usize(a: usize, b: usize) -> usize {
    if a <= b { b } else { a }
}

/// The scan of the partition: the element at `k` goes left (swapped to
/// `lt`) when below `lp`, right (swapped to `gt`) when above `rp`, and
/// stays otherwise, until `k` passes `gt`. The arrangement and the final
/// `lt` and `gt`.
pub open spec fn partition_scan(s: Seq<usize>, lt: int, k: int, gt: int, lp: usize, rp: usize) -> (
    Seq<usize>,
    int,
    int,
)
    decreases gt + 1 - k,
{
    if k > gt {
        (s, lt, gt)
    } else if s[k] < lp {
        partition_scan(swapped(s, lt, k), lt + 1, k + 1, gt, lp, rp)
    } else if s[k] > rp {
        partition_scan(swapped(s, gt, k), lt, k, gt - 1, lp, rp)
    } else {
        partition_scan(s, lt, k + 1, gt, lp, rp)
    }
}

/// The scan moves `lt` right and `gt` left, and ends with `k` just past
/// `gt`, so `lt` ends at most one past `gt`.
pub proof fn lemma_scan_bounds(s: Seq<usize>, lt: int, k: int, gt: int, lp: usize, rp: usize)
    requires
        lt <= k <= gt + 1,
    ensures
        lt <= partition_scan(s, lt, k, gt, lp, rp).1,
        partition_scan(s, lt, k, gt, lp, rp).1 <= partition_scan(s, lt, k, gt, lp, rp).2 + 1,
        partition_scan(s, lt, k, gt, lp, rp).2 <= gt,
    decreases gt + 1 - k,
{
    if k <= gt {
        if s[k] < lp {
            lemma_scan_bounds(swapped(s, lt, k), lt + 1, k + 1, gt, lp, rp);
        } else if s[k] > rp {
            lemma_scan_bounds(swapped(s, gt, k), lt, k, gt - 1, lp, rp);
        } else {
            lemma_scan_bounds(s, lt, k + 1, gt, lp, rp);
        }
    }
}

/// Dual-pivot partition of `s[lo..hi]`: order the two end elements, scan
/// the inner ones, then move the pivots to their final places. The
/// arrangement and the positions of the two pivots.
pub open spec fn partitioned(s: Seq<usize>, lo: int, hi: int) -> (Seq<usize>, int, int) {
    let s1 = if s[lo] > s[hi - 1] {
        swapped(s, lo, hi - 1)
    } else {
        s
    };
    let r = partition_scan(s1, lo + 1, lo + 1, hi - 2, s1[lo], s1[hi - 1]);
    let p1 = r.1 - 1;
    let p2 = r.2 + 1;
    (swapped(swapped(r.0, lo, p1), hi - 1, p2), p1, p2)
}

/// Deterministic dual-pivot quicksort of `s[lo..hi]` at recursion depth
/// `depth`, starting from `c` comparisons and maximal depth `md`: the
/// arrangement, the comparisons and maximal depth afterwards, and whether
/// it finished without reaching `MAX_DEPTH_LIMIT`.
pub open spec fn det_sort(s: Seq<usize>, lo: int, hi: int, depth: int, c: int, md: int) -> (
    Seq<usize>,
    int,
    int,
    bool,
)
    decreases hi - lo,
{
    let md1 = if md < depth {
        depth
    } else {
        md
    };
    if depth >= MAX_DEPTH_LIMIT {
        (s, c, md1, false)
    } else if hi - lo <= 1 {
        (s, c, md1, true)
    } else if hi - lo == 2 {
        (
            if s[lo] > s[lo + 1] {
                swapped(s, lo, lo + 1)
            } else {
                s
            },
            c + 1,
            md1,
            true,
        )
    } else {
        let (s2, p1, p2) = partitioned(s, lo, hi);
        proof {
            let s1 = if s[lo] > s[hi - 1] {
                swapped(s, lo, hi - 1)
            } else {
                s
            };
            lemma_scan_bounds(s1, lo + 1, lo + 1, hi - 2, s1[lo], s1[hi - 1]);
        }
        let c2 = c + 2 * (hi - lo) - 3 - (p1 - lo);
        let r1 = det_sort(s2, lo, p1, depth + 1, c2, md1);
        if !r1.3 {
            r1
        } else {
            let r2 = if s2[p1] != s2[p2] {
                det_sort(r1.0, p1 + 1, p2, depth + 1, r1.1, r1.2)
            } else {
                r1
            };
            if !r2.3 {
                r2
            } else {
                det_sort(r2.0, p2 + 1, hi, depth + 1, r2.1, r2.2)
            }
        }
    }
}

/// `s[lo..hi]` is strictly increasing.
pub open spec fn increasing_range(s: Seq<usize>, lo: int, hi: int) -> bool {
    forall|i: int, j: int| lo <= i < j < hi ==> s[i] < s[j]
}

/// A scan over elements that all lie between the pivots moves nothing.
proof fn lemma_scan_in_range(s: Seq<usize>, lt: int, k: int, gt: int, lp: usize, rp: usize)
    requires
        lt <= k <= gt + 1,
        forall|i: int| k <= i <= gt ==> lp <= #[trigger] s[i] && s[i] <= rp,
    ensures
        partition_scan(s, lt, k, gt, lp, rp) == (s, lt, gt),
    decreases gt + 1 - k,
{
    if k <= gt {
        lemma_scan_in_range(s, lt, k + 1, gt, lp, rp);
    }
}

/// Partitioning an increasing range leaves it as it is, with the pivots
/// at its two ends.
proof fn lemma_partition_increasing(s: Seq<usize>, lo: int, hi: int)
    requires
        0 <= lo,
        lo + 3 <= hi <= s.len(),
        increasing_range(s, lo, hi),
    ensures
        partitioned(s, lo, hi) == (s, lo, hi - 1),
{
    assert(s[lo] < s[hi - 1]);
    lemma_scan_in_range(s, lo + 1, lo + 1, hi - 2, s[lo], s[hi - 1]);
    assert(swapped(s, lo, lo) =~= s);
    assert(swapped(s, hi - 1, hi - 1) =~= s);
}

/// On an increasing range of `m` elements at depth `d`, every level sets
/// only the two end elements aside, so the sort finishes exactly when the
/// depth stays below the limit for `(m - 1) / 2` more levels.
proof fn lemma_increasing_finishes(s: Seq<usize>, lo: int, hi: int, d: int, c: int, md: int)
    requires
        0 <= lo <= hi <= s.len(),
        increasing_range(s, lo, hi),
    ensures
        det_sort(s, lo, hi, d, c, md).3 == (d < MAX_DEPTH_LIMIT && (hi - lo <= 2 || d + (hi - lo
            - 1) / 2 < MAX_DEPTH_LIMIT)),
    decreases hi - lo,
{
    if d < MAX_DEPTH_LIMIT && hi - lo >= 3 {
        lemma_partition_increasing(s, lo, hi);
        let md1 = if md < d {
            d
        } else {
            md
        };
        let c2 = c + 2 * (hi - lo) - 3;
        let r1 = det_sort(s, lo, lo, d + 1, c2, md1);
        if r1.3 {
            assert(s[lo] != s[hi - 1]);
            lemma_increasing_finishes(s, lo + 1, hi - 1, d + 1, r1.1, r1.2);
            let r2 = det_sort(s, lo + 1, hi - 1, d + 1, r1.1, r1.2);
            if r2.3 {
                assert(det_sort(r2.0, hi, hi, d + 1, r2.1, r2.2).3);
            }
        }
    }
}

/// The deterministic quicksort gives up on a strictly increasing array
/// exactly when it has at least `2 * MAX_DEPTH_LIMIT - 1` elements: each
/// level of recursion only sets the two end elements aside.
pub proof fn lemma_increasing_input_gives_up(s: Seq<usize>, c: int, md: int)
    requires
        increasing_range(s, 0, s.len() as int),
    ensures
        det_sort(s, 0, s.len() as int, 1, c, md).3 == (s.len() + 1 < 2 * MAX_DEPTH_LIMIT),
{
    lemma_increasing_finishes(s, 0, s.len() as int, 1, c, md);
}

impl QuickSort {
    /// A fresh run with all counters at zero.
    pub fn new(is_random: bool) -> (qs: Self)
        ensures
            qs.comparisons == 0,
            qs.max_depth == 0,
            qs.is_random == is_random,
            !qs.aborted,
    {
        QuickSort { comparisons: 0, max_depth: 0, is_random, aborted: false }
    }

    /// Sorts `arr` with random pivots.
    pub fn sort_random(arr: &mut [usize])
        requires
            old(arr)@.len() * old(arr)@.len() <= usize::MAX,
        ensures
            final(arr)@.to_multiset() == old(arr)@.to_multiset(),
            is_sorted(final(arr)@),
    {
        let mut qs = Self::new(true);
        qs.sort(arr);
    }

    /// Sorts `arr`; the deterministic variant gives up (and sets `aborted`)
    /// when the recursion gets `MAX_DEPTH_LIMIT` deep, which never happens
    /// to an array of fewer than `2 * MAX_DEPTH_LIMIT - 1` elements: every
    /// level of recursion sets two pivots aside. For the deterministic
    /// variant the arrangement, comparisons, maximal depth and abort are
    /// exactly those of `det_sort`.
    pub fn sort(&mut self, arr: &mut [usize])
        requires
            old(self).comparisons + old(arr)@.len() * old(arr)@.len() <= usize::MAX,
        ensures
            final(arr)@.to_multiset() == old(arr)@.to_multiset(),
            !final(self).aborted ==> is_sorted(final(arr)@),
            final(self).aborted ==> old(self).aborted || !old(self).is_random,
            old(self).aborted ==> final(self).aborted,
            final(self).is_random == old(self).is_random,
            old(self).comparisons <= final(self).comparisons,
            final(self).comparisons <= old(self).comparisons + old(arr)@.len() * old(arr)@.len(),
            final(self).max_depth >= old(self).max_depth,
            final(self).max_depth >= 1,
            old(arr)@.len() + 2 <= 2 * MAX_DEPTH_LIMIT ==> final(self).aborted == old(self).aborted,
            !final(self).aborted ==> final(self).comparisons + 1 >= old(self).comparisons
                + old(arr)@.len(),
            old(arr)@.len() >= 3 ==> final(self).max_depth >= 2,
            !final(self).aborted && no_repeats(old(arr)@, 0, old(arr)@.len() as int) ==> old(
                arr,
            )@.len() < pow3(final(self).max_depth as nat),
            final(self).max_depth <= max_int2(old(self).max_depth as int, 1 + old(arr)@.len() as int),
            !old(self).is_random ==> final(arr)@ == det_sort(
                old(arr)@,
                0,
                old(arr)@.len() as int,
                1,
                old(self).comparisons as int,
                old(self).max_depth as int,
            ).0,
            !old(self).is_random ==> final(self).comparisons == det_sort(
                old(arr)@,
                0,
                old(arr)@.len() as int,
                1,
                old(self).comparisons as int,
                old(self).max_depth as int,
            ).1,
            !old(self).is_random ==> final(self).max_depth == det_sort(
                old(arr)@,
                0,
                old(arr)@.len() as int,
                1,
                old(self).comparisons as int,
                old(self).max_depth as int,
            ).2,
            !old(self).is_random ==> final(self).aborted == (old(self).aborted || !det_sort(
                old(arr)@,
                0,
                old(arr)@.len() as int,
                1,
                old(self).comparisons as int,
                old(self).max_depth as int,
            ).3),
    {
        let n = arr.len();
        proof {
            if n >= 2 {
                lemma_small_square(n as int);
            }
        }
        let _ = self.sort_rec(arr, 0, n, 1);
        proof {
            lemma_permutes_whole(old(arr)@, arr@);
        }
    }

    /// With random pivots, first moves two elements of `arr[lo..hi]` drawn
    /// at random to its two ends; then partitions around the two ends.
    fn pick_and_partition(&mut self, arr: &mut [usize], lo: usize, hi: usize) -> (res: (usize, usize))
        requires
            lo + 3 <= hi <= old(arr)@.len(),
            old(self).comparisons + 2 * (hi - lo) <= usize::MAX,
        ensures
            final(self).is_random == old(self).is_random,
            final(self).aborted == old(self).aborted,
            final(self).max_depth == old(self).max_depth,
            lo <= res.0 < res.1 < hi,
            permutes_range(old(arr)@, final(arr)@, lo as int, hi as int),
            final(arr)@[res.0 as int] <= final(arr)@[res.1 as int],
            forall|i: int| lo <= i < res.0 ==> #[trigger] final(arr)@[i] < final(arr)@[res.0 as int],
            forall|i: int|
                res.0 < i < res.1 ==> final(arr)@[res.0 as int] <= #[trigger] final(arr)@[i]
                    && final(arr)@[i] <= final(arr)@[res.1 as int],
            forall|i: int| res.1 < i < hi ==> #[trigger] final(arr)@[i] > final(arr)@[res.1 as int],
            final(self).comparisons == old(self).comparisons + 2 * (hi - lo) - 3 - (res.0 - lo),
            !old(self).is_random ==> final(arr)@ == partitioned(old(arr)@, lo as int, hi as int).0
                && res.0 == partitioned(old(arr)@, lo as int, hi as int).1 && res.1 == partitioned(
                old(arr)@,
                lo as int,
                hi as int,
            ).2,
    {
        let n = hi - lo;
        let ghost a0 = arr@;
        if self.is_random {
            let i = (random_u32() as usize) % n;
            let offset = 1 + (random_u32() as usize) % (n - 1);
            let j = (i + offset) % n;
            proof {
                lemma_swap_permutes(arr@, lo as int, hi as int, lo as int, lo + i);
            }
            swap(arr, lo, lo + i);
            let actual_j = if j == 0 {
                i
            } else {
                j
            };
            let ghost a1 = arr@;
            proof {
                lemma_swap_permutes(arr@, lo as int, hi as int, hi - 1, lo + actual_j);
            }
            swap(arr, hi - 1, lo + actual_j);
            proof {
                lemma_permutes_trans(a0, a1, arr@, lo as int, hi as int);
            }
        }
        let ghost a1 = arr@;
        let (p1_idx, p2_idx) = partition_dual(arr, lo, hi, &mut self.comparisons);
        proof {
            lemma_permutes_trans(a0, a1, arr@, lo as int, hi as int);
        }
        (p1_idx, p2_idx)
    }

    /// Sorts `arr[lo..hi]` at recursion depth `depth`; false when the
    /// deterministic variant gave up somewhere below.
    #[verifier::spinoff_prover]
    #[verifier::rlimit(100)]
    fn sort_rec(&mut self, arr: &mut [usize], lo: usize, hi: usize, depth: usize) -> (ok: bool)
        requires
            lo <= hi <= old(arr)@.len(),
            old(self).comparisons + (hi - lo) * (hi - lo) <= usize::MAX,
            depth + (hi - lo) < usize::MAX,
        ensures
            permutes_range(old(arr)@, final(arr)@, lo as int, hi as int),
            ok ==> sorted_range(final(arr)@, lo as int, hi as int),
            old(self).is_random ==> ok,
            !old(self).is_random && depth >= MAX_DEPTH_LIMIT ==> !ok,
            depth < MAX_DEPTH_LIMIT && 2 * depth + (hi - lo) <= 2 * MAX_DEPTH_LIMIT ==> ok,
            final(self).is_random == old(self).is_random,
            final(self).aborted == (old(self).aborted || !ok),
            old(self).comparisons <= final(self).comparisons,
            final(self).comparisons <= old(self).comparisons + (hi - lo) * (hi - lo),
            final(self).max_depth >= old(self).max_depth,
            final(self).max_depth >= depth,
            ok ==> final(self).comparisons + 1 >= old(self).comparisons + (hi - lo),
            hi - lo >= 3 && (old(self).is_random || depth < MAX_DEPTH_LIMIT) ==> final(self).max_depth >= depth + 1,
            ok && no_repeats(old(arr)@, lo as int, hi as int) ==> hi - lo < pow3(
                (final(self).max_depth - depth + 1) as nat,
            ),
            final(self).max_depth <= max_int2(old(self).max_depth as int, depth + (hi - lo)),
            !old(self).is_random ==> final(arr)@ == det_sort(
                old(arr)@,
                lo as int,
                hi as int,
                depth as int,
                old(self).comparisons as int,
                old(self).max_depth as int,
            ).0,
            !old(self).is_random ==> final(self).comparisons == det_sort(
                old(arr)@,
                lo as int,
                hi as int,
                depth as int,
                old(self).comparisons as int,
                old(self).max_depth as int,
            ).1,
            !old(self).is_random ==> final(self).max_depth == det_sort(
                old(arr)@,
                lo as int,
                hi as int,
                depth as int,
                old(self).comparisons as int,
                old(self).max_depth as int,
            ).2,
            !old(self).is_random ==> ok == det_sort(
                old(arr)@,
                lo as int,
                hi as int,
                depth as int,
                old(self).comparisons as int,
                old(self).max_depth as int,
            ).3,
        decreases hi - lo,
    {
        let ghost expected = det_sort(
            arr@,
            lo as int,
            hi as int,
            depth as int,
            self.comparisons as int,
            self.max_depth as int,
        );
        if self.max_depth < depth {
            self.max_depth = depth;
        }
        if !self.is_random && depth >= MAX_DEPTH_LIMIT {
            self.aborted = true;
            return false;
        }
        let n = hi - lo;
        proof {
            lemma_pow3_mono(1, (self.max_depth - depth + 1) as nat);
        }
        if n <= 1 {
            return true;
        }
        let ghost a0 = arr@;
        let ghost c0 = self.comparisons;
        let ghost nr = no_repeats(a0, lo as int, hi as int);
        proof {
            lemma_small_square(n as int);
        }
        if n == 2 {
            self.comparisons += 1;
            if arr[lo] > arr[lo + 1] {
                proof {
                    lemma_swap_permutes(arr@, lo as int, hi as int, lo as int, lo + 1);
                }
                swap(arr, lo, lo + 1);
            }
            return true;
        }
        let (p1_idx, p2_idx) = self.pick_and_partition(arr, lo, hi);
        let l_pivot = arr[p1_idx];
        let r_pivot = arr[p2_idx];
        proof {
            if nr {
                lemma_no_repeats_perm(a0, arr@, lo as int, hi as int);
                lemma_no_repeats_distinct(arr@, lo as int, hi as int, p1_idx as int, p2_idx as int);
                lemma_no_repeats_sub(arr@, lo as int, hi as int, lo as int, p1_idx as int);
            }
        }
        let pivots_are_equal = l_pivot == r_pivot;
        let ghost b0 = arr@;
        let ghost cp = self.comparisons;
        proof {
            lemma_cost_bound(
                n as int,
                p1_idx - lo,
                p2_idx - p1_idx - 1,
                hi - p2_idx - 1,
            );
            assert(cp <= c0 + 2 * n - 3);
        }

        let ok1 = self.sort_rec(arr, lo, p1_idx, depth + 1);
        let ghost b1 = arr@;
        let ghost d1 = self.max_depth;
        proof {
            if nr {
                lemma_no_repeats_sub(b0, lo as int, hi as int, p1_idx + 1, p2_idx as int);
                lemma_no_repeats_perm(b0, b1, p1_idx + 1, p2_idx as int);
            }
        }
        proof {
            lemma_permutes_forall(b0, b1, lo as int, p1_idx as int, |x: usize| x < l_pivot);
            lemma_permutes_widen(b0, b1, lo as int, hi as int, lo as int, p1_idx as int);
            lemma_permutes_trans(a0, b0, b1, lo as int, hi as int);
        }
        if !ok1 {
            return false;
        }
        assert(forall|i: int| p1_idx <= i < hi ==> arr@[i] == b0[i]);
        assert(forall|i: int|
            p1_idx < i < p2_idx ==> l_pivot <= #[trigger] b0[i] && b0[i] <= r_pivot);
        assert forall|i: int| p1_idx < i < p2_idx implies l_pivot <= #[trigger] arr@[i] && arr@[i]
            <= r_pivot by {
            assert(arr@[i] == b0[i]);
            assert(l_pivot <= b0[i] && b0[i] <= r_pivot);
        }
        let ghost c1 = self.comparisons;
        if !pivots_are_equal {
            let ok2 = self.sort_rec(arr, p1_idx + 1, p2_idx, depth + 1);
            proof {
                lemma_permutes_forall(
                    b1,
                    arr@,
                    p1_idx + 1,
                    p2_idx as int,
                    |x: usize| l_pivot <= x && x <= r_pivot,
                );
                lemma_permutes_widen(b1, arr@, lo as int, hi as int, p1_idx + 1, p2_idx as int);
                lemma_permutes_trans(a0, b1, arr@, lo as int, hi as int);
            }
            if !ok2 {
                return false;
            }
        }
        let ghost b2 = arr@;
        let ghost c2 = self.comparisons;
        let ghost d2 = self.max_depth;
        assert(forall|i: int| p2_idx <= i < hi ==> arr@[i] == b0[i]);
        proof {
            if nr {
                lemma_no_repeats_sub(b0, lo as int, hi as int, p2_idx + 1, hi as int);
                lemma_no_repeats_perm(b0, b2, p2_idx + 1, hi as int);
            }
        }
        assert forall|i: int| p2_idx < i < hi implies #[trigger] arr@[i] > r_pivot by {
            assert(arr@[i] == b0[i]);
            assert(b0[i] > r_pivot);
        }
        let ok3 = self.sort_rec(arr, p2_idx + 1, hi, depth + 1);
        proof {
            lemma_permutes_forall(b2, arr@, p2_idx + 1, hi as int, |x: usize| x > r_pivot);
            lemma_permutes_widen(b2, arr@, lo as int, hi as int, p2_idx + 1, hi as int);
            lemma_permutes_trans(a0, b2, arr@, lo as int, hi as int);
        }
        if !ok3 {
            return false;
        }
        proof {
            if nr {
                let k = (self.max_depth - depth) as nat;
                lemma_pow3_mono((d1 - depth) as nat, k);
                lemma_pow3_mono((d2 - depth) as nat, k);
                assert(((self.max_depth - depth + 1) as nat) == k + 1);
                lemma_three_parts(n as int, p1_idx - lo, p2_idx - p1_idx - 1, hi - p2_idx - 1, k);
            }
        }
        proof {
            assert forall|i: int| lo <= i <= p2_idx implies arr@[i] == b2[i] by {}
            assert forall|i: int| lo <= i <= p1_idx implies b2[i] == b1[i] by {}
            assert forall|i: int| lo <= i < p1_idx implies #[trigger] arr@[i] < l_pivot by {
                assert(arr@[i] == b1[i]);
            }
            assert forall|i: int| p1_idx < i < p2_idx implies l_pivot <= #[trigger] arr@[i]
                && arr@[i] <= r_pivot by {
                assert(arr@[i] == b2[i]);
            }
            lemma_sorted_transfer(b1, arr@, lo as int, p1_idx as int);
            if !pivots_are_equal {
                lemma_sorted_transfer(b2, arr@, p1_idx + 1, p2_idx as int);
            }
            if pivots_are_equal {
                assert(sorted_range(arr@, p1_idx + 1, p2_idx as int));
            }
            lemma_sorted_parts(
                arr@,
                lo as int,
                p1_idx as int,
                p2_idx as int,
                hi as int,
                l_pivot,
                r_pivot,
            );
        }
        true
    }
}

} // verus!
