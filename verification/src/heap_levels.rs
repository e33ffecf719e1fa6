//! A min-heap whose left subtrees outweigh the right ones, obtained by
//! reversing every level of a sorted array, with the checks that go with it:
//! the heap property, subtree sums, and a replay by sift-up insertion.
use vstd::prelude::*;
use vstd::arithmetic::power2::{pow2, lemma_pow2_pos, lemma_pow2_unfold, lemma_pow2_strictly_increases, lemma2_to64};
use crate::heap::{insert_min_heap, is_heap, parent_of, rising, sift_up};
use crate::scan_sort::sorted_i32;
use crate::run_aware::reverse_range;

verus! {

broadcast use vstd::seq_lib::group_to_multiset_ensures, vstd::multiset::group_multiset_axioms;

/// First position of level `l` of an array-stored binary tree.
pub open spec fn level_start(l: nat) -> int {
    pow2(l) - 1
}

/// One past the last position of level `l` in an array of length `n`.
pub open spec fn level_end(l: nat, n: int) -> int {
    if pow2(l + 1) - 1 < n {
        pow2(l + 1) - 1
    } else {
        n
    }
}

/// `r` is `s` with the positions of every level of the tree in reverse
/// order.
pub open spec fn levels_reversed(s: Seq<i32>, r: Seq<i32>) -> bool {
    &&& r.len() == s.len()
    &&& forall|l: nat, i: int|
        #![trigger r[i], level_start(l)]
        level_start(l) <= i < level_end(l, s.len() as int) ==> r[i] == s[level_start(l)
            + level_end(l, s.len() as int) - 1 - i]
}

/// Reverses each level of the tree stored in `arr`, keeping the root.
pub fn reverse_all_tree_levels(arr: &[i32]) -> (res: Vec<i32>)
    requires
        2 * arr@.len() + 1 <= usize::MAX,
    ensures
        levels_reversed(arr@, res@),
{
    let ghost s = arr@;
    let mut new_arr = vstd::slice::slice_to_vec(arr);
    let len = new_arr.len();
    let mut start: usize = 1;
    let ghost mut level: nat = 1;
    proof {
        lemma2_to64();
    }
    while start < len
        invariant
            len == s.len(),
            2 * len + 1 <= usize::MAX,
            new_arr@.len() == len,
            level >= 1,
            start == level_start(level),
            start <= 2 * len + 1,
            forall|l: nat, i: int|
                #![trigger new_arr@[i], level_start(l)]
                l < level && level_start(l) <= i < level_end(l, len as int) ==> new_arr@[i]
                    == s[level_start(l) + level_end(l, len as int) - 1 - i],
            forall|i: int| start <= i < len ==> #[trigger] new_arr@[i] == s[i],
        decreases 2 * len + 1 - start,
    {
        let end = if 2 * start + 1 < len {
            2 * start + 1
        } else {
            len
        };
        proof {
            lemma_pow2_unfold(level + 1);
            assert(end == level_end(level, len as int));
        }
        let ghost before = new_arr@;
        reverse_range(new_arr.as_mut_slice(), start, end);
        proof {
            assert forall|l: nat, i: int|
                #![trigger new_arr@[i], level_start(l)]
                l < level + 1 && level_start(l) <= i < level_end(l, len as int) implies new_arr@[i]
                == s[level_start(l) + level_end(l, len as int) - 1 - i] by {
                lemma_pow2_pos(l);
                if l < level {
                    lemma_level_end_below(l, level, len as int);
                    assert(0 <= i < start);
                    assert(new_arr@[i] == before[i]);
                } else {
                    assert(l == level);
                    assert(new_arr@[i] == before[start + end - 1 - i]);
                }
            }
        }
        start = 2 * start + 1;
        proof {
            level = level + 1;
        }
    }
    proof {
        assert forall|l: nat, i: int|
            #![trigger new_arr@[i], level_start(l)]
            level_start(l) <= i < level_end(l, len as int) implies new_arr@[i] == s[level_start(l)
            + level_end(l, len as int) - 1 - i] by {
            if l >= level {
                if l > level {
                    lemma_pow2_strictly_increases(level, l);
                }
            }
        }
    }
    new_arr
}

/// Reversing every level twice gives the array back.
pub proof fn lemma_level_reversal_involution(s: Seq<i32>, r: Seq<i32>, t: Seq<i32>)
    requires
        levels_reversed(s, r),
        levels_reversed(r, t),
    ensures
        t == s,
{
    let n = s.len() as int;
    assert forall|i: int| 0 <= i < s.len() implies t[i] == s[i] by {
        let l = level_of(i as nat);
        lemma_level_of_bounds(i as nat);
        let ls = level_start(l);
        let le = level_end(l, n);
        assert(ls <= i < le);
        let j = ls + le - 1 - i;
        assert(t[i] == r[j]);
        assert(r[j] == s[ls + le - 1 - j]);
    }
    assert(t =~= s);
}

/// The end of an earlier level is at most the start of a later one.
proof fn lemma_level_end_below(l: nat, k: nat, n: int)
    requires
        l < k,
    ensures
        level_end(l, n) <= level_start(k),
{
    if l + 1 < k {
        lemma_pow2_strictly_increases(l + 1, k);
    }
}

/// The level of position `i` in an array-stored binary tree (the root is on
/// level 0).
pub open spec fn level_of(i: nat) -> nat
    decreases i,
{
    if i == 0 {
        0
    } else {
        1 + level_of(((i - 1) / 2) as nat)
    }
}

/// Position `i` lies between the first and the last position of its level.
proof fn lemma_level_of_bounds(i: nat)
    ensures
        level_start(level_of(i)) <= i < level_start(level_of(i) + 1),
    decreases i,
{
    lemma_pow2_unfold(level_of(i) + 1);
    if i == 0 {
        lemma2_to64();
    } else {
        let j = ((i - 1) / 2) as nat;
        lemma_level_of_bounds(j);
        lemma_pow2_unfold(level_of(j) + 1);
        lemma_pow2_unfold(level_of(j) + 2);
    }
}

/// Reversing every level of a sorted array gives a min-heap: each level
/// holds a block of larger keys than the level above it.
pub proof fn lemma_reversed_sorted_levels_form_heap(s: Seq<i32>, r: Seq<i32>)
    requires
        levels_reversed(s, r),
        sorted_i32(s),
    ensures
        is_heap(r, r.len() as int),
{
    let n = r.len() as int;
    assert forall|c: int| 0 < c < n && parent_of(c) >= 0 implies r[parent_of(c)] <= #[trigger] r[c] by {
        let p = parent_of(c);
        let l = level_of(c as nat);
        lemma_level_of_bounds(c as nat);
        lemma_level_of_bounds(p as nat);
        assert(level_of(c as nat) == 1 + level_of(p as nat));
        let lp = level_of(p as nat);
        assert(l == lp + 1);
        lemma_pow2_pos(l);
        let ic = level_start(l) + level_end(l, n) - 1 - c;
        let ip = level_start(lp) + level_end(lp, n) - 1 - p;
        assert(r[c] == s[ic]);
        assert(r[p] == s[ip]);
        assert(level_end(lp, n) == level_start(l));
        lemma_pow2_pos(lp);
        assert(level_start(lp) <= p < level_end(lp, n));
        assert(level_start(l) <= c < level_end(l, n));
        assert(0 <= ip);
        assert(ip < level_start(l));
        assert(level_start(l) <= ic);
        assert(ic < n);
    }
}

/// Whether no element of the array is larger than one of its children.
pub fn verify_min_heap(arr: &[i32]) -> (ok: bool)
    requires
        2 * arr@.len() + 2 <= usize::MAX,
    ensures
        ok == is_heap(arr@, arr@.len() as int),
{
    let n = arr.len();
    let mut i: usize = 0;
    while i < n
        invariant
            n == arr@.len(),
            2 * n + 2 <= usize::MAX,
            i <= n,
            forall|c: int| 0 < c < n && parent_of(c) < i ==> arr@[parent_of(c)] <= #[trigger] arr@[c],
        decreases n - i,
    {
        let left = 2 * i + 1;
        let right = 2 * i + 2;
        if left < n && arr[i] > arr[left] {
            proof {
                assert(parent_of(left as int) == i);
            }
            return false;
        }
        if right < n && arr[i] > arr[right] {
            proof {
                assert(parent_of(right as int) == i);
            }
            return false;
        }
        proof {
            assert forall|c: int| 0 < c < n && parent_of(c) < i + 1 implies arr@[parent_of(c)]
                <= #[trigger] arr@[c] by {
                if parent_of(c) == i {
                    assert(c == left || c == right);
                }
            }
        }
        i += 1;
    }
    true
}

/// Sum of the subtree rooted at position `idx` of an array-stored tree.
pub open spec fn subtree_sum(s: Seq<i32>, idx: int) -> int
    decreases if 0 <= idx < s.len() { s.len() - idx } else { 0 },
{
    if idx < 0 || idx >= s.len() {
        0
    } else {
        s[idx] + subtree_sum(s, 2 * idx + 1) + subtree_sum(s, 2 * idx + 2)
    }
}

/// Every partial sum formed while summing the subtree at `idx` fits in an
/// `i32`.
pub open spec fn subtree_sums_fit(s: Seq<i32>, idx: int) -> bool
    decreases if 0 <= idx < s.len() { s.len() - idx } else { 0 },
{
    if idx < 0 || idx >= s.len() {
        true
    } else {
        &&& subtree_sums_fit(s, 2 * idx + 1)
        &&& subtree_sums_fit(s, 2 * idx + 2)
        &&& i32::MIN <= s[idx] + subtree_sum(s, 2 * idx + 1) <= i32::MAX
        &&& i32::MIN <= subtree_sum(s, idx) <= i32::MAX
    }
}

/// Sum of the subtree rooted at position `idx`.
pub fn get_subtree_sum(arr: &[i32], idx: usize) -> (sum: i32)
    requires
        2 * arr@.len() + 2 <= usize::MAX,
        subtree_sums_fit(arr@, idx as int),
    ensures
        sum == subtree_sum(arr@, idx as int),
    decreases if idx < arr@.len() { arr@.len() - idx } else { 0 },
{
    if idx >= arr.len() {
        return 0;
    }
    let left = get_subtree_sum(arr, 2 * idx + 1);
    let right = get_subtree_sum(arr, 2 * idx + 2);
    arr[idx] + left + right
}

/// The sums of both subtrees below position `i` can be formed in `i32`.
pub open spec fn children_fit(s: Seq<i32>, i: int) -> bool {
    subtree_sums_fit(s, 2 * i + 1) && subtree_sums_fit(s, 2 * i + 2)
}

/// Number of positions with two children in a tree of `n` positions.
pub open spec fn full_parents(n: int) -> int {
    if n >= 3 {
        (n - 1) / 2
    } else {
        0
    }
}

/// For each position with two children, in order: the position, the sum of
/// its left subtree and the sum of its right subtree.
pub fn left_heavy_rows(arr: &[i32]) -> (rows: Vec<(usize, i32, i32)>)
    requires
        2 * arr@.len() + 2 <= usize::MAX,
        forall|i: int| 0 <= i && 2 * i + 2 < arr@.len() ==> #[trigger] children_fit(arr@, i),
    ensures
        rows@.len() == full_parents(arr@.len() as int),
        forall|k: int|
            0 <= k < rows@.len() ==> #[trigger] rows@[k] == (
                k as usize,
                subtree_sum(arr@, 2 * k + 1) as i32,
                subtree_sum(arr@, 2 * k + 2) as i32,
            ),
{
    let n = arr.len();
    let mut rows: Vec<(usize, i32, i32)> = Vec::new();
    let mut i: usize = 0;
    while i < n
        invariant
            n == arr@.len(),
            2 * n + 2 <= usize::MAX,
            i <= n,
            forall|j: int| 0 <= j && 2 * j + 2 < arr@.len() ==> #[trigger] children_fit(arr@, j),
            rows@.len() == if i <= full_parents(n as int) {
                i as int
            } else {
                full_parents(n as int)
            },
            forall|k: int|
                0 <= k < rows@.len() ==> #[trigger] rows@[k] == (
                    k as usize,
                    subtree_sum(arr@, 2 * k + 1) as i32,
                    subtree_sum(arr@, 2 * k + 2) as i32,
                ),
        decreases n - i,
    {
        let left = 2 * i + 1;
        let right = 2 * i + 2;
        if left < n && right < n {
            assert(children_fit(arr@, i as int));
            let left_sum = get_subtree_sum(arr, left);
            let right_sum = get_subtree_sum(arr, right);
            rows.push((i, left_sum, right_sum));
        }
        i += 1;
    }
    rows
}

/// The heap obtained by inserting the first `i` keys one after another into
/// an empty heap with sift-up.
pub open spec fn replay_heap(a: Seq<i32>, i: int) -> Seq<i32>
    decreases i,
{
    if i <= 0 {
        Seq::empty()
    } else {
        let h = replay_heap(a, i - 1);
        sift_up(h.push(a[i - 1]), h.len() as int, a[i - 1])
    }
}

/// Exchanges made while inserting the first `i` keys.
pub open spec fn replay_swaps(a: Seq<i32>, i: int) -> nat
    decreases i,
{
    if i <= 0 {
        0
    } else {
        let h = replay_heap(a, i - 1);
        replay_swaps(a, i - 1) + rising(h.push(a[i - 1]), h.len() as int, a[i - 1])
    }
}

/// Replays the array as a sequence of sift-up insertions into an empty
/// heap. Returns the number of elements inserted and the total number of
/// exchanges; an insertion into a heap of `k` elements makes at most
/// `log2(k + 1)` of them, so fewer than 64.
pub fn simulate_insertion(arr: &[i32]) -> (res: (usize, usize))
    requires
        63 * arr@.len() <= usize::MAX,
    ensures
        res.0 == arr@.len(),
        res.1 == replay_swaps(arr@, arr@.len() as int),
        res.1 <= 63 * arr@.len(),
        2 * res.1 <= arr@.len() * arr@.len(),
{
    let mut online_heap: Vec<i32> = Vec::new();
    let mut total_swaps: usize = 0;
    let n = arr.len();
    let mut i: usize = 0;
    proof {
        lemma2_to64();
    }
    while i < n
        invariant
            n == arr@.len(),
            63 * n <= usize::MAX,
            i <= n,
            online_heap@.len() == i,
            online_heap@ == replay_heap(arr@, i as int),
            total_swaps == replay_swaps(arr@, i as int),
            total_swaps <= 63 * i,
            2 * total_swaps <= i * i,
            pow2(64) == 0x1_0000_0000_0000_0000,
        decreases n - i,
    {
        let (_comps, swaps) = insert_min_heap(&mut online_heap, arr[i]);
        proof {
            assert(2 * (total_swaps + swaps) <= (i + 1) * (i + 1)) by (nonlinear_arith)
                requires
                    2 * total_swaps <= i * i,
                    swaps <= i,
            ;
            if swaps >= 64 {
                if swaps > 64 {
                    lemma_pow2_strictly_increases(64, swaps as nat);
                }
                assert(online_heap@.len() <= usize::MAX);
            }
        }
        total_swaps += swaps;
        i += 1;
    }
    (online_heap.len(), total_swaps)
}

} // verus!
