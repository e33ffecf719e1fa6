//! Binary min-heaps stored in arrays: sift-down (Floyd's bottom-up
//! construction), sift-up insertion, and the heap check.
use vstd::prelude::*;
use vstd::arithmetic::power2::{
    pow2, lemma_pow2_pos, lemma_pow2_strictly_increases, lemma_pow2_unfold, lemma2_to64,
};
use crate::perm::{
    lemma_permutes_trans, lemma_permutes_widen, lemma_swap_permutes, permutes_range, swap, swapped,
};

verus! {

broadcast use vstd::seq_lib::group_to_multiset_ensures, vstd::multiset::group_multiset_axioms;

/// Index of the parent of position `c` (for `c > 0`).
pub open spec fn parent_of(c: int) -> int {
    (c - 1) / 2
}

/// Among the first `n` positions, every child whose parent is at `k` or
/// later is at least as large as its parent.
pub open spec fn heap_from(s: Seq<i32>, n: int, k: int) -> bool {
    forall|c: int| 0 < c < n && parent_of(c) >= k ==> s[parent_of(c)] <= #[trigger] s[c]
}

/// Position `c` lies in the subtree rooted at `r`: it is `r` or one of its
/// descendants.
pub open spec fn in_subtree(c: int, r: int) -> bool
    decreases c,
{
    if c <= r || c <= 0 {
        c == r
    } else {
        in_subtree(parent_of(c), r)
    }
}

/// Among the first `n` positions, every child whose parent lies in the
/// subtree rooted at `r` is at least as large as its parent.
pub open spec fn subtree_heap(s: Seq<i32>, n: int, r: int) -> bool {
    forall|c: int| 0 < c < n && in_subtree(parent_of(c), r) ==> s[parent_of(c)] <= #[trigger] s[c]
}

/// The subtrees rooted at the two children of `r` (among the first `n`
/// positions) are min-heaps.
pub open spec fn child_subtrees_heap(s: Seq<i32>, n: int, r: int) -> bool {
    forall|c: int|
        0 < c < n && in_subtree(parent_of(c), r) && parent_of(c) != r ==> s[parent_of(c)]
            <= #[trigger] s[c]
}

/// The first `n` positions form a min-heap.
pub open spec fn is_heap(s: Seq<i32>, n: int) -> bool {
    heap_from(s, n, 0)
}

/// Number of ancestors of position `c` (its depth; the root has none).
pub open spec fn depth_of(c: int) -> nat
    decreases c,
{
    if c > 0 {
        1 + depth_of(parent_of(c))
    } else {
        0
    }
}

/// Number of consecutive ancestors of position `c`, from its parent up,
/// holding a key larger than `v`.
pub open spec fn rising(s: Seq<i32>, c: int, v: i32) -> nat
    decreases c,
{
    if c > 0 && s[parent_of(c)] > v {
        1 + rising(s, parent_of(c), v)
    } else {
        0
    }
}

/// Places `v` at position `c` after moving down, one level each, the
/// consecutive ancestors of `c` that hold keys larger than `v`.
pub open spec fn sift_up(s: Seq<i32>, c: int, v: i32) -> Seq<i32>
    decreases c,
{
    if c > 0 && s[parent_of(c)] > v {
        sift_up(s.update(c, s[parent_of(c)]), parent_of(c), v)
    } else {
        s.update(c, v)
    }
}

/// What position `c` held beforehand does not matter to `sift_up`.
proof fn lemma_sift_up_ignores(s: Seq<i32>, c: int, x: i32, v: i32)
    requires
        0 <= c < s.len(),
    ensures
        sift_up(s.update(c, x), c, v) == sift_up(s, c, v),
{
    if c > 0 {
        let p = parent_of(c);
        assert(s.update(c, x)[p] == s[p]);
        assert(s.update(c, x).update(c, s[p]) =~= s.update(c, s[p]));
    }
    assert(s.update(c, x).update(c, v) =~= s.update(c, v));
}

/// `rising` reads only the ancestors of `c`.
proof fn lemma_rising_agree(s1: Seq<i32>, s2: Seq<i32>, c: int, v: i32)
    requires
        forall|p: int| 0 <= p < c ==> s1[p] == s2[p],
    ensures
        rising(s1, c, v) == rising(s2, c, v),
    decreases c,
{
    if c > 0 {
        lemma_rising_agree(s1, s2, parent_of(c), v);
    }
}

/// The child of `i` that sift-down looks at: the right one when it lies
/// among the first `n` positions and holds a smaller key, else the left.
pub open spec fn smaller_child(s: Seq<i32>, i: int, n: int) -> int {
    if 2 * i + 2 < n && s[2 * i + 2] < s[2 * i + 1] {
        2 * i + 2
    } else {
        2 * i + 1
    }
}

/// Sift-down of position `i` among the first `n` positions moves on:
/// `i` has a child there, and that child's key is smaller.
pub open spec fn sinks(s: Seq<i32>, i: int, n: int) -> bool {
    0 <= i && 2 * i + 1 < n && s[smaller_child(s, i, n)] < s[i]
}

/// The arrangement after sifting position `i` down among the first `n`
/// positions: exchange with the smaller child while that child is smaller.
#[verifier::opaque]
pub open spec fn sift_down_result(s: Seq<i32>, i: int, n: int) -> Seq<i32>
    decreases n - i,
{
    if sinks(s, i, n) {
        sift_down_result(swapped(s, i, smaller_child(s, i, n)), smaller_child(s, i, n), n)
    } else {
        s
    }
}

/// Exchanges made by that sift-down.
#[verifier::opaque]
pub open spec fn sift_down_swaps(s: Seq<i32>, i: int, n: int) -> nat
    decreases n - i,
{
    if sinks(s, i, n) {
        1 + sift_down_swaps(swapped(s, i, smaller_child(s, i, n)), smaller_child(s, i, n), n)
    } else {
        0
    }
}

/// Key comparisons made by that sift-down: at each position with a child,
/// one between the two children when there are two, and one with the
/// smaller child.
#[verifier::opaque]
pub open spec fn sift_down_comps(s: Seq<i32>, i: int, n: int) -> nat
    decreases n - i,
{
    if 0 <= i && 2 * i + 1 < n {
        (if 2 * i + 2 < n {
            2nat
        } else {
            1nat
        }) + if sinks(s, i, n) {
            sift_down_comps(swapped(s, i, smaller_child(s, i, n)), smaller_child(s, i, n), n)
        } else {
            0
        }
    } else {
        0
    }
}

/// Every position in the subtree rooted at `r` is at least `r`.
proof fn lemma_subtree_index_ge(c: int, r: int)
    requires
        in_subtree(c, r),
    ensures
        c >= r,
    decreases c,
{
    if !(c <= r || c <= 0) {
        lemma_subtree_index_ge(parent_of(c), r);
    }
}

/// Moves the element at `idx` down among the first `n` positions, each time
/// exchanging it with its smaller child while that child is smaller.
/// Returns the number of key comparisons and of exchanges (none when `idx`
/// has no child below `n`). Only the subtree rooted at `idx` changes, and
/// when the subtrees of its two children are min-heaps, so is that subtree
/// afterwards.
#[verifier::spinoff_prover]
#[verifier::rlimit(100)]
pub fn sift_down(arr: &mut [i32], idx: usize, n: usize) -> (res: (usize, usize))
    requires
        n <= old(arr)@.len(),
        2 * n + 2 <= usize::MAX,
        2 * idx + 2 <= usize::MAX,
    ensures
        idx < n ==> permutes_range(old(arr)@, final(arr)@, idx as int, n as int),
        idx >= n ==> final(arr)@ == old(arr)@ && res == (0usize, 0usize),
        forall|j: int|
            0 <= j < old(arr)@.len() && !in_subtree(j, idx as int) ==> #[trigger] final(arr)@[j]
                == old(arr)@[j],
        child_subtrees_heap(old(arr)@, n as int, idx as int) ==> subtree_heap(
            final(arr)@,
            n as int,
            idx as int,
        ),
        heap_from(old(arr)@, n as int, idx + 1) ==> heap_from(final(arr)@, n as int, idx as int),
        res.1 <= res.0,
        res.0 <= 2 * res.1 + 2,
        res.0 <= 2 * n,
        idx < n ==> pow2(res.1 as nat) <= n,
        final(arr)@ == sift_down_result(old(arr)@, idx as int, n as int),
        res.0 == sift_down_comps(old(arr)@, idx as int, n as int),
        res.1 == sift_down_swaps(old(arr)@, idx as int, n as int),
{
    let ghost a0 = arr@;
    let ghost i0 = idx;
    let mut idx = idx;
    let mut comparisons: usize = 0;
    let mut swaps: usize = 0;
    let ghost ok = heap_from(a0, n as int, i0 + 1);
    let ghost ok2 = child_subtrees_heap(a0, n as int, i0 as int);
    if idx >= n {
        proof {
            reveal(sift_down_result);
            reveal(sift_down_swaps);
            reveal(sift_down_comps);
            assert(!sinks(a0, i0 as int, n as int));
            assert forall|c: int| 0 < c < n && in_subtree(parent_of(c), i0 as int) implies arr@[parent_of(c)] <= #[trigger] arr@[c] by {
                lemma_subtree_index_ge(parent_of(c), i0 as int);
            }
            assert forall|c: int| 0 < c < n && parent_of(c) >= i0 + 1 implies arr@[parent_of(c)] <= #[trigger] arr@[c] by {}
        }
        return (0, 0);
    }
    proof {
        lemma2_to64();
        assert(permutes_range(a0, arr@, i0 as int, n as int)) by {
            assert(a0.subrange(i0 as int, n as int) =~= arr@.subrange(i0 as int, n as int));
        }
    }
    loop
        invariant_except_break
            comparisons <= 2 * swaps,
            comparisons + sift_down_comps(arr@, idx as int, n as int) == sift_down_comps(
                a0,
                i0 as int,
                n as int,
            ),
        invariant
            i0 <= idx < n,
            n <= arr@.len(),
            2 * n + 2 <= usize::MAX,
            pow2(swaps as nat) <= idx + 1,
            permutes_range(a0, arr@, i0 as int, n as int),
            swaps <= comparisons,
            comparisons <= 2 * swaps + 2,
            comparisons <= 2 * n,
            ok == heap_from(a0, n as int, i0 + 1),
            ok ==> forall|c: int|
                0 < c < n && parent_of(c) >= i0 && parent_of(c) != idx ==> arr@[parent_of(c)] <= #[trigger] arr@[c],
            ok && idx > i0 ==> forall|c: int|
                0 < c < n && parent_of(c) == idx ==> arr@[parent_of(idx as int)] <= #[trigger] arr@[c],
            idx > i0 ==> parent_of(idx as int) >= i0,
            in_subtree(idx as int, i0 as int),
            forall|j: int| 0 <= j < arr@.len() && !in_subtree(j, i0 as int) ==> #[trigger] arr@[j] == a0[j],
            arr@.len() == a0.len(),
            ok2 == child_subtrees_heap(a0, n as int, i0 as int),
            ok2 ==> forall|c: int|
                0 < c < n && in_subtree(parent_of(c), i0 as int) && parent_of(c) != idx ==> arr@[parent_of(c)] <= #[trigger] arr@[c],
            ok2 && idx > i0 ==> forall|c: int|
                0 < c < n && parent_of(c) == idx ==> arr@[parent_of(idx as int)] <= #[trigger] arr@[c],
            idx > i0 ==> in_subtree(parent_of(idx as int), i0 as int),
            swaps <= idx,
            sift_down_result(arr@, idx as int, n as int) == sift_down_result(a0, i0 as int, n as int),
            swaps + sift_down_swaps(arr@, idx as int, n as int) == sift_down_swaps(a0, i0 as int, n as int),
        ensures
            ok ==> heap_from(arr@, n as int, i0 as int),
            ok2 ==> subtree_heap(arr@, n as int, i0 as int),
            forall|j: int| 0 <= j < arr@.len() && !in_subtree(j, i0 as int) ==> #[trigger] arr@[j] == a0[j],
            arr@.len() == a0.len(),
            permutes_range(a0, arr@, i0 as int, n as int),
            swaps <= comparisons <= 2 * swaps + 2,
            comparisons <= 2 * n,
            pow2(swaps as nat) <= n,
            arr@ == sift_down_result(a0, i0 as int, n as int),
            swaps == sift_down_swaps(a0, i0 as int, n as int),
            comparisons == sift_down_comps(a0, i0 as int, n as int),
        decreases n - idx,
    {
        let left = 2 * idx + 1;
        let right = 2 * idx + 2;

        if left >= n {
            proof {
                assert(!sinks(arr@, idx as int, n as int));
                reveal(sift_down_result);
                reveal(sift_down_swaps);
                reveal(sift_down_comps);
                if ok {
                    assert forall|c: int| 0 < c < n && parent_of(c) >= i0 implies arr@[parent_of(c)]
                        <= #[trigger] arr@[c] by {
                        assert(parent_of(c) != idx);
                    }
                }
                if ok2 {
                    assert forall|c: int| 0 < c < n && in_subtree(parent_of(c), i0 as int) implies arr@[parent_of(c)]
                        <= #[trigger] arr@[c] by {
                        assert(parent_of(c) != idx);
                    }
                }
            }
            break;
        }

        let mut smallest = left;
        if right < n {
            comparisons += 1;
            if arr[right] < arr[left] {
                smallest = right;
            }
        }

        comparisons += 1;
        proof {
            assert(smallest == smaller_child(arr@, idx as int, n as int));
        }
        if arr[smallest] < arr[idx] {
            let ghost a1 = arr@;
            proof {
                lemma_swap_permutes(arr@, i0 as int, n as int, idx as int, smallest as int);
            }
            swap(arr, idx, smallest);
            proof {
                assert(parent_of(smallest as int) == idx);
                assert(in_subtree(smallest as int, i0 as int));
                assert forall|j: int| 0 <= j < arr@.len() && !in_subtree(j, i0 as int) implies #[trigger] arr@[j] == a0[j] by {
                    assert(j != idx && j != smallest);
                    assert(arr@[j] == a1[j]);
                }
                if ok2 {
                    assert forall|c: int|
                        0 < c < n && in_subtree(parent_of(c), i0 as int) && parent_of(c) != smallest implies arr@[parent_of(c)]
                        <= #[trigger] arr@[c] by {
                        if c == smallest {
                        } else if parent_of(c) == idx {
                        } else if c == idx {
                            assert(a1[parent_of(c)] <= a1[left as int]);
                        } else {
                            assert(arr@[c] == a1[c]);
                        }
                    }
                    assert forall|c: int| 0 < c < n && parent_of(c) == smallest implies arr@[parent_of(
                        smallest as int,
                    )] <= #[trigger] arr@[c] by {
                        assert(arr@[c] == a1[c]);
                        assert(in_subtree(parent_of(c), i0 as int));
                        assert(a1[parent_of(c)] <= a1[c]);
                    }
                }
                lemma_permutes_trans(a0, a1, arr@, i0 as int, n as int);
                if ok {
                    assert forall|c: int|
                        0 < c < n && parent_of(c) >= i0 && parent_of(c) != smallest implies arr@[parent_of(c)]
                        <= #[trigger] arr@[c] by {
                        if c == smallest {
                        } else if parent_of(c) == idx {
                        } else if c == idx {
                            assert(a1[parent_of(c)] <= a1[left as int]);
                        } else {
                            assert(arr@[c] == a1[c]);
                        }
                    }
                    assert forall|c: int| 0 < c < n && parent_of(c) == smallest implies arr@[parent_of(
                        smallest as int,
                    )] <= #[trigger] arr@[c] by {
                        assert(arr@[c] == a1[c]);
                        assert(a1[parent_of(c)] <= a1[c]);
                    }
                }
            }
            proof {
                lemma_pow2_unfold((swaps + 1) as nat);
                assert(sinks(a1, idx as int, n as int));
                reveal(sift_down_result);
                reveal(sift_down_swaps);
                reveal(sift_down_comps);
            }
            swaps += 1;
            idx = smallest;
        } else {
            proof {
                if ok {
                    assert forall|c: int| 0 < c < n && parent_of(c) >= i0 implies arr@[parent_of(c)]
                        <= #[trigger] arr@[c] by {
                        if parent_of(c) == idx {
                            assert(c == left || c == right);
                        }
                    }
                }
                if ok2 {
                    assert forall|c: int| 0 < c < n && in_subtree(parent_of(c), i0 as int) implies arr@[parent_of(c)]
                        <= #[trigger] arr@[c] by {
                        if parent_of(c) == idx {
                            assert(c == left || c == right);
                        }
                    }
                }
                assert(!sinks(arr@, idx as int, n as int));
                reveal(sift_down_result);
                reveal(sift_down_swaps);
                reveal(sift_down_comps);
            }
            break;
        }
    }
    (comparisons, swaps)
}

/// The arrangement after Floyd's construction has sifted down the positions
/// from `n / 2 - 1` back to `i`.
#[verifier::opaque]
pub open spec fn floyd(s: Seq<i32>, n: int, i: int) -> Seq<i32>
    decreases n / 2 - i,
{
    if 0 <= i < n / 2 {
        sift_down_result(floyd(s, n, i + 1), i, n)
    } else {
        s
    }
}

/// Key comparisons made by those sift-downs.
#[verifier::opaque]
pub open spec fn floyd_comps(s: Seq<i32>, n: int, i: int) -> nat
    decreases n / 2 - i,
{
    if 0 <= i < n / 2 {
        floyd_comps(s, n, i + 1) + sift_down_comps(floyd(s, n, i + 1), i, n)
    } else {
        0
    }
}

/// Exchanges made by those sift-downs.
#[verifier::opaque]
pub open spec fn floyd_swaps(s: Seq<i32>, n: int, i: int) -> nat
    decreases n / 2 - i,
{
    if 0 <= i < n / 2 {
        floyd_swaps(s, n, i + 1) + sift_down_swaps(floyd(s, n, i + 1), i, n)
    } else {
        0
    }
}

/// Floyd's bottom-up construction: sifts down every position that has a
/// child, from the last such position back to the root. Returns the total
/// numbers of key comparisons and of exchanges; each sift-down makes fewer
/// than 64 exchanges.
pub fn build_min_heap(arr: &mut [i32]) -> (res: (usize, usize))
    requires
        64 * old(arr)@.len() + 2 <= usize::MAX,
    ensures
        final(arr)@.to_multiset() == old(arr)@.to_multiset(),
        is_heap(final(arr)@, final(arr)@.len() as int),
        res.1 <= res.0,
        res.0 <= 64 * old(arr)@.len(),
        final(arr)@ == floyd(old(arr)@, old(arr)@.len() as int, 0),
        res.0 == floyd_comps(old(arr)@, old(arr)@.len() as int, 0),
        res.1 == floyd_swaps(old(arr)@, old(arr)@.len() as int, 0),
{
    let n = arr.len();
    let ghost a0 = arr@;
    let mut total_comps: usize = 0;
    let mut total_swaps: usize = 0;
    let mut i: usize = n / 2;
    proof {
        reveal(floyd);
        reveal(floyd_comps);
        reveal(floyd_swaps);
        lemma2_to64();
        assert(permutes_range(a0, arr@, i as int, n as int)) by {
            assert(a0.subrange(i as int, n as int) =~= arr@.subrange(i as int, n as int));
        }
        assert forall|c: int| 0 < c < n && parent_of(c) >= i implies arr@[parent_of(c)]
            <= #[trigger] arr@[c] by {
            assert(false);
        }
    }
    while i > 0
        invariant
            n == arr@.len(),
            64 * n + 2 <= usize::MAX,
            i <= n / 2,
            permutes_range(a0, arr@, i as int, n as int),
            heap_from(arr@, n as int, i as int),
            total_swaps <= total_comps,
            total_comps <= 128 * (n / 2 - i),
            pow2(64) == 0x1_0000_0000_0000_0000,
            arr@ == floyd(a0, n as int, i as int),
            total_comps == floyd_comps(a0, n as int, i as int),
            total_swaps == floyd_swaps(a0, n as int, i as int),
        decreases i,
    {
        i -= 1;
        let ghost a1 = arr@;
        proof {
            assert(heap_from(arr@, n as int, i + 1));
        }
        let (comps, swaps) = sift_down(arr, i, n);
        proof {
            reveal(floyd);
            reveal(floyd_comps);
            reveal(floyd_swaps);
            lemma_permutes_widen(a0, a1, i as int, n as int, i + 1, n as int);
            lemma_permutes_trans(a0, a1, arr@, i as int, n as int);
            if swaps >= 64 {
                if swaps > 64 {
                    lemma_pow2_strictly_increases(64, swaps as nat);
                }
            }
        }
        total_comps += comps;
        total_swaps += swaps;
    }
    proof {
        crate::perm::lemma_permutes_whole(a0, arr@);
    }
    (total_comps, total_swaps)
}

/// Appends `val` and moves it up, exchanging it with its parent while it is
/// smaller. Returns the number of key comparisons and of exchanges.
pub fn insert_min_heap(heap: &mut Vec<i32>, val: i32) -> (res: (usize, usize))
    requires
        old(heap)@.len() < usize::MAX,
    ensures
        final(heap)@.len() == old(heap)@.len() + 1,
        final(heap)@.to_multiset() == old(heap)@.to_multiset().insert(val),
        is_heap(old(heap)@, old(heap)@.len() as int) ==> is_heap(final(heap)@, final(heap)@.len() as int),
        res.1 <= res.0 <= res.1 + 1,
        res.1 <= old(heap)@.len(),
        pow2(res.1 as nat) <= final(heap)@.len(),
        final(heap)@ == sift_up(old(heap)@.push(val), old(heap)@.len() as int, val),
        res.1 == rising(old(heap)@.push(val), old(heap)@.len() as int, val),
        res.0 == res.1 + if res.1 < depth_of(old(heap)@.len() as int) {
            1int
        } else {
            0int
        },
{
    let ghost h0 = heap@;
    let ghost ok = is_heap(h0, h0.len() as int);
    heap.push(val);
    let ghost h1 = heap@;
    let n = heap.len();
    let mut idx = n - 1;
    let mut comps: usize = 0;
    let mut swaps: usize = 0;
    proof {
        assert(h1.to_multiset() == h0.to_multiset().insert(val));
        assert(h1.subrange(0, n as int) =~= heap@.subrange(0, n as int));
        lemma2_to64();
    }
    while idx > 0
        invariant_except_break
            comps == swaps,
            comps + idx < n,
        invariant
            n == heap@.len(),
            n == h0.len() + 1,
            idx < n,
            swaps <= comps <= swaps + 1,
            swaps < n,
            comps <= n,
            pow2(swaps as nat) * (idx + 1) <= n,
            pow2(swaps as nat) <= n,
            permutes_range(h1, heap@, 0, n as int),
            ok == is_heap(h0, h0.len() as int),
            ok ==> forall|c: int| 0 < c < n && c != idx ==> heap@[parent_of(c)] <= #[trigger] heap@[c],
            ok && idx > 0 ==> forall|c: int|
                0 < c < n && parent_of(c) == idx ==> heap@[parent_of(idx as int)] <= #[trigger] heap@[c],
            heap@[idx as int] == val,
            sift_up(heap@, idx as int, val) == sift_up(h1, n - 1, val),
            swaps + rising(heap@, idx as int, val) == rising(h1, n - 1, val),
            swaps + depth_of(idx as int) == depth_of(n - 1),
        ensures
            permutes_range(h1, heap@, 0, n as int),
            ok ==> is_heap(heap@, n as int),
            swaps <= comps <= swaps + 1,
            swaps < n,
            pow2(swaps as nat) <= n,
            heap@ == sift_up(h1, n - 1, val),
            swaps == rising(h1, n - 1, val),
            comps == swaps + if swaps < depth_of(n - 1) {
                1int
            } else {
                0int
            },
        decreases idx,
    {
        let parent = (idx - 1) / 2;
        comps += 1;
        if heap[idx] < heap[parent] {
            let ghost a1 = heap@;
            proof {
                let s = a1.update(idx as int, a1[parent as int]);
                lemma_sift_up_ignores(s, parent as int, a1[parent as int], val);
                assert(s.update(parent as int, val) =~= swapped(a1, idx as int, parent as int));
                assert(s.update(parent as int, a1[parent as int]) =~= s) by {
                    assert(s[parent as int] == a1[parent as int]);
                }
                lemma_sift_up_ignores(s, parent as int, val, val);
                lemma_rising_agree(a1, swapped(a1, idx as int, parent as int), parent as int, val);
            }
            proof {
                lemma_swap_permutes(heap@, 0, n as int, idx as int, parent as int);
            }
            swap(heap.as_mut_slice(), idx, parent);
            proof {
                lemma_permutes_trans(h1, a1, heap@, 0, n as int);
                if ok {
                    assert forall|c: int| 0 < c < n && c != parent implies heap@[parent_of(c)]
                        <= #[trigger] heap@[c] by {
                        if c == idx {
                        } else if parent_of(c) == parent {
                            assert(a1[parent as int] <= a1[c]);
                        } else if parent_of(c) == idx {
                            assert(a1[parent_of(idx as int)] <= a1[c]);
                        } else {
                            assert(heap@[c] == a1[c]);
                        }
                    }
                    if parent > 0 {
                        assert forall|c: int| 0 < c < n && parent_of(c) == parent implies heap@[parent_of(
                            parent as int,
                        )] <= #[trigger] heap@[c] by {
                            assert(a1[parent_of(parent as int)] <= a1[parent as int]);
                            if c != idx {
                                assert(a1[parent as int] <= a1[c]);
                            }
                        }
                    }
                }
            }
            proof {
                lemma_pow2_pos(swaps as nat);
                lemma_pow2_unfold((swaps + 1) as nat);
                assert(pow2((swaps + 1) as nat) * (parent + 1) <= pow2(swaps as nat) * (idx + 1))
                    by (nonlinear_arith)
                    requires
                        pow2((swaps + 1) as nat) == 2 * pow2(swaps as nat),
                        2 * (parent + 1) <= idx + 1,
                        pow2(swaps as nat) > 0,
                ;
                assert(pow2((swaps + 1) as nat) * 1 <= pow2((swaps + 1) as nat) * (parent + 1))
                    by (nonlinear_arith)
                    requires
                        pow2((swaps + 1) as nat) == 2 * pow2(swaps as nat),
                        pow2(swaps as nat) > 0,
                        parent + 1 >= 1,
                ;
            }
            swaps += 1;
            idx = parent;
        } else {
            proof {
                assert(heap@.update(idx as int, val) =~= heap@);
            }
            break;
        }
    }
    proof {
        crate::perm::lemma_permutes_whole(h1, heap@);
    }
    (comps, swaps)
}

/// Whether the array is a min-heap: no element is larger than its children.
pub fn is_min_heap(arr: &[i32]) -> (ok: bool)
    requires
        2 * arr@.len() + 2 <= usize::MAX,
    ensures
        ok == is_heap(arr@, arr@.len() as int),
{
    let n = arr.len();
    let mut i: usize = 0;
    while i < n
        invariant
            n == arr@.len(),
            2 * n + 2 <= usize::MAX,
            i <= n,
            forall|c: int| 0 < c < n && parent_of(c) < i ==> arr@[parent_of(c)] <= #[trigger] arr@[c],
        decreases n - i,
    {
        let left = 2 * i + 1;
        let right = 2 * i + 2;
        if left < n && arr[i] > arr[left] {
            proof {
                assert(parent_of(left as int) == i);
            }
            return false;
        }
        if right < n && arr[i] > arr[right] {
            proof {
                assert(parent_of(right as int) == i);
            }
            return false;
        }
        proof {
            assert forall|c: int| 0 < c < n && parent_of(c) < i + 1 implies arr@[parent_of(c)]
                <= #[trigger] arr@[c] by {
                if parent_of(c) == i {
                    assert(c == left || c == right);
                }
            }
        }
        i += 1;
    }
    true
}

} // verus!
