//! Plain dual-pivot quicksort with the first and last element as pivots.
use vstd::prelude::*;
use crate::perm::{
    lemma_permutes_forall, lemma_permutes_trans, lemma_permutes_whole, lemma_permutes_widen,
    lemma_swap_permutes, permutes_range, swap,
};
use crate::quicksort::{is_sorted, lemma_sorted_parts, lemma_sorted_transfer, sorted_range};

verus! {

/// Sorts `arr` in place and hands the same slice back.
pub fn quick_sort(arr: &mut [usize]) -> (res: &mut [usize])
    ensures
        res@.to_multiset() == old(arr)@.to_multiset(),
        is_sorted(res@),
        final(arr)@ == final(res)@,
{
    let n = arr.len();
    quick_sort_range(arr, 0, n);
    proof {
        lemma_permutes_whole(old(arr)@, arr@);
    }
    arr
}

/// Sorts `arr[lo..hi]`, leaving the rest of `arr` alone.
fn quick_sort_range(arr: &mut [usize], lo: usize, hi: usize)
    requires
        lo <= hi <= old(arr)@.len(),
    ensures
        permutes_range(old(arr)@, final(arr)@, lo as int, hi as int),
        sorted_range(final(arr)@, lo as int, hi as int),
    decreases hi - lo,
{
    let n = hi - lo;
    if n <= 1 {
        return;
    }
    let ghost a0 = arr@;
    if n == 2 {
        if arr[lo] > arr[lo + 1] {
            proof {
                lemma_swap_permutes(arr@, lo as int, hi as int, lo as int, lo + 1);
            }
            swap(arr, lo, lo + 1);
        }
        return;
    }
    let mut l_pivot = arr[lo];
    let mut r_pivot = arr[hi - 1];

    if l_pivot > r_pivot {
        let tmp = l_pivot;
        l_pivot = r_pivot;
        r_pivot = tmp;
        proof {
            lemma_swap_permutes(arr@, lo as int, hi as int, lo as int, hi - 1);
        }
        swap(arr, lo, hi - 1);
    }

    let mut lt = lo + 1;
    let mut gt = hi - 2;
    let mut k = lt;

    while k <= gt
        invariant
            lo + 1 <= lt <= k <= gt + 1 <= hi - 1,
            hi <= arr@.len(),
            arr@[lo as int] == l_pivot,
            arr@[hi - 1] == r_pivot,
            l_pivot <= r_pivot,
            forall|i: int| lo + 1 <= i < lt ==> arr@[i] < l_pivot,
            forall|i: int| lt <= i < k ==> l_pivot <= #[trigger] arr@[i] && arr@[i] <= r_pivot,
            forall|i: int| gt < i < hi - 1 ==> arr@[i] > r_pivot,
            permutes_range(a0, arr@, lo as int, hi as int),
        decreases gt + 1 - k,
    {
        let ghost a1 = arr@;
        if arr[k] > r_pivot {
            proof {
                lemma_swap_permutes(arr@, lo as int, hi as int, gt as int, k as int);
            }
            swap(arr, gt, k);
            proof {
                lemma_permutes_trans(a0, a1, arr@, lo as int, hi as int);
            }
            gt -= 1;
        } else if arr[k] < l_pivot {
            proof {
                lemma_swap_permutes(arr@, lo as int, hi as int, lt as int, k as int);
            }
            swap(arr, lt, k);
            proof {
                lemma_permutes_trans(a0, a1, arr@, lo as int, hi as int);
            }
            lt += 1;
            k += 1;
        } else {
            k += 1;
        }
    }

    let ghost a1 = arr@;
    proof {
        lemma_swap_permutes(arr@, lo as int, hi as int, lo as int, lt - 1);
    }
    swap(arr, lo, lt - 1);
    let ghost a2 = arr@;
    proof {
        lemma_permutes_trans(a0, a1, arr@, lo as int, hi as int);
        lemma_swap_permutes(arr@, lo as int, hi as int, hi - 1, gt + 1);
    }
    swap(arr, hi - 1, gt + 1);
    proof {
        lemma_permutes_trans(a0, a2, arr@, lo as int, hi as int);
    }
    let p1 = lt - 1;
    let p2 = gt + 1;
    let ghost b0 = arr@;
    assert(b0[p1 as int] == l_pivot && b0[p2 as int] == r_pivot);
    assert(forall|i: int| lo <= i < p1 ==> #[trigger] b0[i] < l_pivot);
    assert(forall|i: int| p1 < i < p2 ==> l_pivot <= #[trigger] b0[i] && b0[i] <= r_pivot);
    assert(forall|i: int| p2 < i < hi ==> #[trigger] b0[i] > r_pivot);

    quick_sort_range(arr, lo, p1);
    let ghost b1 = arr@;
    proof {
        lemma_permutes_forall(b0, b1, lo as int, p1 as int, |x: usize| x < l_pivot);
        lemma_permutes_widen(b0, b1, lo as int, hi as int, lo as int, p1 as int);
        lemma_permutes_trans(a0, b0, b1, lo as int, hi as int);
        assert forall|i: int| p1 < i < p2 implies l_pivot <= #[trigger] b1[i] && b1[i]
            <= r_pivot by {
            assert(b1[i] == b0[i]);
        }
    }
    quick_sort_range(arr, p1 + 1, p2);
    let ghost b2 = arr@;
    proof {
        lemma_permutes_forall(
            b1,
            b2,
            p1 + 1,
            p2 as int,
            |x: usize| l_pivot <= x && x <= r_pivot,
        );
        lemma_permutes_widen(b1, b2, lo as int, hi as int, p1 + 1, p2 as int);
        lemma_permutes_trans(a0, b1, b2, lo as int, hi as int);
        assert forall|i: int| p2 < i < hi implies #[trigger] b2[i] > r_pivot by {
            assert(b2[i] == b0[i]);
        }
    }
    quick_sort_range(arr, p2 + 1, hi);
    proof {
        lemma_permutes_forall(b2, arr@, p2 + 1, hi as int, |x: usize| x > r_pivot);
        lemma_permutes_widen(b2, arr@, lo as int, hi as int, p2 + 1, hi as int);
        lemma_permutes_trans(a0, b2, arr@, lo as int, hi as int);
        assert forall|i: int| lo <= i <= p2 implies arr@[i] == b2[i] by {}
        assert forall|i: int| lo <= i <= p1 implies b2[i] == b1[i] by {}
        assert forall|i: int| lo <= i < p1 implies #[trigger] arr@[i] < l_pivot by {
            assert(arr@[i] == b1[i]);
        }
        assert forall|i: int| p1 < i < p2 implies l_pivot <= #[trigger] arr@[i] && arr@[i]
            <= r_pivot by {
            assert(arr@[i] == b2[i]);
        }
        lemma_sorted_transfer(b1, arr@, lo as int, p1 as int);
        lemma_sorted_transfer(b2, arr@, p1 + 1, p2 as int);
        assert(b1[p1 as int] == b0[p1 as int]);
        assert(b2[p2 as int] == b1[p2 as int]);
        assert(b1[p2 as int] == b0[p2 as int]);
        lemma_sorted_parts(arr@, lo as int, p1 as int, p2 as int, hi as int, l_pivot, r_pivot);
    }
}

} // verus!
