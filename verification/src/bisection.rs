//! Binary search for the first position not below a key, counting probes.
use vstd::prelude::*;
use vstd::arithmetic::power2::{pow2, lemma_pow2_unfold, lemma_pow2_pos, lemma2_to64};
use vstd::arithmetic::mul::lemma_mul_inequality;

verus! {

/// `s` is in non-decreasing order.
pub open spec fn sorted_u32(s: Seq<u32>) -> bool {
    forall|i: int, j: int| 0 <= i <= j < s.len() ==> s[i] <= s[j]
}

/// Binary search over positions `l..r` for the first one where `below`
/// fails, assuming it holds on a prefix: probe the middle, continue right of
/// it when `below` holds there and left of it otherwise. The position
/// reached and the number of probes made.
pub open spec fn bisect(below: spec_fn(int) -> bool, l: int, r: int) -> (int, nat)
    decreases r - l,
{
    if l >= r {
        (l, 0)
    } else {
        let m = l + (r - l) / 2;
        let sub = if below(m) {
            bisect(below, m + 1, r)
        } else {
            bisect(below, l, m)
        };
        (sub.0, sub.1 + 1)
    }
}

/// Halving the search interval keeps `2^probes * width <= n`.
pub(crate) proof fn lemma_halving(c: nat, m: int, m2: int, n: int)
    requires
        pow2(c) * m <= n,
        0 <= m2,
        2 * m2 <= m,
    ensures
        pow2(c + 1) * m2 <= n,
{
    lemma_pow2_unfold(c + 1);
    lemma_pow2_pos(c);
    assert(pow2(c + 1) * m2 == pow2(c) * (2 * m2)) by (nonlinear_arith)
        requires
            pow2(c + 1) == 2 * pow2(c),
    ;
    lemma_mul_inequality(2 * m2, m, pow2(c) as int);
    assert(pow2(c) * (2 * m2) <= pow2(c) * m) by (nonlinear_arith)
        requires
            (2 * m2) * pow2(c) <= m * pow2(c),
    ;
}

/// Position of the first element of `array` that is not below `searched`
/// (`array.len()` when there is none), found by halving the interval, and
/// the number of probes made: both are those of `bisect`. For a sorted
/// array the position is exactly that first one; the probes number at most
/// `1 + log2(len)`.
pub fn lower_bound(array: &[u32], searched: u32) -> (res: (usize, usize))
    ensures
        (res.0 as int, res.1 as nat) == bisect(|i: int| array@[i] < searched, 0, array@.len() as int),
        res.0 <= array@.len(),
        sorted_u32(array@) ==> forall|i: int| 0 <= i < res.0 ==> array@[i] < searched,
        sorted_u32(array@) ==> forall|i: int| res.0 <= i < array@.len() ==> array@[i] >= searched,
        res.1 == 0 <==> array@.len() == 0,
        res.1 > 0 ==> pow2((res.1 - 1) as nat) <= array@.len(),
        res.1 <= array@.len(),
{
    let mut left_border: usize = 0;
    let n = array.len();
    let mut right_border: usize = n;
    let mut comparisons: usize = 0;
    proof {
        lemma2_to64();
    }
    while left_border < right_border
        invariant
            left_border <= right_border <= array@.len(),
            n == array@.len(),
            comparisons + (right_border - left_border) <= array@.len(),
            pow2(comparisons as nat) * (right_border - left_border) <= array@.len(),
            comparisons > 0 ==> pow2((comparisons - 1) as nat) <= array@.len(),
            comparisons == 0 ==> left_border == 0 && right_border == array@.len(),
            bisect(|i: int| array@[i] < searched, 0, array@.len() as int).0 == bisect(
                |i: int| array@[i] < searched,
                left_border as int,
                right_border as int,
            ).0,
            bisect(|i: int| array@[i] < searched, 0, array@.len() as int).1 == bisect(
                |i: int| array@[i] < searched,
                left_border as int,
                right_border as int,
            ).1 + comparisons,
            sorted_u32(array@) ==> forall|i: int| 0 <= i < left_border ==> array@[i] < searched,
            sorted_u32(array@) ==> forall|i: int|
                right_border <= i < array@.len() ==> array@[i] >= searched,
        decreases right_border - left_border,
    {
        let k = left_border + (right_border - left_border) / 2;
        let ghost m = right_border - left_border;
        proof {
            lemma_pow2_pos(comparisons as nat);
            assert(pow2(comparisons as nat) * 1 <= pow2(comparisons as nat) * m) by (nonlinear_arith)
                requires
                    m >= 1,
                    pow2(comparisons as nat) > 0,
            ;
        }
        assert(comparisons < n);
        comparisons += 1;
        if array[k] < searched {
            left_border = k + 1;
        } else {
            right_border = k;
        }
        proof {
            lemma_halving((comparisons - 1) as nat, m, right_border - left_border, array@.len() as int);
        }
    }
    (left_border, comparisons)
}

} // verus!
