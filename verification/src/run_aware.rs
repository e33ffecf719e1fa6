//! Run-aware hybrid sort: cut the array into maximal monotone runs
//! (reversing the descending ones), then merge neighbouring runs pairwise
//! until one run is left. With too many runs it falls back to randomised
//! quicksort.
use vstd::prelude::*;
use crate::perm::{
    lemma_split_multiset, lemma_permutes_trans, lemma_permutes_whole, lemma_permutes_widen, lemma_swap_permutes,
    permutes_range, swap,
};
use vstd::slice::slice_subrange;
use crate::quicksort::{is_sorted, sorted_range, QuickSort};

verus! {

broadcast use vstd::seq_lib::group_to_multiset_ensures, vstd::multiset::group_multiset_axioms;

/// A block `start .. start + len` of the array.
#[derive(Clone, Copy)]
pub struct Run {
    pub start: usize,
    pub len: usize,
}

/// One past the last position of a run.
pub open spec fn run_stop(r: Run) -> int {
    r.start + r.len
}

/// Scanning a non-decreasing stretch from `j`: the position where it stops
/// (the last position, or the first `j` with `s[j] > s[j + 1]`).
pub open spec fn asc_stop(s: Seq<usize>, j: int) -> int
    decreases s.len() - j,
{
    if j >= s.len() - 1 || s[j] > s[j + 1] {
        j
    } else {
        asc_stop(s, j + 1)
    }
}

/// Scanning a strictly decreasing stretch from `j`: where it stops.
pub open spec fn desc_stop(s: Seq<usize>, j: int) -> int
    decreases s.len() - j,
{
    if j >= s.len() - 1 || !(s[j] > s[j + 1]) {
        j
    } else {
        desc_stop(s, j + 1)
    }
}

/// One past the end of the maximal run that starts at `i`: a lone last
/// element, or the longest non-decreasing or strictly decreasing stretch
/// starting with the pair at `i`.
pub open spec fn maximal_run_end(s: Seq<usize>, i: int) -> int {
    if i >= s.len() - 1 {
        s.len() as int
    } else if s[i] <= s[i + 1] {
        asc_stop(s, i + 1) + 1
    } else {
        desc_stop(s, i + 1) + 1
    }
}

pub proof fn lemma_asc_stop_bounds(s: Seq<usize>, j: int)
    requires
        0 <= j < s.len(),
    ensures
        j <= asc_stop(s, j) <= s.len() - 1,
        forall|k: int| j <= k < asc_stop(s, j) ==> #[trigger] s[k] <= s[k + 1],
        asc_stop(s, j) == s.len() - 1 || s[asc_stop(s, j)] > s[asc_stop(s, j) + 1],
    decreases s.len() - j,
{
    if !(j >= s.len() - 1 || s[j] > s[j + 1]) {
        lemma_asc_stop_bounds(s, j + 1);
    }
}

pub proof fn lemma_desc_stop_bounds(s: Seq<usize>, j: int)
    requires
        0 <= j < s.len(),
    ensures
        j <= desc_stop(s, j) <= s.len() - 1,
        forall|k: int| j <= k < desc_stop(s, j) ==> #[trigger] s[k] > s[k + 1],
        desc_stop(s, j) == s.len() - 1 || !(s[desc_stop(s, j)] > s[desc_stop(s, j) + 1]),
    decreases s.len() - j,
{
    if !(j >= s.len() - 1 || !(s[j] > s[j + 1])) {
        lemma_desc_stop_bounds(s, j + 1);
    }
}

pub proof fn lemma_run_end_bounds(s: Seq<usize>, i: int)
    requires
        0 <= i < s.len(),
    ensures
        i < maximal_run_end(s, i) <= s.len(),
{
    if i < s.len() - 1 {
        lemma_asc_stop_bounds(s, i + 1);
        lemma_desc_stop_bounds(s, i + 1);
    }
}

/// The decomposition of `s[i..]` into maximal runs, left to right.
pub open spec fn runs_from(s: Seq<usize>, i: int) -> Seq<Run>
    decreases s.len() - i,
{
    if i < 0 || i >= s.len() {
        Seq::empty()
    } else {
        proof {
            lemma_run_end_bounds(s, i);
        }
        seq![Run { start: i as usize, len: (maximal_run_end(s, i) - i) as usize }] + runs_from(
            s,
            maximal_run_end(s, i),
        )
    }
}

/// `runs` are contiguous (some may be empty) and tile `from .. to`.
pub open spec fn tiles(runs: Seq<Run>, from: int, to: int) -> bool {
    &&& runs.len() == 0 ==> from == to
    &&& runs.len() > 0 ==> runs[0].start == from && run_stop(runs.last()) == to
    &&& forall|k: int| 1 <= k < runs.len() ==> #[trigger] runs[k].start == run_stop(runs[k - 1])
}

/// Every run is sorted in `s`.
pub open spec fn runs_sorted(s: Seq<usize>, runs: Seq<Run>) -> bool {
    forall|k: int| 0 <= k < runs.len() ==> sorted_range(s, #[trigger] runs[k].start as int, run_stop(runs[k]))
}

proof fn lemma_runs_from_tiles(s: Seq<usize>, i: int)
    requires
        0 <= i <= s.len(),
        s.len() <= usize::MAX,
    ensures
        tiles(runs_from(s, i), i, s.len() as int),
    decreases s.len() - i,
{
    if i < s.len() {
        lemma_run_end_bounds(s, i);
        let e = maximal_run_end(s, i);
        lemma_runs_from_tiles(s, e);
        let rest = runs_from(s, e);
        let all = runs_from(s, i);
        assert(all =~= seq![Run { start: i as usize, len: (e - i) as usize }] + rest);
        assert forall|k: int| 1 <= k < all.len() implies #[trigger] all[k].start == run_stop(
            all[k - 1],
        ) by {
            assert(all[k] == rest[k - 1]);
            if k > 1 {
                assert(all[k - 1] == rest[k - 2]);
            }
        }
    }
}

/// Tiling runs lie inside the tiled range and in order.
proof fn lemma_tiles_bounds(runs: Seq<Run>, from: int, to: int)
    requires
        tiles(runs, from, to),
    ensures
        forall|k: int|
            0 <= k < runs.len() ==> from <= #[trigger] runs[k].start <= run_stop(runs[k]) <= to,
        forall|k: int, m: int| 0 <= k < m < runs.len() ==> run_stop(runs[k]) <= runs[m].start,
    decreases runs.len(),
{
    if runs.len() > 0 {
        let rest = runs.drop_last();
        if rest.len() > 0 {
            assert(tiles(rest, from, run_stop(rest.last()))) by {
                assert forall|k: int| 1 <= k < rest.len() implies #[trigger] rest[k].start
                    == run_stop(rest[k - 1]) by {
                    assert(runs[k].start == run_stop(runs[k - 1]));
                }
            }
            lemma_tiles_bounds(rest, from, run_stop(rest.last()));
            assert(runs[runs.len() - 1].start == run_stop(runs[runs.len() - 2]));
            assert forall|k: int|
                0 <= k < runs.len() implies from <= #[trigger] runs[k].start <= run_stop(runs[k])
                <= to by {
                if k < runs.len() - 1 {
                    assert(rest[k] == runs[k]);
                }
            }
            assert forall|k: int, m: int| 0 <= k < m < runs.len() implies run_stop(runs[k])
                <= runs[m].start by {
                assert(rest[k] == runs[k]);
                if m < runs.len() - 1 {
                    assert(rest[m] == runs[m]);
                }
            }
        }
    }
}

/// The run list starting at a run boundary continues with the runs after it.
proof fn lemma_runs_from_unfold(s: Seq<usize>, i: int)
    requires
        0 <= i < s.len(),
    ensures
        runs_from(s, i) == seq![Run { start: i as usize, len: (maximal_run_end(s, i) - i) as usize }]
            + runs_from(s, maximal_run_end(s, i)),
{
}

/// Reverses `arr[lo..hi]` in place.
pub(crate) fn reverse_range<T: Copy>(arr: &mut [T], lo: usize, hi: usize)
    requires
        lo <= hi <= old(arr)@.len(),
    ensures
        final(arr)@.len() == old(arr)@.len(),
        forall|k: int| lo <= k < hi ==> #[trigger] final(arr)@[k] == old(arr)@[lo + hi - 1 - k],
        forall|k: int| 0 <= k < old(arr)@.len() && !(lo <= k < hi) ==> #[trigger] final(arr)@[k]
            == old(arr)@[k],
        permutes_range(old(arr)@, final(arr)@, lo as int, hi as int),
{
    let ghost a0 = arr@;
    let mut a = lo;
    let mut b = hi;
    while b - a > 1
        invariant
            lo <= a <= b <= hi <= arr@.len(),
            arr@.len() == a0.len(),
            a - lo == hi - b,
            forall|k: int| lo <= k < a ==> #[trigger] arr@[k] == a0[lo + hi - 1 - k],
            forall|k: int| b <= k < hi ==> #[trigger] arr@[k] == a0[lo + hi - 1 - k],
            forall|k: int| a <= k < b ==> #[trigger] arr@[k] == a0[k],
            forall|k: int| 0 <= k < a0.len() && !(lo <= k < hi) ==> #[trigger] arr@[k] == a0[k],
            permutes_range(a0, arr@, lo as int, hi as int),
        decreases b - a,
    {
        let ghost a1 = arr@;
        proof {
            lemma_swap_permutes(arr@, lo as int, hi as int, a as int, b - 1);
        }
        swap(arr, a, b - 1);
        proof {
            lemma_permutes_trans(a0, a1, arr@, lo as int, hi as int);
        }
        a += 1;
        b -= 1;
    }
}

/// Adjacent pairs in order make the whole block sorted.
proof fn lemma_adjacent_sorted(s: Seq<usize>, lo: int, hi: int)
    requires
        0 <= lo <= hi <= s.len(),
        forall|k: int| lo <= k < hi - 1 ==> #[trigger] s[k] <= s[k + 1],
    ensures
        sorted_range(s, lo, hi),
    decreases hi - lo,
{
    if hi - lo > 1 {
        lemma_adjacent_sorted(s, lo, hi - 1);
        assert forall|i: int, j: int| lo <= i <= j < hi implies s[i] <= s[j] by {
            if j == hi - 1 && i < j {
                assert(s[i] <= s[hi - 2]);
            }
        }
    }
}

/// The runs as numbers: how many, and the length of the array divided by
/// how many.
pub struct RunAwareSort;

impl RunAwareSort {
    /// More runs than this and the sort falls back to quicksort.
    pub const MAX_RUNS: usize = 32;

    /// Merges `a` and `b` into `out`: repeatedly the smaller head, `a`'s on
    /// ties, then the rest of whichever is left.
    pub fn merge_two(a: &[usize], b: &[usize], out: &mut [usize])
        requires
            old(out)@.len() == a@.len() + b@.len(),
        ensures
            final(out)@ == merge_seq(a@, b@),
    {
        let la = a.len();
        let lb = b.len();
        let mut i: usize = 0;
        let mut j: usize = 0;
        let mut k: usize = 0;
        proof {
            assert(a@.subrange(0, la as int) =~= a@);
            assert(b@.subrange(0, lb as int) =~= b@);
        }
        while i < la && j < lb
            invariant
                la == a@.len(),
                lb == b@.len(),
                out@.len() == la + lb,
                i <= la,
                j <= lb,
                k == i + j,
                out@.subrange(0, k as int) + merge_seq(
                    a@.subrange(i as int, la as int),
                    b@.subrange(j as int, lb as int),
                ) == merge_seq(a@, b@),
            decreases la + lb - k,
        {
            let ghost ra = a@.subrange(i as int, la as int);
            let ghost rb = b@.subrange(j as int, lb as int);
            let ghost pre = out@.subrange(0, k as int);
            if a[i] <= b[j] {
                out[k] = a[i];
                proof {
                    assert(ra.drop_first() =~= a@.subrange(i + 1, la as int));
                    assert(out@.subrange(0, k + 1) =~= pre + seq![a@[i as int]]);
                    assert(pre + merge_seq(ra, rb) == pre + (seq![ra[0]] + merge_seq(ra.drop_first(), rb)));
                    assert(pre + (seq![ra[0]] + merge_seq(ra.drop_first(), rb)) =~= (pre + seq![ra[0]])
                        + merge_seq(ra.drop_first(), rb));
                }
                i += 1;
            } else {
                out[k] = b[j];
                proof {
                    assert(rb.drop_first() =~= b@.subrange(j + 1, lb as int));
                    assert(out@.subrange(0, k + 1) =~= pre + seq![b@[j as int]]);
                    assert(pre + merge_seq(ra, rb) == pre + (seq![rb[0]] + merge_seq(ra, rb.drop_first())));
                    assert(pre + (seq![rb[0]] + merge_seq(ra, rb.drop_first())) =~= (pre + seq![rb[0]])
                        + merge_seq(ra, rb.drop_first()));
                }
                j += 1;
            }
            k += 1;
        }
        let ghost done = out@.subrange(0, k as int);
        let ghost both_done = i >= la && j >= lb;
        proof {
            let ra = a@.subrange(i as int, la as int);
            let rb = b@.subrange(j as int, lb as int);
            if i < la {
                assert(rb.len() == 0);
                assert(merge_seq(ra, rb) == ra);
            } else {
                assert(ra.len() == 0);
                assert(merge_seq(ra, rb) == rb);
            }
        }
        if i < la {
            let i0 = i;
            let k0 = k;
            while i < la
                invariant
                    la == a@.len(),
                    lb == b@.len(),
                    j == lb,
                    out@.len() == la + lb,
                    i0 <= i <= la,
                    k == i + j,
                    k0 == i0 + j,
                    out@.subrange(0, k0 as int) == done,
                    done + a@.subrange(i0 as int, la as int) == merge_seq(a@, b@),
                    forall|t: int| k0 <= t < k ==> #[trigger] out@[t] == a@[i0 + t - k0],
                decreases la - i,
            {
                out[k] = a[i];
                i += 1;
                k += 1;
            }
            proof {
                assert(out@ =~= done + a@.subrange(i0 as int, la as int));
            }
        }
        if j < lb {
            let j0 = j;
            let k0 = k;
            while j < lb
                invariant
                    la == a@.len(),
                    lb == b@.len(),
                    i == la,
                    out@.len() == la + lb,
                    j0 <= j <= lb,
                    k == i + j,
                    k0 == i + j0,
                    out@.subrange(0, k0 as int) == done,
                    done + b@.subrange(j0 as int, lb as int) == merge_seq(a@, b@),
                    forall|t: int| k0 <= t < k ==> #[trigger] out@[t] == b@[j0 + t - k0],
                decreases lb - j,
            {
                out[k] = b[j];
                j += 1;
                k += 1;
            }
            proof {
                assert(out@ =~= done + b@.subrange(j0 as int, lb as int));
            }
        }
        proof {
            if both_done {
                assert(done + Seq::<usize>::empty() == merge_seq(a@, b@));
                assert(out@ =~= done + Seq::<usize>::empty());
            }
        }
    }

    /// Merges neighbouring runs pairwise, pass after pass, until a single
    /// run is left; each merge goes through a scratch buffer.
    pub fn merge_runs(arr: &mut [usize], runs: Vec<Run>)
        requires
            tiles(runs@, 0, old(arr)@.len() as int),
            runs_sorted(old(arr)@, runs@),
        ensures
            final(arr)@.to_multiset() == old(arr)@.to_multiset(),
            is_sorted(final(arr)@),
    {
        let n = arr.len();
        let mut buffer: Vec<usize> = vec![0; n];
        let mut runs = runs;
        while runs.len() > 1
            invariant
                arr@.len() == n,
                buffer@.len() == n,
                tiles(runs@, 0, n as int),
                runs_sorted(arr@, runs@),
                permutes_range(old(arr)@, arr@, 0, n as int),
            decreases runs@.len(),
        {
            let ghost before = arr@;
            runs = Self::merge_pass(arr, &mut buffer, &runs);
            proof {
                lemma_permutes_trans(old(arr)@, before, arr@, 0, n as int);
            }
        }
        proof {
            lemma_permutes_whole(old(arr)@, arr@);
            if runs@.len() == 1 {
                assert(sorted_range(arr@, runs@[0].start as int, run_stop(runs@[0])));
            }
        }
    }

    /// One pass: merges runs 0 and 1, 2 and 3, and so on; an odd last run
    /// is carried over as it is. Returns the merged runs.
    #[verifier::rlimit(100)]
    #[verifier::spinoff_prover]
    fn merge_pass(arr: &mut [usize], buffer: &mut Vec<usize>, runs: &Vec<Run>) -> (next: Vec<Run>)
        requires
            runs@.len() > 1,
            tiles(runs@, 0, old(arr)@.len() as int),
            runs_sorted(old(arr)@, runs@),
            old(buffer)@.len() == old(arr)@.len(),
        ensures
            final(buffer)@.len() == old(buffer)@.len(),
            tiles(next@, 0, old(arr)@.len() as int),
            runs_sorted(final(arr)@, next@),
            1 <= next@.len() < runs@.len(),
            permutes_range(old(arr)@, final(arr)@, 0, old(arr)@.len() as int),
    {
        let n = arr.len();
        let ghost arr_in = arr@;
        let mut next_runs: Vec<Run> = Vec::new();
        let mut idx: usize = 0;
        let ghost pass = arr@;
        let ghost cur = runs@;
        proof {
            lemma_tiles_bounds(cur, 0, n as int);
        }
        while idx < runs.len()
            invariant
                cur == runs@,
                cur.len() > 1,
                idx <= cur.len(),
                idx % 2 == 0 ==> next_runs@.len() * 2 == idx,
                idx % 2 == 1 ==> idx == cur.len() && next_runs@.len() * 2 == idx + 1,
                arr@.len() == n,
                buffer@.len() == n,
                tiles(cur, 0, n as int),
                runs_sorted(pass, cur),
                tiles(next_runs@, 0, frontier(cur, idx as int, n as int)),
                runs_sorted(arr@, next_runs@),
                forall|k: int| frontier(cur, idx as int, n as int) <= k < n ==> #[trigger] arr@[k] == pass[k],
                permutes_range(arr_in, arr@, 0, n as int),
                forall|k: int| 0 <= k < cur.len() ==> 0 <= #[trigger] cur[k].start <= run_stop(cur[k]) <= n,
                forall|k: int, m: int| 0 <= k < m < cur.len() ==> run_stop(cur[k]) <= cur[m].start,
            decreases cur.len() - idx,
        {
            let ghost before = next_runs@;
            let ghost arr0 = arr@;
            if idx + 1 < runs.len() {
                let r1 = runs[idx];
                let r2 = runs[idx + 1];
                let end = r2.start + r2.len;
                proof {
                    assert(cur[idx + 1].start == run_stop(cur[idx as int]));
                    assert(frontier(cur, idx as int, n as int) == r1.start);
                    assert(sorted_range(pass, r1.start as int, run_stop(r1)));
                    assert(sorted_range(pass, r2.start as int, run_stop(r2)));
                    assert(sorted_range(arr@, r1.start as int, run_stop(r1)));
                    assert(sorted_range(arr@, r2.start as int, run_stop(r2)));
                }
                Self::merge_adjacent(arr, buffer, r1, r2);
                proof {
                    lemma_permutes_widen(arr0, arr@, 0, n as int, r1.start as int, end as int);
                    lemma_permutes_trans(arr_in, arr0, arr@, 0, n as int);
                }
                next_runs.push(Run { start: r1.start, len: r1.len + r2.len });
                idx += 2;
                proof {
                    assert(frontier(cur, idx as int, n as int) == end);
                    assert forall|k: int| end <= k < n implies #[trigger] arr@[k] == pass[k] by {
                        assert(arr@[k] == arr0[k]);
                    }
                    assert forall|k: int| 0 <= k < r1.start implies #[trigger] arr@[k] == arr0[k] by {}
                    lemma_runs_sorted_push(arr0, arr@, before, Run { start: r1.start, len: (r1.len + r2.len) as usize }, r1.start as int);
                    lemma_tiles_push(before, 0, r1.start as int, Run { start: r1.start, len: (r1.len + r2.len) as usize }, end as int);
                }
            } else {
                let r = runs[idx];
                next_runs.push(r);
                idx += 1;
                proof {
                    assert(idx == cur.len());
                    assert(sorted_range(pass, r.start as int, run_stop(r)));
                    lemma_runs_sorted_push(arr0, arr@, before, r, r.start as int);
                    lemma_tiles_push(before, 0, r.start as int, r, n as int);
                }
            }
        }
        proof {
            assert(next_runs@.len() >= 1);
        }
        next_runs
    }

    /// Merges the neighbouring sorted runs `r1` and `r2` of `arr` through
    /// `buffer` and writes the result back into `arr`.
    fn merge_adjacent(arr: &mut [usize], buffer: &mut Vec<usize>, r1: Run, r2: Run)
        requires
            r2.start == run_stop(r1),
            run_stop(r2) <= old(arr)@.len(),
            old(buffer)@.len() == old(arr)@.len(),
            sorted_range(old(arr)@, r1.start as int, run_stop(r1)),
            sorted_range(old(arr)@, r2.start as int, run_stop(r2)),
        ensures
            final(buffer)@.len() == old(buffer)@.len(),
            final(arr)@.subrange(r1.start as int, run_stop(r2)) == merge_seq(
                old(arr)@.subrange(r1.start as int, r2.start as int),
                old(arr)@.subrange(r2.start as int, run_stop(r2)),
            ),
            permutes_range(old(arr)@, final(arr)@, r1.start as int, run_stop(r2)),
            sorted_range(final(arr)@, r1.start as int, run_stop(r2)),
    {
        let ghost arr0 = arr@;
        let n = arr.len();
        let end = r2.start + r2.len;
        {
            let a = slice_subrange(arr, r1.start, r2.start);
            let b = slice_subrange(arr, r2.start, end);
            let whole = buffer.as_mut_slice();
            let (front, tail) = whole.split_at_mut(r1.start);
            let (out, back) = tail.split_at_mut(end - r1.start);
            proof {
                lemma_merge_multiset(a@, b@);
            }
            Self::merge_two(a, b, out);
        }
        let ghost sa = arr0.subrange(r1.start as int, r2.start as int);
        let ghost sb = arr0.subrange(r2.start as int, end as int);
        let ghost merged = merge_seq(sa, sb);
        proof {
            assert(buffer@.subrange(r1.start as int, end as int) =~= merged);
        }
        let mut t = r1.start;
        while t < end
            invariant
                r1.start <= t <= end <= n,
                arr@.len() == n,
                buffer@.len() == n,
                buffer@.subrange(r1.start as int, end as int) == merged,
                forall|k: int| r1.start <= k < t ==> #[trigger] arr@[k] == buffer@[k],
                forall|k: int| 0 <= k < n && !(r1.start <= k < t) ==> #[trigger] arr@[k] == arr0[k],
            decreases end - t,
        {
            arr[t] = buffer[t];
            t += 1;
        }
        proof {
            assert(arr@.subrange(r1.start as int, end as int) =~= merged);
            lemma_merge_multiset(sa, sb);
            lemma_split_multiset(arr0, r1.start as int, r2.start as int, end as int);
            lemma_sorted_sub(arr0, r1.start as int, r2.start as int);
            lemma_sorted_sub(arr0, r2.start as int, end as int);
            lemma_merge_sorted(sa, sb);
            lemma_sorted_embed(arr@, merged, r1.start as int);
        }
    }

    /// Follows the maximal run that starts at `start` to its end and, when
    /// it is strictly decreasing, reverses it in place. Returns its length.
    fn take_run(arr: &mut [usize], start: usize, Ghost(s): Ghost<Seq<usize>>) -> (len: usize)
        requires
            start + 1 < old(arr)@.len(),
            s.len() == old(arr)@.len(),
            forall|k: int| start <= k < s.len() ==> #[trigger] old(arr)@[k] == s[k],
        ensures
            len >= 2,
            start + len == maximal_run_end(s, start as int),
            permutes_range(old(arr)@, final(arr)@, start as int, start + len),
            sorted_range(final(arr)@, start as int, start + len),
    {
        let ghost arr0 = arr@;
        let n = arr.len();
        let mut i = start;
        let is_increasing = arr[i] <= arr[i + 1];
        let mut len: usize = 2;
        i += 1;

        if is_increasing {
            while i < n - 1 && arr[i] <= arr[i + 1]
                invariant
                    start + 1 <= i <= n - 1,
                    len == i - start + 1,
                    n == s.len(),
                    arr@.len() == n,
                    arr@ == arr0,
                    forall|k: int| start <= k < n ==> #[trigger] arr@[k] == s[k],
                    asc_stop(s, i as int) == asc_stop(s, start + 1),
                decreases n - i,
            {
                len += 1;
                i += 1;
            }
            proof {
                lemma_asc_stop_bounds(s, start + 1);
                assert(i == asc_stop(s, start + 1));
                assert forall|k: int| start <= k < start + len - 1 implies #[trigger] arr@[k] <= arr@[k + 1] by {
                    assert(arr@[k] == s[k]);
                    assert(arr@[k + 1] == s[k + 1]);
                }
                lemma_adjacent_sorted(arr@, start as int, start + len);
                assert(arr@.subrange(start as int, start + len) =~= s.subrange(start as int, start + len));
            }
        } else {
            while i < n - 1 && arr[i] > arr[i + 1]
                invariant
                    start + 1 <= i <= n - 1,
                    len == i - start + 1,
                    n == s.len(),
                    arr@.len() == n,
                    arr@ == arr0,
                    forall|k: int| start <= k < n ==> #[trigger] arr@[k] == s[k],
                    desc_stop(s, i as int) == desc_stop(s, start + 1),
                decreases n - i,
            {
                len += 1;
                i += 1;
            }
            proof {
                lemma_desc_stop_bounds(s, start + 1);
                assert(i == desc_stop(s, start + 1));
                assert(arr@.subrange(start as int, start + len) =~= s.subrange(start as int, start + len));
            }
            reverse_range(arr, start, start + len);
            proof {
                assert forall|k: int| start <= k < start + len - 1 implies #[trigger] arr@[k] <= arr@[k + 1] by {
                    let m = start + start + len - 2 - k;
                    assert(arr@[k] == arr0[m + 1]);
                    assert(arr@[k + 1] == arr0[m]);
                    assert(s[m] > s[m + 1]);
                }
                lemma_adjacent_sorted(arr@, start as int, start + len);
            }
        }
        proof {
            lemma_run_end_bounds(s, start as int);
            if is_increasing {
                assert(arr@ == arr0);
                assert(permutes_range(arr0, arr@, start as int, start + len));
            }
        }
        len
    }

    /// Sorts `arr`. Returns the number of runs found and the array length
    /// divided by it; `(0, 0)` when there were too many runs and quicksort
    /// did the work; `(n, n)` for arrays of at most one element.
    pub fn sort(arr: &mut [usize]) -> (res: (usize, usize))
        requires
            old(arr)@.len() * old(arr)@.len() <= usize::MAX || fits_run_budget(
                runs_from(old(arr)@, 0),
                Self::MAX_RUNS,
            ),
        ensures
            final(arr)@.to_multiset() == old(arr)@.to_multiset(),
            is_sorted(final(arr)@),
            res == sort_summary(old(arr)@, Self::MAX_RUNS),
    {
        let n = arr.len();
        if n <= 1 {
            proof {
                assert(is_sorted(arr@));
            }
            return (n, n);
        }
        let ghost s = arr@;
        match Self::detect_runs(arr, Self::MAX_RUNS) {
            Some(runs) => {
                proof {
                    lemma_runs_from_tiles(s, 0);
                    lemma_run_end_bounds(s, 0);
                }
                let run_count = runs.len();
                let avg_len = n / run_count;
                if run_count > 1 {
                    Self::merge_runs(arr, runs);
                } else {
                    proof {
                        assert(runs@[0].start == 0 && run_stop(runs@[0]) == n);
                        assert(sorted_range(arr@, runs@[0].start as int, run_stop(runs@[0])));
                    }
                }
                (run_count, avg_len)
            },
            None => {
                QuickSort::sort_random(arr);
                (0, 0)
            },
        }
    }

    /// Cuts `arr` into its maximal runs, reversing each strictly decreasing
    /// one in place. Gives up (`None`) as soon as a run beyond the first
    /// `max_runs` is found, unless that run is the lone last element; the
    /// runs up to that one are then already in order and the rest of `arr`
    /// is untouched.
    pub fn detect_runs(arr: &mut [usize], max_runs: usize) -> (res: Option<Vec<Run>>)
        ensures
            final(arr)@.len() == old(arr)@.len(),
            final(arr)@.to_multiset() == old(arr)@.to_multiset(),
            res is Some <==> fits_run_budget(runs_from(old(arr)@, 0), max_runs),
            res matches Some(runs) ==> {
                &&& runs@ == runs_from(old(arr)@, 0)
                &&& runs_sorted(final(arr)@, runs@)
                &&& forall|k: int|
                    0 <= k < runs@.len() ==> #[trigger] final(arr)@.subrange(
                        runs@[k].start as int,
                        run_stop(runs@[k]),
                    ).to_multiset() == old(arr)@.subrange(
                        runs@[k].start as int,
                        run_stop(runs@[k]),
                    ).to_multiset()
            },
            res is None ==> {
                let done = runs_from(old(arr)@, 0).take(max_runs + 1);
                &&& runs_sorted(final(arr)@, done)
                &&& forall|k: int|
                    0 <= k < done.len() ==> #[trigger] final(arr)@.subrange(
                        done[k].start as int,
                        run_stop(done[k]),
                    ).to_multiset() == old(arr)@.subrange(
                        done[k].start as int,
                        run_stop(done[k]),
                    ).to_multiset()
                &&& forall|k: int|
                    run_stop(done.last()) <= k < old(arr)@.len() ==> #[trigger] final(arr)@[k]
                        == old(arr)@[k]
            },
    {
        let ghost s = arr@;
        let ghost all = runs_from(s, 0);
        let n = arr.len();
        let mut runs: Vec<Run> = Vec::new();
        let mut i: usize = 0;
        proof {
            assert(runs@ + runs_from(s, 0) =~= runs_from(s, 0));
            assert(s.subrange(0, n as int) =~= arr@.subrange(0, n as int));
        }
        while i < n
            invariant_except_break
                i <= n,
                runs@ + runs_from(s, i as int) == all,
                runs@.len() <= max_runs,
                forall|k: int| 0 <= k < runs@.len() ==> run_stop(#[trigger] runs@[k]) <= i,
                forall|k: int| i <= k < n ==> #[trigger] arr@[k] == s[k],
            invariant
                n == s.len(),
                s == old(arr)@,
                all == runs_from(s, 0),
                arr@.len() == n,
                permutes_range(s, arr@, 0, n as int),
                runs_sorted(arr@, runs@),
                forall|k: int|
                    0 <= k < runs@.len() ==> #[trigger] arr@.subrange(
                        runs@[k].start as int,
                        run_stop(runs@[k]),
                    ).to_multiset() == s.subrange(runs@[k].start as int, run_stop(runs@[k])).to_multiset(),
            ensures
                runs@ == all,
                fits_run_budget(all, max_runs),
            decreases n - i,
        {
            proof {
                lemma_runs_from_unfold(s, i as int);
                lemma_run_end_bounds(s, i as int);
            }
            let ghost before = runs@;
            let ghost arr0 = arr@;
            if i == n - 1 {
                runs.push(Run { start: i, len: 1 });
                proof {
                    assert(runs_from(s, n as int) =~= Seq::<Run>::empty());
                    assert(before + runs_from(s, i as int) == all);
                    assert(runs@ =~= all);
                    assert(arr@.subrange(i as int, i + 1) =~= s.subrange(i as int, i + 1));
                    assert forall|k: int| 0 <= k < runs@.len() implies sorted_range(
                        arr@,
                        #[trigger] runs@[k].start as int,
                        run_stop(runs@[k]),
                    ) by {
                        if k < runs@.len() - 1 {
                            assert(runs@[k] == before[k]);
                        }
                    }
                    assert forall|k: int| 0 <= k < runs@.len() implies #[trigger] arr@.subrange(
                        runs@[k].start as int,
                        run_stop(runs@[k]),
                    ).to_multiset() == s.subrange(runs@[k].start as int, run_stop(runs@[k])).to_multiset() by {
                        if k < runs@.len() - 1 {
                            assert(runs@[k] == before[k]);
                        }
                    }
                }
                break;
            }
            let start = i;
            let len = Self::take_run(arr, start, Ghost(s));
            i = start + len - 1;
            proof {
                assert forall|k: int| start + len <= k < n implies #[trigger] arr@[k] == s[k] by {
                    assert(arr@[k] == arr0[k]);
                }
                lemma_permutes_widen(arr0, arr@, 0, n as int, start as int, start + len);
                lemma_permutes_trans(s, arr0, arr@, 0, n as int);
                assert(arr@.subrange(start as int, start + len).to_multiset() == s.subrange(
                    start as int,
                    start + len,
                ).to_multiset()) by {
                    assert(arr0.subrange(start as int, start + len) =~= s.subrange(start as int, start + len));
                }
            }
            let ghost arr1 = arr@;
            proof {
                assert(i + 1 == maximal_run_end(s, start as int));
                assert forall|k: int| 0 <= k < start implies arr1[k] == arr0[k] by {}
            }
            runs.push(Run { start, len });
            proof {
                assert forall|k: int| 0 <= k < runs@.len() implies sorted_range(
                    arr@,
                    #[trigger] runs@[k].start as int,
                    run_stop(runs@[k]),
                ) by {
                    if k < runs@.len() - 1 {
                        assert(runs@[k] == before[k]);
                        assert(sorted_range(arr0, before[k].start as int, run_stop(before[k])));
                    }
                }
                assert forall|k: int| 0 <= k < runs@.len() implies #[trigger] arr@.subrange(
                    runs@[k].start as int,
                    run_stop(runs@[k]),
                ).to_multiset() == s.subrange(runs@[k].start as int, run_stop(runs@[k])).to_multiset() by {
                    if k < runs@.len() - 1 {
                        assert(runs@[k] == before[k]);
                        assert(arr@.subrange(runs@[k].start as int, run_stop(runs@[k])) =~= arr0.subrange(
                            runs@[k].start as int,
                            run_stop(runs@[k]),
                        ));
                    }
                }
                assert(runs@ + runs_from(s, i + 1) =~= before + runs_from(s, start as int));
                assert(runs@ + runs_from(s, i + 1) == all);
            }
            if runs.len() > max_runs {
                proof {
                    let rest = runs_from(s, i + 1);
                    assert(runs@ + rest == all);
                    assert(all.len() == runs@.len() + rest.len());
                    assert(all[runs@.len() - 1] == (runs@ + rest)[runs@.len() - 1]);
                    assert(all[runs@.len() - 1] == runs@[runs@.len() - 1]);
                    assert(runs@[runs@.len() - 1].len == len);
                    assert(!fits_run_budget(all, max_runs));
                    assert(permutes_range(s, arr@, 0, n as int));
                    lemma_permutes_whole(s, arr@);
                    assert(runs@ =~= all.take(max_runs + 1));
                    assert(run_stop(runs@.last()) == i + 1);
                }
                return None;
            }
            i += 1;
        }
        proof {
            if runs@ != all {
                assert(runs_from(s, n as int) =~= Seq::<Run>::empty());
                assert(runs@ =~= all);
            }
            lemma_permutes_whole(s, arr@);
        }
        Some(runs)
    }
}

/// The stable merge of two sequences: repeatedly take the smaller head,
/// preferring `a` on ties.
pub open spec fn merge_seq(a: Seq<usize>, b: Seq<usize>) -> Seq<usize>
    decreases a.len() + b.len(),
{
    if a.len() == 0 {
        b
    } else if b.len() == 0 {
        a
    } else if a[0] <= b[0] {
        seq![a[0]] + merge_seq(a.drop_first(), b)
    } else {
        seq![b[0]] + merge_seq(a, b.drop_first())
    }
}

/// Merging keeps every element exactly once.
pub proof fn lemma_merge_multiset(a: Seq<usize>, b: Seq<usize>)
    ensures
        merge_seq(a, b).to_multiset() == a.to_multiset().add(b.to_multiset()),
        merge_seq(a, b).len() == a.len() + b.len(),
    decreases a.len() + b.len(),
{
    if a.len() == 0 {
        assert(a.to_multiset() =~= vstd::multiset::Multiset::empty());
        assert(a.to_multiset().add(b.to_multiset()) =~= b.to_multiset());
    } else if b.len() == 0 {
        assert(b.to_multiset() =~= vstd::multiset::Multiset::empty());
        assert(a.to_multiset().add(b.to_multiset()) =~= a.to_multiset());
    } else if a[0] <= b[0] {
        lemma_merge_multiset(a.drop_first(), b);
        vstd::seq_lib::lemma_multiset_commutative(seq![a[0]], merge_seq(a.drop_first(), b));
        vstd::seq_lib::lemma_multiset_commutative(seq![a[0]], a.drop_first());
        assert(seq![a[0]] + a.drop_first() =~= a);
        assert(a.to_multiset().add(b.to_multiset()) =~= seq![a[0]].to_multiset().add(
            a.drop_first().to_multiset().add(b.to_multiset()),
        ));
    } else {
        lemma_merge_multiset(a, b.drop_first());
        vstd::seq_lib::lemma_multiset_commutative(seq![b[0]], merge_seq(a, b.drop_first()));
        vstd::seq_lib::lemma_multiset_commutative(seq![b[0]], b.drop_first());
        assert(seq![b[0]] + b.drop_first() =~= b);
        assert(a.to_multiset().add(b.to_multiset()) =~= seq![b[0]].to_multiset().add(
            a.to_multiset().add(b.drop_first().to_multiset()),
        ));
    }
}

/// Every element of a merge comes from one of the two inputs.
proof fn lemma_merge_from(a: Seq<usize>, b: Seq<usize>, k: int)
    requires
        0 <= k < merge_seq(a, b).len(),
    ensures
        a.contains(merge_seq(a, b)[k]) || b.contains(merge_seq(a, b)[k]),
{
    lemma_merge_multiset(a, b);
    let x = merge_seq(a, b)[k];
    assert(merge_seq(a, b).contains(x));
    assert(merge_seq(a, b).to_multiset().count(x) > 0);
}

/// Merging two sorted sequences gives a sorted sequence.
pub proof fn lemma_merge_sorted(a: Seq<usize>, b: Seq<usize>)
    requires
        is_sorted(a),
        is_sorted(b),
    ensures
        is_sorted(merge_seq(a, b)),
    decreases a.len() + b.len(),
{
    if a.len() > 0 && b.len() > 0 {
        let m = merge_seq(a, b);
        if a[0] <= b[0] {
            let rest = merge_seq(a.drop_first(), b);
            lemma_merge_sorted(a.drop_first(), b);
            lemma_merge_multiset(a.drop_first(), b);
            assert forall|k: int| 0 <= k < rest.len() implies a[0] <= #[trigger] rest[k] by {
                lemma_merge_from(a.drop_first(), b, k);
                if a.drop_first().contains(rest[k]) {
                    let t = choose|t: int| 0 <= t < a.drop_first().len() && a.drop_first()[t] == rest[k];
                    assert(a[0] <= a[t + 1]);
                } else {
                    let t = choose|t: int| 0 <= t < b.len() && b[t] == rest[k];
                    assert(b[0] <= b[t]);
                }
            }
            assert forall|i: int, j: int| 0 <= i <= j < m.len() implies m[i] <= m[j] by {
                if i > 0 {
                    assert(m[i] == rest[i - 1]);
                    assert(m[j] == rest[j - 1]);
                } else if j > 0 {
                    assert(m[j] == rest[j - 1]);
                }
            }
        } else {
            let rest = merge_seq(a, b.drop_first());
            lemma_merge_sorted(a, b.drop_first());
            lemma_merge_multiset(a, b.drop_first());
            assert forall|k: int| 0 <= k < rest.len() implies b[0] <= #[trigger] rest[k] by {
                lemma_merge_from(a, b.drop_first(), k);
                if a.contains(rest[k]) {
                    let t = choose|t: int| 0 <= t < a.len() && a[t] == rest[k];
                    assert(a[0] <= a[t]);
                } else {
                    let t = choose|t: int| 0 <= t < b.drop_first().len() && b.drop_first()[t] == rest[k];
                    assert(b[0] <= b[t + 1]);
                }
            }
            assert forall|i: int, j: int| 0 <= i <= j < m.len() implies m[i] <= m[j] by {
                if i > 0 {
                    assert(m[i] == rest[i - 1]);
                    assert(m[j] == rest[j - 1]);
                } else if j > 0 {
                    assert(m[j] == rest[j - 1]);
                }
            }
        }
    }
}

/// Runs that lie before `lo`, sorted in `a`, stay sorted in `b` when `b`
/// agrees with `a` before `lo`; a run starting at `lo` that is sorted in `b`
/// may be added.
proof fn lemma_runs_sorted_push(a: Seq<usize>, b: Seq<usize>, runs: Seq<Run>, r: Run, lo: int)
    requires
        runs_sorted(a, runs),
        tiles(runs, 0, lo),
        forall|k: int| 0 <= k < lo ==> #[trigger] b[k] == a[k],
        sorted_range(b, r.start as int, run_stop(r)),
    ensures
        runs_sorted(b, runs.push(r)),
{
    lemma_tiles_bounds(runs, 0, lo);
    let t = runs.push(r);
    assert forall|k: int| 0 <= k < t.len() implies sorted_range(
        b,
        #[trigger] t[k].start as int,
        run_stop(t[k]),
    ) by {
        if k < t.len() - 1 {
            assert(t[k] == runs[k]);
            assert(sorted_range(a, runs[k].start as int, run_stop(runs[k])));
            assert(run_stop(runs[k]) <= lo) by {
                if k < runs.len() - 1 {
                    assert(run_stop(runs[k]) <= runs[runs.len() - 1].start);
                }
            }
        }
    }
}

/// Appending a run that starts where a tiling stops extends the tiling.
proof fn lemma_tiles_push(runs: Seq<Run>, from: int, to: int, r: Run, new_to: int)
    requires
        tiles(runs, from, to),
        r.start == to,
        run_stop(r) == new_to,
    ensures
        tiles(runs.push(r), from, new_to),
{
    let t = runs.push(r);
    assert forall|k: int| 1 <= k < t.len() implies #[trigger] t[k].start == run_stop(t[k - 1]) by {
        if k < t.len() - 1 {
            assert(t[k] == runs[k]);
        }
        assert(t[k - 1] == runs[k - 1]);
    }
}

/// A sorted block, cut out, is a sorted sequence.
proof fn lemma_sorted_sub(s: Seq<usize>, lo: int, hi: int)
    requires
        0 <= lo <= hi <= s.len(),
        sorted_range(s, lo, hi),
    ensures
        is_sorted(s.subrange(lo, hi)),
{
    assert forall|i: int, j: int| 0 <= i <= j < hi - lo implies s.subrange(lo, hi)[i] <= s.subrange(lo, hi)[j] by {
        assert(s.subrange(lo, hi)[i] == s[lo + i]);
        assert(s.subrange(lo, hi)[j] == s[lo + j]);
    }
}

/// A sorted sequence sitting at `lo` in `s` makes that block of `s` sorted.
proof fn lemma_sorted_embed(s: Seq<usize>, m: Seq<usize>, lo: int)
    requires
        0 <= lo,
        lo + m.len() <= s.len(),
        s.subrange(lo, lo + m.len()) == m,
        is_sorted(m),
    ensures
        sorted_range(s, lo, lo + m.len()),
{
    assert forall|i: int, j: int| lo <= i <= j < lo + m.len() implies s[i] <= s[j] by {
        assert(s[i] == m[i - lo]);
        assert(s[j] == m[j - lo]);
    }
}

/// What the sort reports for input `s`: `(n, n)` for at most one element;
/// the run count and `n` divided by it when the runs fit the budget;
/// `(0, 0)` otherwise.
pub open spec fn sort_summary(s: Seq<usize>, max_runs: usize) -> (usize, usize) {
    let n = s.len();
    let runs = runs_from(s, 0);
    if n <= 1 {
        (n as usize, n as usize)
    } else if fits_run_budget(runs, max_runs) {
        (runs.len() as usize, (n / runs.len()) as usize)
    } else {
        (0, 0)
    }
}

/// Where the not yet merged runs begin: the start of run `idx`, or the end.
pub open spec fn frontier(runs: Seq<Run>, idx: int, n: int) -> int {
    if idx < runs.len() {
        runs[idx].start as int
    } else {
        n
    }
}

/// At most `max_runs` runs, or one more when that one is the lone last
/// element (that run is added without a check).
pub open spec fn fits_run_budget(runs: Seq<Run>, max_runs: usize) -> bool {
    runs.len() <= max_runs || (runs.len() == max_runs + 1 && runs.last().len == 1)
}

} // verus!
