//! Facts about rearrangements of sequences: swaps, permutations of a
//! sub-range, and how they keep the multiset of elements.
use vstd::prelude::*;

verus! {

broadcast use vstd::seq_lib::group_to_multiset_ensures, vstd::multiset::group_multiset_axioms;

/// The sequence after exchanging the elements at positions `i` and `j`.
pub open spec fn swapped<A>(s: Seq<A>, i: int, j: int) -> Seq<A> {
    s.update(i, s[j]).update(j, s[i])
}

/// `b` is `a` with only the positions in `lo..hi` rearranged among themselves.
pub open spec fn permutes_range<A>(a: Seq<A>, b: Seq<A>, lo: int, hi: int) -> bool {
    &&& a.len() == b.len()
    &&& 0 <= lo <= hi <= a.len()
    &&& forall|k: int| 0 <= k < a.len() && !(lo <= k < hi) ==> #[trigger] a[k] == b[k]
    &&& a.subrange(lo, hi).to_multiset() == b.subrange(lo, hi).to_multiset()
}

/// Exchanging two elements keeps the multiset of the whole sequence.
pub proof fn lemma_swap_multiset<A>(s: Seq<A>, i: int, j: int)
    requires
        0 <= i < s.len(),
        0 <= j < s.len(),
    ensures
        swapped(s, i, j).to_multiset() == s.to_multiset(),
{
    let s1 = s.update(i, s[j]);
    assert(s1.to_multiset() == s.to_multiset().insert(s[j]).remove(s[i]));
    assert(s1.update(j, s[i]).to_multiset() == s1.to_multiset().insert(s[i]).remove(s1[j]));
    if i == j {
        assert(swapped(s, i, j) =~= s);
    } else {
        assert(s1[j] == s[j]);
        assert(s.to_multiset().count(s[i]) > 0);
        assert(s.to_multiset().insert(s[j]).remove(s[i]).insert(s[i]).remove(s[j])
            =~= s.to_multiset());
    }
}

/// Concatenation adds multisets.
pub proof fn lemma_split_multiset<A>(s: Seq<A>, a: int, b: int, c: int)
    requires
        0 <= a <= b <= c <= s.len(),
    ensures
        s.subrange(a, c).to_multiset() == s.subrange(a, b).to_multiset().add(
            s.subrange(b, c).to_multiset(),
        ),
{
    assert(s.subrange(a, c) =~= s.subrange(a, b) + s.subrange(b, c));
    vstd::seq_lib::lemma_multiset_commutative(s.subrange(a, b), s.subrange(b, c));
}

/// Swapping two positions inside `lo..hi` rearranges only that range.
pub proof fn lemma_swap_permutes<A>(s: Seq<A>, lo: int, hi: int, i: int, j: int)
    requires
        0 <= lo <= i < hi <= s.len(),
        lo <= j < hi,
    ensures
        permutes_range(s, swapped(s, i, j), lo, hi),
{
    let t = swapped(s, i, j);
    assert(t.subrange(lo, hi) =~= swapped(s.subrange(lo, hi), i - lo, j - lo));
    lemma_swap_multiset(s.subrange(lo, hi), i - lo, j - lo);
}

/// Rearrangements of a range compose.
pub proof fn lemma_permutes_trans<A>(a: Seq<A>, b: Seq<A>, c: Seq<A>, lo: int, hi: int)
    requires
        permutes_range(a, b, lo, hi),
        permutes_range(b, c, lo, hi),
    ensures
        permutes_range(a, c, lo, hi),
{
}

/// A rearrangement of an inner range is a rearrangement of any enclosing range.
pub proof fn lemma_permutes_widen<A>(a: Seq<A>, b: Seq<A>, lo: int, hi: int, lo2: int, hi2: int)
    requires
        permutes_range(a, b, lo2, hi2),
        0 <= lo <= lo2,
        hi2 <= hi <= a.len(),
    ensures
        permutes_range(a, b, lo, hi),
{
    lemma_split_multiset(a, lo, lo2, hi);
    lemma_split_multiset(a, lo2, hi2, hi);
    lemma_split_multiset(b, lo, lo2, hi);
    lemma_split_multiset(b, lo2, hi2, hi);
    assert(a.subrange(lo, lo2) =~= b.subrange(lo, lo2));
    assert(a.subrange(hi2, hi) =~= b.subrange(hi2, hi));
}

/// Whatever holds of every element of a sequence holds of every element of
/// any sequence with the same multiset.
pub proof fn lemma_multiset_forall<A>(s1: Seq<A>, s2: Seq<A>, p: spec_fn(A) -> bool)
    requires
        s1.to_multiset() == s2.to_multiset(),
        forall|i: int| 0 <= i < s1.len() ==> p(#[trigger] s1[i]),
    ensures
        forall|i: int| 0 <= i < s2.len() ==> p(#[trigger] s2[i]),
{
    assert forall|i: int| 0 <= i < s2.len() implies p(#[trigger] s2[i]) by {
        assert(s2.contains(s2[i]));
        assert(s2.to_multiset().count(s2[i]) > 0);
        assert(s1.contains(s2[i]));
        let k = choose|k: int| 0 <= k < s1.len() && s1[k] == s2[i];
        assert(p(s1[k]));
    }
}

/// A rearrangement of `lo..hi` keeps every property that all elements of
/// that range had.
pub proof fn lemma_permutes_forall<A>(a: Seq<A>, b: Seq<A>, lo: int, hi: int, p: spec_fn(A) -> bool)
    requires
        permutes_range(a, b, lo, hi),
        forall|i: int| lo <= i < hi ==> p(#[trigger] a[i]),
    ensures
        forall|i: int| lo <= i < hi ==> p(#[trigger] b[i]),
{
    assert forall|i: int| 0 <= i < a.subrange(lo, hi).len() implies #[trigger] p(
        a.subrange(lo, hi)[i],
    ) by {
        assert(p(a[lo + i]));
    }
    lemma_multiset_forall(a.subrange(lo, hi), b.subrange(lo, hi), p);
    assert forall|i: int| lo <= i < hi implies p(#[trigger] b[i]) by {
        assert(b.subrange(lo, hi)[i - lo] == b[i]);
    }
}

/// A rearrangement of the whole sequence keeps its multiset.
pub proof fn lemma_permutes_whole<A>(a: Seq<A>, b: Seq<A>)
    requires
        permutes_range(a, b, 0, a.len() as int),
    ensures
        a.to_multiset() == b.to_multiset(),
{
    assert(a.subrange(0, a.len() as int) =~= a);
    assert(b.subrange(0, b.len() as int) =~= b);
}

} // verus!

verus! {

/// Exchanges the elements at positions `i` and `j`.
pub fn swap<T: Copy>(arr: &mut [T], i: usize, j: usize)
    requires
        i < old(arr)@.len(),
        j < old(arr)@.len(),
    ensures
        final(arr)@ == swapped(old(arr)@, i as int, j as int),
{
    let tmp = arr[i];
    arr[i] = arr[j];
    arr[j] = tmp;
}

} // verus!
