//! Random arrays, linear scan, library sort and quadratic inversion
//! counting.
use vstd::prelude::*;
use crate::random::random_u32;

verus! {

/// Sum of the element-to-element differences of `s`, which telescopes to
/// the difference between the last and the first element.
pub open spec fn sum_of_steps(s: Seq<i32>, k: int) -> int
    decreases k,
{
    if k <= 0 {
        0
    } else {
        sum_of_steps(s, k - 1) + (s[k] - s[k - 1])
    }
}

proof fn lemma_steps_telescope(s: Seq<i32>, k: int)
    requires
        0 <= k < s.len(),
    ensures
        sum_of_steps(s, k) == s[k] - s[0],
    decreases k,
{
    if k > 0 {
        lemma_steps_telescope(s, k - 1);
    }
}

/// Adds up the differences between neighbouring elements. An empty array
/// has no last position, so it is not accepted.
pub fn linear_scan(array: &Vec<i32>) -> (counter: i64)
    requires
        array.len() >= 1,
    ensures
        counter == sum_of_steps(array@, array.len() - 1),
        counter == array@[array.len() - 1] - array@[0],
{
    let mut counter: i64 = 0;
    let n = array.len();
    for num in 0..(n - 1)
        invariant
            n == array.len(),
            n >= 1,
            counter == sum_of_steps(array@, num as int),
            counter == array@[num as int] - array@[0],
    {
        proof {
            lemma_steps_telescope(array@, num + 1);
        }
        counter += (array[num + 1] as i64) - (array[num] as i64);
    }
    counter
}

/// `s` is in non-decreasing order.
pub open spec fn sorted_i32(s: Seq<i32>) -> bool {
    forall|i: int, j: int| 0 <= i <= j < s.len() ==> s[i] <= s[j]
}

/// Two sorted arrangements of the same elements are equal: whichever of
/// the sorts of `i32` arrays in this library produced them (insertion
/// sort, the library sort), their results agree.
pub proof fn lemma_sorted_i32_arrangement_unique(a: Seq<i32>, b: Seq<i32>)
    requires
        sorted_i32(a),
        sorted_i32(b),
        a.to_multiset() == b.to_multiset(),
    ensures
        a == b,
    decreases a.len(),
{
    broadcast use vstd::seq_lib::group_to_multiset_ensures, vstd::multiset::group_multiset_axioms;
    a.to_multiset_ensures();
    b.to_multiset_ensures();
    if a.len() == 0 {
        assert(b.len() == 0);
        assert(a =~= b);
    } else {
        assert(b.len() > 0);
        assert(a.to_multiset().count(a[0]) > 0);
        assert(b.contains(a[0]));
        let j = choose|j: int| 0 <= j < b.len() && b[j] == a[0];
        assert(b[0] <= a[0]);
        assert(b.to_multiset().count(b[0]) > 0);
        assert(a.contains(b[0]));
        let k = choose|k: int| 0 <= k < a.len() && a[k] == b[0];
        assert(a[0] <= b[0]);
        let a1 = a.drop_first();
        let b1 = b.drop_first();
        assert(a =~= seq![a[0]] + a1);
        assert(b =~= seq![a[0]] + b1);
        vstd::seq_lib::lemma_multiset_commutative(seq![a[0]], a1);
        vstd::seq_lib::lemma_multiset_commutative(seq![a[0]], b1);
        assert(a1.to_multiset() =~= b1.to_multiset()) by {
            assert(seq![a[0]].to_multiset() =~= vstd::multiset::Multiset::singleton(a[0])) by {
                assert(seq![a[0]] =~= Seq::<i32>::empty().push(a[0]));
            }
            assert forall|x: i32| a1.to_multiset().count(x) == b1.to_multiset().count(x) by {
                assert(a.to_multiset().count(x) == seq![a[0]].to_multiset().count(x)
                    + a1.to_multiset().count(x));
                assert(b.to_multiset().count(x) == seq![a[0]].to_multiset().count(x)
                    + b1.to_multiset().count(x));
            }
        }
        lemma_sorted_i32_arrangement_unique(a1, b1);
        assert(a =~= b);
    }
}

/// Calls std's `sort` on the elements of `v`, which sorts them into
/// non-decreasing order: the result is sorted and holds the same elements.
#[verifier::external_body]
fn std_sort(v: &mut Vec<i32>)
    ensures
        final(v)@.to_multiset() == old(v)@.to_multiset(),
        sorted_i32(final(v)@),
{
    v.sort();
}

/// A sorted copy of the array, made with the standard library's sort.
pub fn lib_sort(array: &Vec<i32>) -> (copy: Vec<i32>)
    ensures
        copy@.to_multiset() == array@.to_multiset(),
        sorted_i32(copy@),
{
    let mut copy = array.clone();
    proof {
        assert(copy@ =~= array@);
    }
    std_sort(&mut copy);
    copy
}

/// Number of positions `k` with `i < k < j` holding an element smaller
/// than `s[i]`.
pub open spec fn smaller_after(s: Seq<i32>, i: int, j: int) -> nat
    decreases j - i,
{
    if j <= i + 1 {
        0
    } else {
        smaller_after(s, i, j - 1) + if s[j - 1] < s[i] {
            1nat
        } else {
            0nat
        }
    }
}

/// Number of inversions (pairs `i < j` with `s[i] > s[j]`) whose first
/// position is below `i`.
pub open spec fn inversions_before(s: Seq<i32>, i: int) -> nat
    decreases i,
{
    if i <= 0 {
        0
    } else {
        inversions_before(s, i - 1) + smaller_after(s, i - 1, s.len() as int)
    }
}

/// Number of inversions: pairs of positions `i < j` with `s[i] > s[j]`.
pub open spec fn inversions(s: Seq<i32>) -> nat {
    inversions_before(s, s.len() as int)
}

proof fn lemma_smaller_after_mono(s: Seq<i32>, i: int, j: int, k: int)
    requires
        j <= k,
    ensures
        smaller_after(s, i, j) <= smaller_after(s, i, k),
    decreases k - j,
{
    if j < k {
        lemma_smaller_after_mono(s, i, j, k - 1);
    }
}

proof fn lemma_inversions_mono(s: Seq<i32>, i: int, k: int)
    requires
        i <= k,
    ensures
        inversions_before(s, i) <= inversions_before(s, k),
    decreases k - i,
{
    if i < k {
        lemma_inversions_mono(s, i, k - 1);
    }
}

/// Counts the inversions by checking every pair.
pub fn quadratic_inversion_counter(array: &[i32]) -> (counter: i32)
    requires
        inversions(array@) <= i32::MAX,
    ensures
        counter == inversions(array@),
{
    let mut counter: i32 = 0;
    let n = array.len();
    let mut i: usize = 0;
    while i < n
        invariant
            n == array@.len(),
            i <= n,
            counter == inversions_before(array@, i as int),
            inversions(array@) <= i32::MAX,
        decreases n - i,
    {
        let mut j = i + 1;
        proof {
            lemma_inversions_mono(array@, i + 1, n as int);
        }
        while j < n
            invariant
                n == array@.len(),
                i < n,
                i + 1 <= j <= n,
                counter == inversions_before(array@, i as int) + smaller_after(array@, i as int, j as int),
                inversions_before(array@, i + 1) <= i32::MAX,
            decreases n - j,
        {
            proof {
                lemma_smaller_after_mono(array@, i as int, j + 1, n as int);
            }
            if i < j && array[i] > array[j] {
                counter += 1;
            }
            j += 1;
        }
        i += 1;
    }
    counter
}

/// Counts the inversions by checking every pair, in a 64-bit counter.
pub fn quadratic_inversion_counter_u64(array: &[i32]) -> (counter: u64)
    requires
        inversions(array@) <= u64::MAX,
    ensures
        counter == inversions(array@),
{
    let mut counter: u64 = 0;
    let n = array.len();
    let mut i: usize = 0;
    while i < n
        invariant
            n == array@.len(),
            i <= n,
            counter == inversions_before(array@, i as int),
            inversions(array@) <= u64::MAX,
        decreases n - i,
    {
        let mut j = i + 1;
        proof {
            lemma_inversions_mono(array@, i + 1, n as int);
        }
        while j < n
            invariant
                n == array@.len(),
                i < n,
                i + 1 <= j <= n,
                counter == inversions_before(array@, i as int) + smaller_after(array@, i as int, j as int),
                inversions_before(array@, i + 1) <= u64::MAX,
            decreases n - j,
        {
            proof {
                lemma_smaller_after_mono(array@, i as int, j + 1, n as int);
            }
            if array[i] > array[j] {
                counter += 1;
            }
            j += 1;
        }
        i += 1;
    }
    counter
}

/// `max(elements_count, 0)` random values.
pub fn create_random_array(elements_count: i32) -> (v: Vec<i32>)
    ensures
        v@.len() == if elements_count > 0 { elements_count as int } else { 0 },
{
    let mut v: Vec<i32> = Vec::new();
    let mut i: i32 = 0;
    while i < elements_count
        invariant
            0 <= i,
            elements_count > 0 ==> i <= elements_count,
            elements_count <= 0 ==> i == 0,
            v@.len() == i,
        decreases elements_count - i,
    {
        v.push(#[verifier::truncate] (random_u32() as i32));
        i += 1;
    }
    v
}

} // verus!
