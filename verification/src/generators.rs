//! Input arrays for sorting experiments: sorted, reversed, random, with
//! many duplicates, almost sorted, and made of shuffled sorted blocks.
use vstd::prelude::*;
use vstd::string::StrSliceExecFns;
use crate::perm::{lemma_swap_multiset, swapped};
use crate::random::random_u32;

verus! {

broadcast use vstd::seq_lib::group_to_multiset_ensures, vstd::multiset::group_multiset_axioms;

/// `0, 1, .., n - 1`.
pub open spec fn ascending(n: nat) -> Seq<usize> {
    Seq::new(n, |i: int| i as usize)
}

/// `s` after exchanging, in turn, the two positions of each pair in `pairs`.
pub open spec fn with_swaps(s: Seq<usize>, pairs: Seq<(int, int)>) -> Seq<usize>
    decreases pairs.len(),
{
    if pairs.len() == 0 {
        s
    } else {
        swapped(with_swaps(s, pairs.drop_last()), pairs.last().0, pairs.last().1)
    }
}

/// `pairs` has `count` pairs of positions below `n`.
pub open spec fn swap_pairs_below(pairs: Seq<(int, int)>, count: int, n: int) -> bool {
    &&& pairs.len() == count
    &&& forall|k: int| 0 <= k < pairs.len() ==> 0 <= #[trigger] pairs[k].0 < n && 0 <= pairs[k].1 < n
}

/// Number of positions below `k` at which `a` and `b` differ.
pub open spec fn differing(a: Seq<usize>, b: Seq<usize>, k: int) -> nat
    decreases k,
{
    if k <= 0 {
        0
    } else {
        differing(a, b, k - 1) + if a[k - 1] != b[k - 1] {
            1nat
        } else {
            0nat
        }
    }
}

/// Changing `b` at two positions changes at most two more positions
/// against `a`.
proof fn lemma_differing_two_changes(a: Seq<usize>, b: Seq<usize>, c: Seq<usize>, i: int, j: int, k: int)
    requires
        forall|p: int| 0 <= p < k && p != i && p != j ==> #[trigger] b[p] == c[p],
    ensures
        differing(a, c, k) <= differing(a, b, k) + 2,
        k <= i && k <= j ==> differing(a, c, k) == differing(a, b, k),
        (k <= i || k <= j) ==> differing(a, c, k) <= differing(a, b, k) + 1,
    decreases k,
{
    if k > 0 {
        lemma_differing_two_changes(a, b, c, i, j, k - 1);
    }
}

/// Exchanging the elements of `pairs` one pair after another, inside the
/// first `n` positions, moves at most two elements per pair: the result
/// differs from the start in at most `2 * pairs.len()` of those positions.
pub proof fn lemma_swaps_displace_few(s: Seq<usize>, pairs: Seq<(int, int)>, n: int)
    requires
        n == s.len(),
        forall|k: int| 0 <= k < pairs.len() ==> 0 <= #[trigger] pairs[k].0 < n && 0 <= pairs[k].1 < n,
    ensures
        with_swaps(s, pairs).len() == n,
        differing(s, with_swaps(s, pairs), n) <= 2 * pairs.len(),
    decreases pairs.len(),
{
    if pairs.len() == 0 {
        lemma_differing_two_changes(s, s, s, -1, -1, n);
        assert(differing(s, s, n) == 0) by {
            lemma_differing_same(s, n);
        }
    } else {
        let rest = pairs.drop_last();
        assert forall|k: int| 0 <= k < rest.len() implies 0 <= #[trigger] rest[k].0 < n && 0
            <= rest[k].1 < n by {
            assert(rest[k] == pairs[k]);
        }
        lemma_swaps_displace_few(s, rest, n);
        let w = with_swaps(s, rest);
        let (i, j) = pairs.last();
        lemma_differing_two_changes(s, w, swapped(w, i, j), i, j, n);
    }
}

proof fn lemma_differing_same(s: Seq<usize>, k: int)
    ensures
        differing(s, s, k) == 0,
    decreases k,
{
    if k > 0 {
        lemma_differing_same(s, k - 1);
    }
}

/// How many exchanges an almost sorted array of `n` elements gets.
pub open spec fn almost_sorted_rounds(n: int) -> int {
    if n / 100 > 1 { n / 100 } else { 1 }
}

/// `n - 1, .., 1, 0`.
pub open spec fn descending(n: nat) -> Seq<usize> {
    Seq::new(n, |i: int| (n - 1 - i) as usize)
}

/// Block `k` of a blocked array with blocks of `size`: the `size`
/// consecutive numbers starting at `2 * k * size`.
pub open spec fn block(k: int, size: nat) -> Seq<usize> {
    Seq::new(size, |t: int| (2 * k * size + t) as usize)
}

/// The blocks named in `order`, one after another.
pub open spec fn blocks_in_order(order: Seq<usize>, size: nat) -> Seq<usize>
    decreases order.len(),
{
    if order.len() == 0 {
        Seq::empty()
    } else {
        blocks_in_order(order.drop_last(), size) + block(order.last() as int, size)
    }
}

/// `order` lists each of `0..count` exactly once.
pub open spec fn is_order_of(order: Seq<usize>, count: nat) -> bool {
    order.to_multiset() == ascending(count).to_multiset()
}

/// The names that `ArrayGenerator::generate` knows.
pub open spec fn is_pattern_name(name: Seq<char>) -> bool {
    ||| name == "Sorted"@
    ||| name == "Reverse-Sorted"@
    ||| name == "Almost-Sorted"@
    ||| name == "Random"@
    ||| name == "Duplicates"@
    ||| name == "Sorted-Blocks"@
}

/// Whether two strings hold the same characters.
pub fn same_text(a: &str, b: &str) -> (r: bool)
    ensures
        r == (a@ == b@),
{
    let n = a.unicode_len();
    if n != b.unicode_len() {
        return false;
    }
    let mut i: usize = 0;
    while i < n
        invariant
            n == a@.len(),
            n == b@.len(),
            i <= n,
            forall|k: int| 0 <= k < i ==> a@[k] == b@[k],
        decreases n - i,
    {
        if a.get_char(i) != b.get_char(i) {
            return false;
        }
        i += 1;
    }
    proof {
        assert(a@ =~= b@);
    }
    true
}

/// `elements_count` random values, each a `u32` widened to `usize`.
pub fn create_random_array(elements_count: usize) -> (v: Vec<usize>)
    ensures
        v@.len() == elements_count,
        forall|i: int| 0 <= i < v@.len() ==> v@[i] <= u32::MAX,
{
    let mut v: Vec<usize> = Vec::new();
    let mut i: usize = 0;
    while i < elements_count
        invariant
            i <= elements_count,
            v@.len() == i,
            forall|k: int| 0 <= k < v@.len() ==> v@[k] <= u32::MAX,
        decreases elements_count - i,
    {
        v.push(random_u32() as usize);
        i += 1;
    }
    v
}

/// `0, 1, .., elements_count - 1`.
pub fn create_sorted_array(elements_count: usize) -> (v: Vec<usize>)
    ensures
        v@ == ascending(elements_count as nat),
{
    let mut v: Vec<usize> = Vec::new();
    let mut i: usize = 0;
    while i < elements_count
        invariant
            i <= elements_count,
            v@ == ascending(i as nat),
        decreases elements_count - i,
    {
        v.push(i);
        i += 1;
        proof {
            assert(v@ =~= ascending(i as nat));
        }
    }
    v
}

/// `elements_count - 1, .., 1, 0`.
pub fn create_reversed_array(elements_count: usize) -> (v: Vec<usize>)
    ensures
        v@ == descending(elements_count as nat),
{
    let mut v: Vec<usize> = Vec::new();
    let mut i: usize = elements_count;
    while i > 0
        invariant
            i <= elements_count,
            v@.len() == elements_count - i,
            forall|k: int| 0 <= k < v@.len() ==> v@[k] == elements_count - 1 - k,
        decreases i,
    {
        i -= 1;
        v.push(i);
    }
    proof {
        assert(v@ =~= descending(elements_count as nat));
    }
    v
}

/// `elements_count` random values, each below 5.
pub fn create_duplicates_array(elements_count: usize) -> (v: Vec<usize>)
    ensures
        v@.len() == elements_count,
        forall|i: int| 0 <= i < v@.len() ==> v@[i] < 5,
{
    let mut v: Vec<usize> = Vec::new();
    let mut i: usize = 0;
    while i < elements_count
        invariant
            i <= elements_count,
            v@.len() == i,
            forall|k: int| 0 <= k < v@.len() ==> v@[k] < 5,
        decreases elements_count - i,
    {
        v.push((random_u32() % 5) as usize);
        i += 1;
    }
    v
}

/// Makes the input arrays of the sorting benchmark by pattern name.
pub struct ArrayGenerator;

impl ArrayGenerator {
    fn random(n: usize) -> (v: Vec<usize>)
        ensures
            v@.len() == n,
            forall|i: int| 0 <= i < v@.len() ==> v@[i] <= u32::MAX,
    {
        create_random_array(n)
    }

    fn sorted(n: usize) -> (v: Vec<usize>)
        ensures
            v@ == ascending(n as nat),
    {
        create_sorted_array(n)
    }

    fn reversed(n: usize) -> (v: Vec<usize>)
        ensures
            v@ == descending(n as nat),
    {
        create_reversed_array(n)
    }

    /// `0..n` with `max(n / 100, 1)` random pairs of positions exchanged.
    fn almost_sorted(n: usize) -> (v: Vec<usize>)
        requires
            n > 0,
        ensures
            v@.len() == n,
            v@.to_multiset() == ascending(n as nat).to_multiset(),
            exists|pairs: Seq<(int, int)>|
                swap_pairs_below(pairs, almost_sorted_rounds(n as int), n as int) && v@ == with_swaps(
                    ascending(n as nat),
                    pairs,
                ),
            differing(ascending(n as nat), v@, n as int) <= 2 * (if n / 100 > 1 {
                n / 100
            } else {
                1
            }),
    {
        let mut arr = create_sorted_array(n);
        let ghost mut pairs: Seq<(int, int)> = Seq::empty();
        let rounds = if n / 100 > 1 {
            n / 100
        } else {
            1
        };
        let mut r: usize = 0;
        while r < rounds
            invariant
                n > 0,
                r <= rounds,
                arr@.len() == n,
                arr@.to_multiset() == ascending(n as nat).to_multiset(),
                rounds == almost_sorted_rounds(n as int),
                swap_pairs_below(pairs, r as int, n as int),
                arr@ == with_swaps(ascending(n as nat), pairs),
            decreases rounds - r,
        {
            let i = (random_u32() as usize) % n;
            let j = (random_u32() as usize) % n;
            let ghost before = arr@;
            proof {
                lemma_swap_multiset(arr@, i as int, j as int);
            }
            let a = arr[i];
            let b = arr[j];
            arr.set(i, b);
            arr.set(j, a);
            proof {
                assert(arr@ =~= swapped(before, i as int, j as int));
                let old_pairs = pairs;
                pairs = pairs.push((i as int, j as int));
                assert(pairs.drop_last() =~= old_pairs);
            }
            r += 1;
        }
        proof {
            lemma_swaps_displace_few(ascending(n as nat), pairs, n as int);
        }
        arr
    }

    fn duplicates(n: usize) -> (v: Vec<usize>)
        ensures
            v@.len() == n,
            forall|i: int| 0 <= i < v@.len() ==> v@[i] < 5,
    {
        create_duplicates_array(n)
    }

    /// Ten sorted blocks of `n / 10` numbers each, block `k` starting at
    /// `2 * k * (n / 10)`, laid out in a random order.
    fn sorted_blocks(n: usize) -> (v: Vec<usize>)
        requires
            2 * n <= usize::MAX,
        ensures
            exists|order: Seq<usize>|
                is_order_of(order, 10) && v@ == blocks_in_order(order, (n / 10) as nat),
    {
        let block_count: usize = 10;
        let block_size = n / block_count;
        let mut order = create_sorted_array(block_count);
        let mut i: usize = block_count;
        while i > 1
            invariant
                i <= 10,
                order@.len() == 10,
                is_order_of(order@, 10),
            decreases i,
        {
            i -= 1;
            let j = (random_u32() as usize) % (i + 1);
            let ghost before = order@;
            proof {
                lemma_swap_multiset(order@, i as int, j as int);
            }
            let a = order[i];
            let b = order[j];
            order.set(i, b);
            order.set(j, a);
            proof {
                assert(order@ =~= swapped(before, i as int, j as int));
            }
        }
        proof {
            assert forall|k: int| 0 <= k < 10 implies #[trigger] order@[k] < 10 by {
                assert(order@.to_multiset().count(order@[k]) > 0);
                assert(ascending(10).to_multiset().count(order@[k]) > 0);
                assert(ascending(10).contains(order@[k]));
            }
        }
        let mut v: Vec<usize> = Vec::new();
        let mut b: usize = 0;
        while b < block_count
            invariant
                block_count == 10,
                b <= block_count,
                block_size == n / 10,
                2 * n <= usize::MAX,
                order@.len() == 10,
                forall|k: int| 0 <= k < 10 ==> #[trigger] order@[k] < 10,
                v@ == blocks_in_order(order@.subrange(0, b as int), block_size as nat),
            decreases block_count - b,
        {
            proof {
                assert(order@[b as int] * block_size * 2 + block_size <= 2 * n) by (nonlinear_arith)
                    requires
                        order@[b as int] < 10,
                        block_size == n / 10,
                ;
            }
            let start = order[b] * block_size * 2;
            let mut t: usize = 0;
            let ghost v0 = v@;
            while t < block_size
                invariant
                    t <= block_size,
                    start == order@[b as int] * block_size * 2,
                    start + block_size <= usize::MAX,
                    v@ == v0 + Seq::new(t as nat, |x: int| (start + x) as usize),
                decreases block_size - t,
            {
                v.push(start + t);
                t += 1;
                proof {
                    assert(v@ =~= v0 + Seq::new(t as nat, |x: int| (start + x) as usize));
                }
            }
            proof {
                let o = order@.subrange(0, b + 1);
                assert(o.drop_last() =~= order@.subrange(0, b as int));
                assert(Seq::new(block_size as nat, |x: int| (start + x) as usize) =~= block(
                    order@[b as int] as int,
                    block_size as nat,
                )) by {
                    assert(start == 2 * order@[b as int] * block_size) by (nonlinear_arith)
                        requires
                            start == order@[b as int] * block_size * 2,
                    ;
                }
            }
            b += 1;
        }
        proof {
            assert(order@.subrange(0, 10) =~= order@);
        }
        v
    }

    /// The array of `n` elements in the pattern called `name`: "Sorted",
    /// "Reverse-Sorted", "Almost-Sorted", "Random", "Duplicates" or
    /// "Sorted-Blocks".
    pub fn generate(name: &str, n: usize) -> (v: Vec<usize>)
        requires
            is_pattern_name(name@),
            name@ == "Almost-Sorted"@ ==> n > 0,
            name@ == "Sorted-Blocks"@ ==> 2 * n <= usize::MAX,
        ensures
            name@ == "Sorted"@ ==> v@ == ascending(n as nat),
            name@ == "Reverse-Sorted"@ ==> v@ == descending(n as nat),
            name@ == "Almost-Sorted"@ ==> differing(ascending(n as nat), v@, n as int) <= 2 * (if n
                / 100 > 1 {
                n / 100
            } else {
                1
            }),
            name@ == "Almost-Sorted"@ ==> v@.len() == n && v@.to_multiset() == ascending(
                n as nat,
            ).to_multiset() && exists|pairs: Seq<(int, int)>|
                swap_pairs_below(pairs, almost_sorted_rounds(n as int), n as int) && v@ == with_swaps(
                    ascending(n as nat),
                    pairs,
                ),
            name@ == "Random"@ ==> v@.len() == n && forall|i: int|
                0 <= i < v@.len() ==> v@[i] <= u32::MAX,
            name@ == "Duplicates"@ ==> v@.len() == n && forall|i: int|
                0 <= i < v@.len() ==> v@[i] < 5,
            name@ == "Sorted-Blocks"@ ==> exists|order: Seq<usize>|
                is_order_of(order, 10) && v@ == blocks_in_order(order, (n / 10) as nat),
    {
        proof {
            reveal_strlit("Sorted-Blocks");
            reveal_strlit("Sorted");
            reveal_strlit("Reverse-Sorted");
            reveal_strlit("Almost-Sorted");
            reveal_strlit("Random");
            reveal_strlit("Duplicates");
            assert("Sorted"@.len() == 6 && "Random"@.len() == 6 && "Sorted"@[0] != "Random"@[0]);
            assert("Reverse-Sorted"@.len() == 14 && "Duplicates"@.len() == 10);
            assert("Almost-Sorted"@.len() == 13 && "Sorted-Blocks"@.len() == 13);
            assert("Almost-Sorted"@[0] != "Sorted-Blocks"@[0]);
        }
        if same_text(name, "Sorted") {
            Self::sorted(n)
        } else if same_text(name, "Reverse-Sorted") {
            Self::reversed(n)
        } else if same_text(name, "Almost-Sorted") {
            Self::almost_sorted(n)
        } else if same_text(name, "Random") {
            Self::random(n)
        } else if same_text(name, "Duplicates") {
            Self::duplicates(n)
        } else {
            Self::sorted_blocks(n)
        }
    }
}

} // verus!
