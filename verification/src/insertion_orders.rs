//! How the order of insertion shapes a search tree: the median-first order
//! of sorted keys, and building a tree while counting key comparisons.
use vstd::prelude::*;
use crate::bst::{built, is_bst, keys, search_path, Node, BST};

verus! {

broadcast use vstd::seq_lib::group_to_multiset_ensures, vstd::multiset::group_multiset_axioms;

/// The lower median first, then the median-first order of the part before
/// it, then that of the part after it.
pub open spec fn median_order(s: Seq<i32>) -> Seq<i32>
    decreases s.len(),
{
    if s.len() == 0 {
        Seq::empty()
    } else {
        let mid = (s.len() - 1) / 2;
        seq![s[mid]] + median_order(s.subrange(0, mid)) + median_order(
            s.subrange(mid + 1, s.len() as int),
        )
    }
}

/// The median-first order rearranges the keys without adding or losing any.
pub proof fn lemma_median_order_permutes(s: Seq<i32>)
    ensures
        median_order(s).to_multiset() == s.to_multiset(),
    decreases s.len(),
{
    if s.len() > 0 {
        let mid = (s.len() - 1) / 2;
        let a = s.subrange(0, mid);
        let b = s.subrange(mid + 1, s.len() as int);
        lemma_median_order_permutes(a);
        lemma_median_order_permutes(b);
        assert(s =~= a + seq![s[mid]] + b);
        vstd::seq_lib::lemma_multiset_commutative(seq![s[mid]], median_order(a));
        vstd::seq_lib::lemma_multiset_commutative(seq![s[mid]] + median_order(a), median_order(b));
        vstd::seq_lib::lemma_multiset_commutative(a, seq![s[mid]]);
        vstd::seq_lib::lemma_multiset_commutative(a + seq![s[mid]], b);
    }
}

/// Appends to `out` the keys of `sorted` in median-first order.
pub fn generate_median_order(sorted: &[i32], out: &mut Vec<i32>)
    ensures
        final(out)@ == old(out)@ + median_order(sorted@),
{
    let n = sorted.len();
    median_order_range(sorted, 0, n, out);
    proof {
        assert(sorted@.subrange(0, n as int) =~= sorted@);
    }
}

fn median_order_range(sorted: &[i32], lo: usize, hi: usize, out: &mut Vec<i32>)
    requires
        lo <= hi <= sorted@.len(),
    ensures
        final(out)@ == old(out)@ + median_order(sorted@.subrange(lo as int, hi as int)),
    decreases hi - lo,
{
    if lo == hi {
        proof {
            assert(old(out)@ + median_order(sorted@.subrange(lo as int, hi as int)) =~= old(out)@);
        }
        return;
    }
    let mid = lo + (hi - lo - 1) / 2;
    let ghost s = sorted@.subrange(lo as int, hi as int);
    let ghost o0 = out@;
    out.push(sorted[mid]);
    median_order_range(sorted, lo, mid, out);
    let ghost o1 = out@;
    median_order_range(sorted, mid + 1, hi, out);
    proof {
        assert(s.subrange(0, mid - lo) =~= sorted@.subrange(lo as int, mid as int));
        assert(s.subrange(mid - lo + 1, s.len() as int) =~= sorted@.subrange(mid + 1, hi as int));
        assert(s[mid - lo] == sorted@[mid as int]);
        assert(out@ =~= o0 + median_order(s));
    }
}

/// Key comparisons made while inserting the first `i` keys: each insertion
/// compares its key with every node on its search path.
pub open spec fn insertion_comparisons(keys_seq: Seq<i32>, i: int) -> int
    decreases i,
{
    if i <= 0 {
        0
    } else {
        insertion_comparisons(keys_seq, i - 1) + search_path(
            built(keys_seq, i - 1),
            keys_seq[i - 1],
        ).len()
    }
}

proof fn lemma_comparisons_mono(keys_seq: Seq<i32>, i: int, k: int)
    requires
        0 <= i <= k,
    ensures
        insertion_comparisons(keys_seq, i) <= insertion_comparisons(keys_seq, k),
    decreases k - i,
{
    if i < k {
        lemma_comparisons_mono(keys_seq, i, k - 1);
    }
}

/// Number of nodes on the search path for `val`.
fn search_cost(node: &Option<Box<Node>>, val: i32) -> (c: usize)
    requires
        search_path(*node, val).len() <= usize::MAX,
    ensures
        c == search_path(*node, val).len(),
    decreases node,
{
    match node {
        None => 0,
        Some(n) => {
            if val < n.value {
                1 + search_cost(&n.left, val)
            } else if val > n.value {
                1 + search_cost(&n.right, val)
            } else {
                1
            }
        },
    }
}

/// Inserts `keys` one after another into an empty tree. Returns the tree
/// and the total number of key comparisons made by the searches that
/// precede the insertions.
pub fn build_and_count(keys_arr: &[i32]) -> (res: (BST, usize))
    requires
        insertion_comparisons(keys_arr@, keys_arr@.len() as int) <= usize::MAX,
    ensures
        res.0.root == built(keys_arr@, keys_arr@.len() as int),
        is_bst(res.0.root),
        keys(res.0.root) == keys_arr@.to_set(),
        res.1 == insertion_comparisons(keys_arr@, keys_arr@.len() as int),
{
    let mut tree = BST::new();
    let mut total_comparisons: usize = 0;
    let n = keys_arr.len();
    let mut i: usize = 0;
    while i < n
        invariant
            n == keys_arr@.len(),
            i <= n,
            insertion_comparisons(keys_arr@, n as int) <= usize::MAX,
            tree.root == built(keys_arr@, i as int),
            is_bst(tree.root),
            keys(tree.root) == keys_arr@.subrange(0, i as int).to_set(),
            total_comparisons == insertion_comparisons(keys_arr@, i as int),
        decreases n - i,
    {
        let val = keys_arr[i];
        proof {
            lemma_comparisons_mono(keys_arr@, i + 1, n as int);
        }
        let cost = search_cost(&tree.root, val);
        total_comparisons += cost;
        tree.insert(val);
        proof {
            assert(keys_arr@.subrange(0, i + 1) =~= keys_arr@.subrange(0, i as int).push(val));
            keys_arr@.subrange(0, i as int).lemma_push_to_set_commute(val);
        }
        i += 1;
    }
    proof {
        assert(keys_arr@.subrange(0, n as int) =~= keys_arr@);
    }
    (tree, total_comparisons)
}

} // verus!
