//! Maximum path sum in a binary tree of `i32` keys: a path may start and
//! end at any nodes, and the best one is reconstructed.
use vstd::prelude::*;
use crate::bst::{Node, BST};

verus! {

/// Sum of a sequence of keys.
pub open spec fn sum(s: Seq<i32>) -> int
    decreases s.len(),
{
    if s.len() == 0 {
        0
    } else {
        s[0] + sum(s.drop_first())
    }
}

/// `d` is a downward path from the root of `t`: empty, or the root's key
/// followed by a downward path from one of its children.
pub open spec fn is_down_path(t: Option<Box<Node>>, d: Seq<i32>) -> bool
    decreases t,
{
    if d.len() == 0 {
        true
    } else {
        match t {
            None => false,
            Some(n) => d[0] == n.value && (is_down_path(n.left, d.drop_first()) || is_down_path(
                n.right,
                d.drop_first(),
            )),
        }
    }
}

/// `p` is a path of the tree, read along its nodes: it lies within one
/// subtree, or it turns at the root, coming up one side and going down the
/// other (either side may be empty), in either direction.
pub open spec fn is_tree_path(t: Option<Box<Node>>, p: Seq<i32>) -> bool
    decreases t,
{
    match t {
        None => false,
        Some(n) => {
            ||| is_tree_path(n.left, p)
            ||| is_tree_path(n.right, p)
            ||| exists|a: Seq<i32>, b: Seq<i32>|
                is_down_path(n.left, a) && is_down_path(n.right, b) && (p == a.reverse() + seq![
                    n.value,
                ] + b || p == b.reverse() + seq![n.value] + a)
        },
    }
}

/// A downward path if its sum is positive, else the empty path.
pub open spec fn if_gainful(d: Seq<i32>) -> Seq<i32> {
    if sum(d) > 0 {
        d
    } else {
        Seq::empty()
    }
}

/// The downward path from the root that the algorithm keeps: the root's
/// key, then the kept path of the left child when its gainful part sums to
/// more than the right one's, else that of the right child.
pub open spec fn kept_down(t: Option<Box<Node>>) -> Seq<i32>
    decreases t,
{
    match t {
        None => Seq::empty(),
        Some(n) => {
            let l = if_gainful(kept_down(n.left));
            let r = if_gainful(kept_down(n.right));
            if sum(l) > sum(r) {
                seq![n.value] + l
            } else {
                seq![n.value] + r
            }
        },
    }
}

/// The best (sum, path) after visiting the subtree, children first, from
/// the best `g` found so far: at each node the arch up the kept left path,
/// through the node and down the kept right path replaces the best when
/// its sum is larger.
pub open spec fn arch_scan(t: Option<Box<Node>>, g: (int, Seq<i32>)) -> (int, Seq<i32>)
    decreases t,
{
    match t {
        None => g,
        Some(n) => {
            let g2 = arch_scan(n.right, arch_scan(n.left, g));
            let l = if_gainful(kept_down(n.left));
            let r = if_gainful(kept_down(n.right));
            let s = n.value + sum(l) + sum(r);
            if s > g2.0 {
                (s, l.reverse() + seq![n.value] + r)
            } else {
                g2
            }
        },
    }
}

/// No path of the tree sums to more than `i32::MAX`.
pub open spec fn path_sums_fit(t: Option<Box<Node>>) -> bool {
    forall|p: Seq<i32>| is_tree_path(t, p) ==> sum(p) <= i32::MAX
}

pub(crate) proof fn lemma_sum_concat(a: Seq<i32>, b: Seq<i32>)
    ensures
        sum(a + b) == sum(a) + sum(b),
    decreases a.len(),
{
    if a.len() > 0 {
        lemma_sum_concat(a.drop_first(), b);
        assert((a + b).drop_first() =~= a.drop_first() + b);
    } else {
        assert(a + b =~= b);
    }
}

pub(crate) proof fn lemma_sum_single(x: i32)
    ensures
        sum(seq![x]) == x,
{
    assert(seq![x].drop_first() =~= Seq::<i32>::empty());
    assert(sum(Seq::<i32>::empty()) == 0);
}

proof fn lemma_sum_reverse(a: Seq<i32>)
    ensures
        sum(a.reverse()) == sum(a),
    decreases a.len(),
{
    if a.len() > 0 {
        lemma_sum_reverse(a.drop_first());
        assert(a.reverse() =~= a.drop_first().reverse() + seq![a[0]]);
        lemma_sum_concat(a.drop_first().reverse(), seq![a[0]]);
        lemma_sum_single(a[0]);
    }
}

/// A downward path is a path of the tree (turning at its first node).
proof fn lemma_down_is_tree_path(t: Option<Box<Node>>, d: Seq<i32>)
    requires
        is_down_path(t, d),
        d.len() > 0,
    ensures
        is_tree_path(t, d),
{
    let n = t->0;
    let e = Seq::<i32>::empty();
    assert(e.reverse() =~= e);
    assert(is_down_path(n.left, e));
    assert(is_down_path(n.right, e));
    assert(d =~= e.reverse() + seq![n.value] + d.drop_first());
    if is_down_path(n.right, d.drop_first()) {
        assert(is_down_path(n.left, e) && is_down_path(n.right, d.drop_first()) && (d == e.reverse()
            + seq![n.value] + d.drop_first() || d == d.drop_first().reverse() + seq![n.value] + e));
    } else {
        assert(is_down_path(n.left, d.drop_first()) && is_down_path(n.right, e) && (d
            == d.drop_first().reverse() + seq![n.value] + e || d == e.reverse() + seq![n.value]
            + d.drop_first()));
    }
}

/// Paths are never empty.
proof fn lemma_tree_path_nonempty(t: Option<Box<Node>>, p: Seq<i32>)
    requires
        is_tree_path(t, p),
    ensures
        p.len() > 0,
    decreases t,
{
    let n = t->0;
    if is_tree_path(n.left, p) {
        lemma_tree_path_nonempty(n.left, p);
    } else if is_tree_path(n.right, p) {
        lemma_tree_path_nonempty(n.right, p);
    }
}

/// Paths of a subtree are paths of the tree.
proof fn lemma_sub_paths(n: Box<Node>)
    ensures
        forall|p: Seq<i32>| is_tree_path(n.left, p) ==> is_tree_path(Some(n), p),
        forall|p: Seq<i32>| is_tree_path(n.right, p) ==> is_tree_path(Some(n), p),
{
}

/// The reversed copy of a vector.
fn reversed(v: &Vec<i32>) -> (r: Vec<i32>)
    ensures
        r@ == v@.reverse(),
{
    let mut r: Vec<i32> = Vec::new();
    let n = v.len();
    let mut i = n;
    while i > 0
        invariant
            i <= n,
            n == v@.len(),
            r@ == v@.subrange(i as int, n as int).reverse(),
        decreases i,
    {
        i -= 1;
        r.push(v[i]);
        proof {
            assert(v@.subrange(i as int, n as int).reverse() =~= v@.subrange(i + 1, n as int).reverse().push(
                v@[i as int],
            ));
        }
    }
    proof {
        assert(v@.subrange(0, n as int) =~= v@);
    }
    r
}

/// The largest sum of a path of the tree, with such a path; `(0, [])` for
/// an empty tree. A path may start and end at any nodes.
pub fn optimal_max_path(tree: &BST) -> (res: (i32, Vec<i32>))
    requires
        path_sums_fit(tree.root),
    ensures
        tree.root is None ==> res.0 == 0 && res.1@.len() == 0,
        tree.root is Some ==> {
            &&& exists|p: Seq<i32>| is_tree_path(tree.root, p) && sum(p) == res.0
            &&& forall|p: Seq<i32>| is_tree_path(tree.root, p) ==> sum(p) <= res.0
            &&& res.1@.len() > 0 ==> is_tree_path(tree.root, res.1@) && sum(res.1@) == res.0
            &&& res.1@.len() == 0 ==> res.0 == i32::MIN
            &&& (res.0 as int, res.1@) == arch_scan(tree.root, (i32::MIN as int, Seq::empty()))
        },
{
    if tree.root.is_none() {
        return (0, Vec::new());
    }
    let mut global_max = i32::MIN;
    let mut global_path: Vec<i32> = Vec::new();
    let _ = optimal_max_path_rec(&tree.root, &mut global_max, &mut global_path);
    proof {
        let n = tree.root->0;
        let single = seq![n.value];
        lemma_sum_single(n.value);
        assert(is_down_path(tree.root, single)) by {
            assert(single.drop_first() =~= Seq::<i32>::empty());
            assert(is_down_path(n.left, single.drop_first()));
        }
        lemma_down_is_tree_path(tree.root, single);
        if global_path@.len() == 0 {
            assert(global_path@ =~= Seq::<i32>::empty());
            if is_tree_path(tree.root, global_path@) {
                lemma_tree_path_nonempty(tree.root, global_path@);
            }
            assert(sum(single) <= global_max);
            assert(global_max == i32::MIN);
            assert(is_tree_path(tree.root, single) && sum(single) == global_max);
        } else {
            assert(is_tree_path(tree.root, global_path@) && sum(global_path@) == global_max);
        }
    }
    (global_max, global_path)
}

/// Returns the best downward path from the root of `node_opt` (its sum and
/// keys) and raises `global_max` / `global_path` to the best path found in
/// the subtree, when that beats it.
fn optimal_max_path_rec(
    node_opt: &Option<Box<Node>>,
    global_max: &mut i32,
    global_path: &mut Vec<i32>,
) -> (res: (i32, Vec<i32>))
    requires
        path_sums_fit(*node_opt),
    ensures
        res.0 == sum(res.1@),
        is_down_path(*node_opt, res.1@),
        node_opt is None ==> res.0 == 0 && res.1@.len() == 0,
        node_opt is Some ==> res.1@.len() > 0,
        forall|d: Seq<i32>| is_down_path(*node_opt, d) && d.len() > 0 ==> sum(d) <= res.0,
        *old(global_max) <= *final(global_max),
        forall|p: Seq<i32>| is_tree_path(*node_opt, p) ==> sum(p) <= *final(global_max),
        (*final(global_max) == *old(global_max) && final(global_path)@ == old(global_path)@) || (
        is_tree_path(*node_opt, final(global_path)@) && sum(final(global_path)@)
            == *final(global_max)),
        res.1@ == kept_down(*node_opt),
        (*final(global_max) as int, final(global_path)@) == arch_scan(
            *node_opt,
            (*old(global_max) as int, old(global_path)@),
        ),
    decreases node_opt,
{
    let node = match node_opt {
        Some(n) => n,
        None => {
            proof {
                assert(sum(Seq::<i32>::empty()) == 0);
            }
            return (0, Vec::new());
        },
    };
    proof {
        lemma_sub_paths(*node);
    }
    let (left_sum, left_path) = optimal_max_path_rec(&node.left, global_max, global_path);
    let (right_sum, right_path) = optimal_max_path_rec(&node.right, global_max, global_path);

    let (l_sum, l_path) = if left_sum > 0 {
        (left_sum, left_path)
    } else {
        (0, Vec::new())
    };
    let (r_sum, r_path) = if right_sum > 0 {
        (right_sum, right_path)
    } else {
        (0, Vec::new())
    };
    let ghost e = Seq::<i32>::empty();
    proof {
        assert(sum(e) == 0);
        assert(is_down_path(node.left, l_path@));
        assert(is_down_path(node.right, r_path@));
        // the best downward paths, the empty one included
        assert forall|d: Seq<i32>| is_down_path(node.left, d) implies sum(d) <= l_sum by {
            if d.len() == 0 {
                assert(d =~= e);
            }
        }
        assert forall|d: Seq<i32>| is_down_path(node.right, d) implies sum(d) <= r_sum by {
            if d.len() == 0 {
                assert(d =~= e);
            }
        }
    }
    let ghost arch = l_path@.reverse() + seq![node.value] + r_path@;
    proof {
        lemma_sum_concat(l_path@.reverse() + seq![node.value], r_path@);
        lemma_sum_concat(l_path@.reverse(), seq![node.value]);
        lemma_sum_reverse(l_path@);
        lemma_sum_single(node.value);
        assert(is_tree_path(*node_opt, arch));
        assert(sum(arch) == node.value + l_sum + r_sum);
    }
    let current_arch_sum = node.value + l_sum + r_sum;

    if current_arch_sum > *global_max {
        *global_max = current_arch_sum;
        let mut arch_path = reversed(&l_path);
        arch_path.push(node.value);
        let mut tail = r_path.clone();
        arch_path.append(&mut tail);
        proof {
            assert(arch_path@ =~= arch);
        }
        *global_path = arch_path;
    }
    proof {
        assert forall|p: Seq<i32>| is_tree_path(*node_opt, p) implies sum(p) <= *global_max by {
            if !is_tree_path(node.left, p) && !is_tree_path(node.right, p) {
                let (a, b) = choose|a: Seq<i32>, b: Seq<i32>|
                    is_down_path(node.left, a) && is_down_path(node.right, b) && (p == a.reverse()
                        + seq![node.value] + b || p == b.reverse() + seq![node.value] + a);
                lemma_sum_reverse(a);
                lemma_sum_reverse(b);
                lemma_sum_concat(a.reverse() + seq![node.value], b);
                lemma_sum_concat(a.reverse(), seq![node.value]);
                lemma_sum_concat(b.reverse() + seq![node.value], a);
                lemma_sum_concat(b.reverse(), seq![node.value]);
                lemma_sum_single(node.value);
            }
        }
    }

    if l_sum > r_sum {
        let mut ret_path = vec![node.value];
        let mut tail = l_path;
        ret_path.append(&mut tail);
        proof {
            assert(ret_path@.drop_first() =~= l_path@);
            assert forall|d: Seq<i32>| is_down_path(*node_opt, d) && d.len() > 0 implies sum(d)
                <= node.value + l_sum by {
                assert(d[0] == node.value);
                assert(is_down_path(node.left, d.drop_first()) || is_down_path(node.right, d.drop_first()));
                assert(sum(d) == d[0] + sum(d.drop_first()));
            }
        }
        (node.value + l_sum, ret_path)
    } else {
        let mut ret_path = vec![node.value];
        let mut tail = r_path;
        ret_path.append(&mut tail);
        proof {
            assert(ret_path@.drop_first() =~= r_path@);
            assert forall|d: Seq<i32>| is_down_path(*node_opt, d) && d.len() > 0 implies sum(d)
                <= node.value + r_sum by {
                assert(d[0] == node.value);
                assert(is_down_path(node.left, d.drop_first()) || is_down_path(node.right, d.drop_first()));
                assert(sum(d) == d[0] + sum(d.drop_first()));
            }
        }
        (node.value + r_sum, ret_path)
    }
}

} // verus!
