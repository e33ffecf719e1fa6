//! A copy of a tree with every third key, in level order, negated: the
//! mixed-sign trees on which the maximum path sum is tried.
use vstd::prelude::*;
use crate::bst::{
    height, lemma_level_count_bounds, lemma_levels_total_all, level_count, levels_total, size, Node,
    TreeAnalyzer, BST,
};

verus! {

/// The keys at depth `d`, from left to right.
pub open spec fn level_seq(t: Option<Box<Node>>, d: int) -> Seq<i32>
    decreases t,
{
    match t {
        None => Seq::empty(),
        Some(n) => if d < 0 {
            Seq::empty()
        } else if d == 0 {
            seq![n.value]
        } else {
            level_seq(n.left, d - 1) + level_seq(n.right, d - 1)
        },
    }
}

/// The two trees have the same nodes in the same places.
pub open spec fn same_shape(a: Option<Box<Node>>, b: Option<Box<Node>>) -> bool
    decreases a,
{
    match a {
        None => b is None,
        Some(x) => match b {
            None => false,
            Some(y) => same_shape(x.left, y.left) && same_shape(x.right, y.right),
        },
    }
}

/// The key at level-order position `position` (counting from 1): negated
/// at every third position, kept otherwise.
pub open spec fn mixed_value(v: i32, position: int) -> int {
    if position % 3 == 0 {
        -v
    } else {
        v as int
    }
}

/// The level-order position (from 1) of the `k`-th key of level `d`.
pub open spec fn level_position(t: Option<Box<Node>>, d: int, k: int) -> int {
    levels_total(t, d) + k + 1
}

/// No key that gets negated is `i32::MIN`.
pub open spec fn negations_fit(t: Option<Box<Node>>) -> bool {
    forall|d: int, k: int|
        0 <= d && 0 <= k < level_count(t, d) && level_position(t, d, k) % 3 == 0 ==> #[trigger] level_seq(t, d)[k]
            != i32::MIN
}

proof fn lemma_level_seq_len(t: Option<Box<Node>>, d: int)
    ensures
        level_seq(t, d).len() == level_count(t, d),
    decreases t,
{
    if let Some(n) = t {
        lemma_level_seq_len(n.left, d - 1);
        lemma_level_seq_len(n.right, d - 1);
    }
}

proof fn lemma_same_shape_counts(a: Option<Box<Node>>, b: Option<Box<Node>>, d: int)
    requires
        same_shape(a, b),
    ensures
        level_count(a, d) == level_count(b, d),
        height(a) == height(b),
    decreases a,
{
    if let Some(x) = a {
        let y = b->0;
        lemma_same_shape_counts(x.left, y.left, d - 1);
        lemma_same_shape_counts(x.right, y.right, d - 1);
    }
}

proof fn lemma_levels_total_bound(t: Option<Box<Node>>, d: int)
    requires
        0 <= d,
    ensures
        levels_total(t, d) + level_count(t, d) <= size(t),
    decreases d,
{
    lemma_level_count_bounds(t, d);
    lemma_levels_total_all(t, d + 1 + height(t));
    lemma_levels_total_mono(t, d + 1, d + 1 + height(t));
}

proof fn lemma_levels_total_mono(t: Option<Box<Node>>, a: int, b: int)
    requires
        a <= b,
    ensures
        levels_total(t, a) <= levels_total(t, b),
    decreases b - a,
{
    if a < b {
        lemma_levels_total_mono(t, a, b - 1);
    }
}

/// Copies the subtree at depth `depth`, negating each key whose level-order
/// position is a multiple of 3: the position of the `k`-th key of level `d`
/// is `offsets[d] + seen[d] + k + 1`, and `seen` counts the keys of each
/// level already passed on the left.
fn copy_mixed(
    node: &Option<Box<Node>>,
    depth: usize,
    offsets: &Vec<usize>,
    seen: &mut Vec<usize>,
) -> (r: Option<Box<Node>>)
    requires
        depth + height(*node) <= old(seen)@.len(),
        offsets@.len() == old(seen)@.len(),
        forall|e: int|
            0 <= e && depth + e < old(seen)@.len() ==> offsets@[depth + e] + old(seen)@[depth + e]
                + level_count(*node, e) <= usize::MAX,
        forall|e: int, k: int|
            0 <= e && 0 <= k < level_count(*node, e) && (offsets@[depth + e] + old(seen)@[depth + e] + k
                + 1) % 3 == 0 ==> #[trigger] level_seq(*node, e)[k] != i32::MIN,
    ensures
        final(seen)@.len() == old(seen)@.len(),
        forall|d: int| 0 <= d < depth ==> #[trigger] final(seen)@[d] == old(seen)@[d],
        forall|e: int|
            0 <= e && depth + e < old(seen)@.len() ==> #[trigger] final(seen)@[depth + e] == old(
                seen,
            )@[depth + e] + level_count(*node, e),
        same_shape(*node, r),
        forall|e: int, k: int|
            0 <= e && 0 <= k < level_count(*node, e) ==> #[trigger] level_seq(r, e)[k] == mixed_value(
                level_seq(*node, e)[k],
                offsets@[depth + e] + old(seen)@[depth + e] + k + 1,
            ),
    decreases node,
{
    match node {
        None => {
            proof {
                assert forall|e: int| 0 <= e && depth + e < old(seen)@.len() implies #[trigger] seen@[depth
                    + e] == old(seen)@[depth + e] + level_count(*node, e) by {}
            }
            None
        },
        Some(n) => {
            let ghost s0 = seen@;
            proof {
                assert(level_count(*node, 0) == 1);
                assert(depth + 0 < s0.len());
                assert(offsets@[depth + 0] + s0[depth + 0] + level_count(*node, 0) <= usize::MAX);
            }
            let position = offsets[depth] + seen[depth] + 1;
            proof {
                assert(level_seq(*node, 0)[0] == n.value);
                assert(level_count(*node, 0) == 1);
            }
            let value = if position % 3 == 0 {
                -n.value
            } else {
                n.value
            };
            let count = seen[depth] + 1;
            seen.set(depth, count);
            let ghost s1 = seen@;
            proof {
                assert forall|e: int| 0 <= e && depth + 1 + e < s1.len() implies offsets@[depth + 1 + e]
                    + s1[depth + 1 + e] + level_count(n.left, e) <= usize::MAX by {
                    assert(level_count(*node, e + 1) == level_count(n.left, e) + level_count(n.right, e));
                    assert(s1[depth + 1 + e] == s0[depth + (e + 1)]);
                }
                assert forall|e: int, k: int|
                    0 <= e && 0 <= k < level_count(n.left, e) && (offsets@[depth + 1 + e] + s1[depth + 1
                        + e] + k + 1) % 3 == 0 implies #[trigger] level_seq(n.left, e)[k] != i32::MIN by {
                    lemma_level_count_bounds(n.left, e);
                    lemma_level_seq_len(n.left, e);
                    assert(level_seq(*node, e + 1) == level_seq(n.left, e) + level_seq(n.right, e));
                    assert(level_seq(*node, e + 1)[k] == level_seq(n.left, e)[k]);
                    assert(level_count(*node, e + 1) == level_count(n.left, e) + level_count(n.right, e));
                    assert(s1[depth + 1 + e] == s0[depth + (e + 1)]);
                }
                lemma_height_child(*node);
            }
            assert(depth + 1 <= seen.len());
            let left = copy_mixed(&n.left, depth + 1, offsets, seen);
            let ghost s2 = seen@;
            proof {
                assert forall|e: int| 0 <= e && depth + 1 + e < s2.len() implies offsets@[depth + 1 + e]
                    + s2[depth + 1 + e] + level_count(n.right, e) <= usize::MAX by {
                    assert(level_count(*node, e + 1) == level_count(n.left, e) + level_count(n.right, e));
                    assert(s2[depth + 1 + e] == s1[depth + 1 + e] + level_count(n.left, e));
                    assert(s1[depth + 1 + e] == s0[depth + (e + 1)]);
                }
                assert forall|e: int, k: int|
                    0 <= e && 0 <= k < level_count(n.right, e) && (offsets@[depth + 1 + e] + s2[depth + 1
                        + e] + k + 1) % 3 == 0 implies #[trigger] level_seq(n.right, e)[k] != i32::MIN by {
                    lemma_level_count_bounds(n.right, e);
                    lemma_level_seq_len(n.left, e);
                    lemma_level_seq_len(n.right, e);
                    let kk = level_count(n.left, e) + k;
                    assert(level_seq(*node, e + 1) == level_seq(n.left, e) + level_seq(n.right, e));
                    assert(level_seq(*node, e + 1)[kk] == level_seq(n.right, e)[k]);
                    assert(level_count(*node, e + 1) == level_count(n.left, e) + level_count(n.right, e));
                    assert(s2[depth + 1 + e] == s1[depth + 1 + e] + level_count(n.left, e));
                    assert(s1[depth + 1 + e] == s0[depth + (e + 1)]);
                }
            }
            let right = copy_mixed(&n.right, depth + 1, offsets, seen);
            let r = Some(Box::new(Node { value, left, right }));
            proof {
                let rn = r->0;
                assert forall|d: int| 0 <= d < depth implies #[trigger] seen@[d] == old(seen)@[d] by {}
                assert forall|e: int| 0 <= e && depth + e < old(seen)@.len() implies #[trigger] seen@[depth
                    + e] == old(seen)@[depth + e] + level_count(*node, e) by {
                    if e == 0 {
                        lemma_level_count_bounds(n.left, -1);
                        lemma_level_count_bounds(n.right, -1);
                    } else {
                        assert(level_count(*node, e) == level_count(n.left, e - 1) + level_count(
                            n.right,
                            e - 1,
                        ));
                        assert(seen@[depth + 1 + (e - 1)] == s2[depth + 1 + (e - 1)] + level_count(
                            n.right,
                            e - 1,
                        ));
                    }
                }
                assert forall|e: int, k: int|
                    0 <= e && 0 <= k < level_count(*node, e) implies #[trigger] level_seq(r, e)[k]
                    == mixed_value(
                    level_seq(*node, e)[k],
                    offsets@[depth + e] + old(seen)@[depth + e] + k + 1,
                ) by {
                    lemma_level_count_bounds(*node, e);
                    if e > 0 {
                        lemma_level_seq_len(n.left, e - 1);
                        lemma_level_seq_len(n.right, e - 1);
                        lemma_level_seq_len(rn.left, e - 1);
                        lemma_level_seq_len(rn.right, e - 1);
                        lemma_same_shape_counts(n.left, rn.left, e - 1);
                        lemma_same_shape_counts(n.right, rn.right, e - 1);
                        assert(level_seq(r, e) == level_seq(rn.left, e - 1) + level_seq(rn.right, e - 1));
                        assert(level_seq(*node, e) == level_seq(n.left, e - 1) + level_seq(
                            n.right,
                            e - 1,
                        ));
                        assert(level_count(*node, e) == level_count(n.left, e - 1) + level_count(
                            n.right,
                            e - 1,
                        ));
                        assert(s1[depth + 1 + (e - 1)] == s0[depth + e]);
                        assert(rn.left == left && rn.right == right);
                        assert(s0 == old(seen)@);
                        if k < level_count(n.left, e - 1) {
                            assert(level_seq(left, e - 1)[k] == mixed_value(
                                level_seq(n.left, e - 1)[k],
                                offsets@[depth + 1 + (e - 1)] + s1[depth + 1 + (e - 1)] + k + 1,
                            ));
                            assert(level_seq(r, e)[k] == level_seq(left, e - 1)[k]);
                            assert(level_seq(*node, e)[k] == level_seq(n.left, e - 1)[k]);
                        } else {
                            let k2 = k - level_count(n.left, e - 1);
                            assert(level_seq(right, e - 1)[k2] == mixed_value(
                                level_seq(n.right, e - 1)[k2],
                                offsets@[depth + 1 + (e - 1)] + s2[depth + 1 + (e - 1)] + k2 + 1,
                            ));
                            assert(s2[depth + 1 + (e - 1)] == s1[depth + 1 + (e - 1)] + level_count(
                                n.left,
                                e - 1,
                            ));
                            assert(level_seq(r, e)[k] == level_seq(right, e - 1)[k2]);
                            assert(level_seq(*node, e)[k] == level_seq(n.right, e - 1)[k2]);
                        }
                    } else {
                        assert(level_seq(r, 0) == seq![value]);
                        assert(level_seq(*node, 0) == seq![n.value]);
                        assert(k == 0);
                        assert(s0 == old(seen)@);
                    }
                }
            }
            r
        },
    }
}

proof fn lemma_height_child(t: Option<Box<Node>>)
    requires
        t is Some,
    ensures
        height(t->0.left) + 1 <= height(t),
        height(t->0.right) + 1 <= height(t),
{
}

/// A copy of the tree in which every third key, counting in level order
/// from the root as the first, is negated.
pub fn create_corrupted_tree(original_tree: &BST) -> (new_tree: BST)
    requires
        size(original_tree.root) <= usize::MAX,
        negations_fit(original_tree.root),
    ensures
        same_shape(original_tree.root, new_tree.root),
        forall|d: int, k: int|
            0 <= d && 0 <= k < level_count(original_tree.root, d) ==> #[trigger] level_seq(
                new_tree.root,
                d,
            )[k] == mixed_value(
                level_seq(original_tree.root, d)[k],
                level_position(original_tree.root, d, k),
            ),
{
    let ghost t = original_tree.root;
    let analyzer = TreeAnalyzer::new(original_tree);
    let dist = analyzer.depth_distribution();
    let h = dist.len();
    let mut offsets: Vec<usize> = Vec::new();
    let mut seen: Vec<usize> = Vec::new();
    let mut acc: usize = 0;
    let mut d: usize = 0;
    while d < h
        invariant
            h == dist@.len(),
            h == height(t),
            t == original_tree.root,
            size(t) <= usize::MAX,
            forall|e: int| 0 <= e < h ==> dist@[e] == level_count(t, e),
            d <= h,
            acc == levels_total(t, d as int),
            offsets@.len() == d,
            seen@.len() == d,
            forall|e: int| 0 <= e < d ==> #[trigger] offsets@[e] == levels_total(t, e),
            forall|e: int| 0 <= e < d ==> #[trigger] seen@[e] == 0,
        decreases h - d,
    {
        proof {
            lemma_levels_total_bound(t, d as int);
        }
        offsets.push(acc);
        seen.push(0);
        acc = acc + dist[d];
        d += 1;
    }
    proof {
        assert forall|e: int| 0 <= e && 0 + e < seen@.len() implies offsets@[0 + e] + seen@[0 + e]
            + level_count(t, e) <= usize::MAX by {
            lemma_levels_total_bound(t, e);
        }
        assert forall|e: int, k: int|
            0 <= e && 0 <= k < level_count(t, e) && (offsets@[0 + e] + seen@[0 + e] + k + 1) % 3 == 0 implies #[trigger] level_seq(
            t,
            e,
        )[k] != i32::MIN by {
            lemma_level_count_bounds(t, e);
            assert(level_position(t, e, k) % 3 == 0);
        }
    }
    let root = copy_mixed(&original_tree.root, 0, &offsets, &mut seen);
    proof {
        assert forall|e: int, k: int|
            0 <= e && 0 <= k < level_count(t, e) implies #[trigger] level_seq(root, e)[k] == mixed_value(
            level_seq(t, e)[k],
            level_position(t, e, k),
        ) by {
            lemma_level_count_bounds(t, e);
        }
    }
    BST { root }
}

} // verus!
