//! In a tree with distinct keys the paths that the maximum-path algorithm considers
//! (up one side of a node and down the other) are exactly the paths without
//! repeated keys that the brute-force search walks, so both find the same
//! maximum.
use vstd::prelude::*;
use crate::brute_force::{
    child_edge, is_key_path, key_step, lemma_child_edge_keys, root_is, tree_adjacent,
};
use crate::bst::{is_bst, keys, Node};
use crate::max_path::{is_down_path, is_tree_path, sum};

verus! {

/// No key occurs twice in the tree: at every node the two subtrees share no
/// key and neither holds the node's own key.
pub open spec fn distinct_keys(t: Option<Box<Node>>) -> bool
    decreases t,
{
    match t {
        None => true,
        Some(n) => {
            &&& distinct_keys(n.left)
            &&& distinct_keys(n.right)
            &&& !keys(n.left).contains(n.value)
            &&& !keys(n.right).contains(n.value)
            &&& forall|x: i32| keys(n.left).contains(x) ==> !keys(n.right).contains(x)
        },
    }
}

/// The keys of a search tree are distinct.
pub proof fn lemma_bst_keys_distinct(t: Option<Box<Node>>)
    requires
        is_bst(t),
    ensures
        distinct_keys(t),
    decreases t,
{
    if let Some(n) = t {
        lemma_bst_keys_distinct(n.left);
        lemma_bst_keys_distinct(n.right);
    }
}

proof fn lemma_adjacent_keys(t: Option<Box<Node>>, u: i32, v: i32)
    requires
        tree_adjacent(t, u, v),
    ensures
        keys(t).contains(u),
        keys(t).contains(v),
{
    if child_edge(t, u, v) {
        lemma_child_edge_keys(t, u, v);
    } else {
        lemma_child_edge_keys(t, v, u);
    }
}

proof fn lemma_root_key(c: Option<Box<Node>>, v: i32)
    requires
        root_is(c, v),
    ensures
        keys(c).contains(v),
{
}

/// `c` and `o` are the two subtrees of `n`, in either order.
pub open spec fn sides(n: Box<Node>, c: Option<Box<Node>>, o: Option<Box<Node>>) -> bool {
    (c == n.left && o == n.right) || (c == n.right && o == n.left)
}

/// With distinct keys the two subtrees share no key, and neither holds the
/// key of their parent.
proof fn lemma_sides_disjoint(n: Box<Node>, c: Option<Box<Node>>, o: Option<Box<Node>>, x: i32)
    requires
        distinct_keys(Some(n)),
        sides(n, c, o),
    ensures
        !(keys(c).contains(x) && keys(o).contains(x)),
        !keys(c).contains(n.value),
        !keys(o).contains(n.value),
{
}

/// A step between two keys other than the parent's, starting inside one
/// subtree, stays inside it.
proof fn lemma_step_in_side(n: Box<Node>, c: Option<Box<Node>>, o: Option<Box<Node>>, u: i32, v: i32)
    requires
        distinct_keys(Some(n)),
        sides(n, c, o),
        tree_adjacent(Some(n), u, v),
        u != n.value,
        v != n.value,
        keys(c).contains(u),
    ensures
        tree_adjacent(c, u, v),
        keys(c).contains(v),
{
    lemma_sides_disjoint(n, c, o, u);
    if tree_adjacent(o, u, v) {
        lemma_adjacent_keys(o, u, v);
    }
    assert(tree_adjacent(c, u, v));
    lemma_adjacent_keys(c, u, v);
}

proof fn lemma_stays_upto(n: Box<Node>, c: Option<Box<Node>>, o: Option<Box<Node>>, p: Seq<i32>, j: int)
    requires
        distinct_keys(Some(n)),
        sides(n, c, o),
        is_key_path(Some(n), p),
        !p.contains(n.value),
        keys(c).contains(p[0]),
        0 <= j < p.len(),
    ensures
        forall|k: int| 0 <= k <= j ==> keys(c).contains(#[trigger] p[k]),
    decreases j,
{
    if j > 0 {
        lemma_stays_upto(n, c, o, p, j - 1);
        assert(key_step(Some(n), p, j - 1));
        assert(p[j - 1] != n.value);
        assert(p[j] != n.value);
        lemma_step_in_side(n, c, o, p[j - 1], p[j]);
    }
}

/// A path of the tree that avoids the root's key and starts in one subtree
/// is a path of that subtree.
proof fn lemma_stays_in_side(n: Box<Node>, c: Option<Box<Node>>, o: Option<Box<Node>>, p: Seq<i32>)
    requires
        distinct_keys(Some(n)),
        sides(n, c, o),
        is_key_path(Some(n), p),
        !p.contains(n.value),
        keys(c).contains(p[0]),
    ensures
        is_key_path(c, p),
{
    lemma_stays_upto(n, c, o, p, p.len() - 1);
    assert forall|i: int| 0 <= i < p.len() - 1 implies #[trigger] key_step(c, p, i) by {
        assert(key_step(Some(n), p, i));
        assert(p[i] != n.value);
        assert(p[i + 1] != n.value);
        assert(keys(c).contains(p[i]));
        lemma_step_in_side(n, c, o, p[i], p[i + 1]);
    }
}

/// Dropping the first key of a path of at least two keys leaves a path.
proof fn lemma_key_path_tail(t: Option<Box<Node>>, p: Seq<i32>)
    requires
        is_key_path(t, p),
        p.len() >= 2,
    ensures
        is_key_path(t, p.drop_first()),
{
    let q = p.drop_first();
    assert forall|i: int, j: int| 0 <= i < j < q.len() implies q[i] != q[j] by {
        assert(p[i + 1] != p[j + 1]);
    }
    assert forall|i: int| 0 <= i < q.len() implies keys(t).contains(#[trigger] q[i]) by {
        assert(keys(t).contains(p[i + 1]));
    }
    assert forall|i: int| 0 <= i < q.len() - 1 implies #[trigger] key_step(t, q, i) by {
        assert(key_step(t, p, i + 1));
    }
}

/// From the key of a node, a step inside its subtree goes to the key of
/// one of its children.
proof fn lemma_step_from_root(m: Box<Node>, v: i32)
    requires
        distinct_keys(Some(m)),
        tree_adjacent(Some(m), m.value, v),
        v != m.value,
    ensures
        root_is(m.left, v) || root_is(m.right, v),
{
    lemma_sides_disjoint(m, m.left, m.right, v);
    if child_edge(m.left, m.value, v) {
        lemma_child_edge_keys(m.left, m.value, v);
    }
    if child_edge(m.right, m.value, v) {
        lemma_child_edge_keys(m.right, m.value, v);
    }
    if child_edge(m.left, v, m.value) {
        lemma_child_edge_keys(m.left, v, m.value);
    }
    if child_edge(m.right, v, m.value) {
        lemma_child_edge_keys(m.right, v, m.value);
    }
}

/// A path of a subtree that starts at the subtree's root goes straight
/// down.
proof fn lemma_root_start_is_down(c: Option<Box<Node>>, p: Seq<i32>)
    requires
        distinct_keys(c),
        is_key_path(c, p),
        root_is(c, p[0]),
    ensures
        is_down_path(c, p),
    decreases c,
{
    let m = c->0;
    if p.len() == 1 {
        assert(p.drop_first() =~= Seq::<i32>::empty());
        assert(is_down_path(m.left, p.drop_first()));
    } else {
        assert(key_step(c, p, 0));
        assert(p[1] != p[0]);
        lemma_step_from_root(m, p[1]);
        let q = p.drop_first();
        lemma_key_path_tail(c, p);
        assert(!q.contains(m.value)) by {
            if q.contains(m.value) {
                let k = choose|k: int| 0 <= k < q.len() && q[k] == m.value;
                assert(p[k + 1] == p[0]);
            }
        }
        if root_is(m.left, p[1]) {
            lemma_root_key(m.left, p[1]);
            lemma_stays_in_side(m, m.left, m.right, q);
            lemma_root_start_is_down(m.left, q);
        } else {
            lemma_root_key(m.right, p[1]);
            lemma_stays_in_side(m, m.right, m.left, q);
            lemma_root_start_is_down(m.right, q);
        }
    }
}

/// A non-empty stretch of a path is a path.
proof fn lemma_key_path_sub(t: Option<Box<Node>>, p: Seq<i32>, a: int, b: int)
    requires
        is_key_path(t, p),
        0 <= a < b <= p.len(),
    ensures
        is_key_path(t, p.subrange(a, b)),
{
    let q = p.subrange(a, b);
    assert forall|i: int, j: int| 0 <= i < j < q.len() implies q[i] != q[j] by {
        assert(p[a + i] != p[a + j]);
    }
    assert forall|i: int| 0 <= i < q.len() implies keys(t).contains(#[trigger] q[i]) by {
        assert(keys(t).contains(p[a + i]));
    }
    assert forall|i: int| 0 <= i < q.len() - 1 implies #[trigger] key_step(t, q, i) by {
        assert(key_step(t, p, a + i));
    }
}

/// A path read backwards is a path.
proof fn lemma_key_path_reverse(t: Option<Box<Node>>, p: Seq<i32>)
    requires
        is_key_path(t, p),
    ensures
        is_key_path(t, p.reverse()),
{
    let q = p.reverse();
    let n = p.len() as int;
    assert forall|i: int, j: int| 0 <= i < j < q.len() implies q[i] != q[j] by {
        assert(p[n - 1 - i] != p[n - 1 - j]);
    }
    assert forall|i: int| 0 <= i < q.len() implies keys(t).contains(#[trigger] q[i]) by {
        assert(keys(t).contains(p[n - 1 - i]));
    }
    assert forall|i: int| 0 <= i < q.len() - 1 implies #[trigger] key_step(t, q, i) by {
        assert(key_step(t, p, n - 2 - i));
    }
}

/// The keys next to the root's key on a path are keys of its children.
proof fn lemma_neighbour_of_root(n: Box<Node>, p: Seq<i32>, i: int, j: int)
    requires
        distinct_keys(Some(n)),
        is_key_path(Some(n), p),
        0 <= i < p.len(),
        p[i] == n.value,
        0 <= j < p.len(),
        j == i - 1 || j == i + 1,
    ensures
        root_is(n.left, p[j]) || root_is(n.right, p[j]),
{
    if j == i - 1 {
        assert(key_step(Some(n), p, j));
    } else {
        assert(key_step(Some(n), p, i));
    }
    assert(p[j] != p[i]);
    lemma_step_from_root(n, p[j]);
}

/// A stretch of a path beside the root's key, starting next to it, goes
/// straight down the subtree it starts in.
proof fn lemma_arm_is_down(n: Box<Node>, c: Option<Box<Node>>, o: Option<Box<Node>>, q: Seq<i32>)
    requires
        distinct_keys(Some(n)),
        sides(n, c, o),
        is_key_path(Some(n), q),
        !q.contains(n.value),
        root_is(c, q[0]),
    ensures
        is_down_path(c, q),
{
    lemma_root_key(c, q[0]);
    lemma_stays_in_side(n, c, o, q);
    lemma_root_start_is_down(c, q);
}

/// In a tree with distinct keys every path without repeated keys turns at
/// most once: it is a path in the sense of the maximum-path algorithm.
pub proof fn lemma_key_path_is_tree_path(t: Option<Box<Node>>, p: Seq<i32>)
    requires
        distinct_keys(t),
        is_key_path(t, p),
    ensures
        is_tree_path(t, p),
    decreases t,
{
    let n = t->0;
    if !p.contains(n.value) {
        assert(keys(t).contains(p[0]));
        if keys(n.left).contains(p[0]) {
            lemma_stays_in_side(n, n.left, n.right, p);
            lemma_key_path_is_tree_path(n.left, p);
        } else {
            assert(keys(n.right).contains(p[0]));
            lemma_stays_in_side(n, n.right, n.left, p);
            lemma_key_path_is_tree_path(n.right, p);
        }
    } else {
        let i = choose|i: int| 0 <= i < p.len() && p[i] == n.value;
        let len = p.len() as int;
        let pre = p.subrange(0, i);
        let post = p.subrange(i + 1, len);
        let a = pre.reverse();
        let b = post;
        assert(p =~= pre + seq![n.value] + post);
        assert(a.reverse() =~= pre);
        let e = Seq::<i32>::empty();
        assert(e.reverse() =~= e);
        assert(is_down_path(n.left, e) && is_down_path(n.right, e));
        let mut a_left = false;
        let mut a_right = false;
        if i > 0 {
            lemma_key_path_sub(t, p, 0, i);
            lemma_key_path_reverse(t, pre);
            assert(a[0] == p[i - 1]);
            assert(!a.contains(n.value)) by {
                if a.contains(n.value) {
                    let k = choose|k: int| 0 <= k < a.len() && a[k] == n.value;
                    assert(p[i - 1 - k] == p[i]);
                }
            }
            lemma_neighbour_of_root(n, p, i, i - 1);
            if root_is(n.left, p[i - 1]) {
                lemma_arm_is_down(n, n.left, n.right, a);
                a_left = true;
            } else {
                lemma_arm_is_down(n, n.right, n.left, a);
                a_right = true;
            }
        } else {
            assert(a =~= e);
        }
        let mut b_left = false;
        let mut b_right = false;
        if i + 1 < len {
            lemma_key_path_sub(t, p, i + 1, len);
            assert(b[0] == p[i + 1]);
            assert(!b.contains(n.value)) by {
                if b.contains(n.value) {
                    let k = choose|k: int| 0 <= k < b.len() && b[k] == n.value;
                    assert(p[i + 1 + k] == p[i]);
                }
            }
            lemma_neighbour_of_root(n, p, i, i + 1);
            if root_is(n.left, p[i + 1]) {
                lemma_arm_is_down(n, n.left, n.right, b);
                b_left = true;
            } else {
                lemma_arm_is_down(n, n.right, n.left, b);
                b_right = true;
            }
        } else {
            assert(b =~= e);
        }
        if a_left && b_left {
            assert(p[i - 1] == p[i + 1]);
        }
        if a_right && b_right {
            assert(p[i - 1] == p[i + 1]);
        }
        if !a_right && !b_left {
            assert(is_down_path(n.left, a) && is_down_path(n.right, b) && p == a.reverse() + seq![
                n.value,
            ] + b);
        } else {
            assert(is_down_path(n.left, b) && is_down_path(n.right, a) && p == a.reverse() + seq![
                n.value,
            ] + b);
        }
    }
}

/// Neighbours inside a subtree are neighbours in the whole tree.
proof fn lemma_adjacent_lift(n: Box<Node>, c: Option<Box<Node>>, u: i32, v: i32)
    requires
        c == n.left || c == n.right,
        tree_adjacent(c, u, v),
    ensures
        tree_adjacent(Some(n), u, v),
{
}

/// A non-empty straight-down path of a tree with distinct keys is a path without
/// repeated keys that starts at the root.
proof fn lemma_down_is_key_path(c: Option<Box<Node>>, d: Seq<i32>)
    requires
        distinct_keys(c),
        is_down_path(c, d),
        d.len() > 0,
    ensures
        is_key_path(c, d),
        root_is(c, d[0]),
    decreases c,
{
    let m = c->0;
    let rest = d.drop_first();
    assert(keys(c).contains(m.value));
    if rest.len() == 0 {
        assert forall|i: int| 0 <= i < d.len() implies keys(c).contains(#[trigger] d[i]) by {}
    } else {
        let ch = if is_down_path(m.left, rest) {
            m.left
        } else {
            m.right
        };
        assert(is_down_path(ch, rest));
        lemma_down_is_key_path(ch, rest);
        lemma_sides_disjoint(m, m.left, m.right, m.value);
        assert forall|i: int| 0 <= i < d.len() implies keys(c).contains(#[trigger] d[i]) by {
            if i > 0 {
                assert(keys(ch).contains(rest[i - 1]));
            }
        }
        assert forall|i: int, j: int| 0 <= i < j < d.len() implies d[i] != d[j] by {
            assert(keys(ch).contains(rest[j - 1]));
            if i > 0 {
                assert(rest[i - 1] != rest[j - 1]);
            }
        }
        assert forall|i: int| 0 <= i < d.len() - 1 implies #[trigger] key_step(c, d, i) by {
            if i == 0 {
                assert(child_edge(c, m.value, rest[0]));
            } else {
                assert(key_step(ch, rest, i - 1));
                lemma_adjacent_lift(m, ch, rest[i - 1], rest[i]);
            }
        }
    }
}

/// Lifting a path of a subtree to the whole tree.
proof fn lemma_key_path_lift(n: Box<Node>, c: Option<Box<Node>>, p: Seq<i32>)
    requires
        c == n.left || c == n.right,
        is_key_path(c, p),
    ensures
        is_key_path(Some(n), p),
{
    assert forall|i: int| 0 <= i < p.len() implies keys(Some(n)).contains(#[trigger] p[i]) by {
        assert(keys(c).contains(p[i]));
    }
    assert forall|i: int| 0 <= i < p.len() - 1 implies #[trigger] key_step(Some(n), p, i) by {
        assert(key_step(c, p, i));
        lemma_adjacent_lift(n, c, p[i], p[i + 1]);
    }
}

/// Coming up one subtree to the root and going down the other is a path
/// without repeated keys.
proof fn lemma_turn_is_key_path(n: Box<Node>, c1: Option<Box<Node>>, c2: Option<Box<Node>>, x: Seq<i32>, y: Seq<i32>)
    requires
        distinct_keys(Some(n)),
        sides(n, c1, c2),
        is_down_path(c1, x),
        is_down_path(c2, y),
    ensures
        is_key_path(Some(n), x.reverse() + seq![n.value] + y),
{
    let t = Some(n);
    let xr = x.reverse();
    let p = xr + seq![n.value] + y;
    let lx = x.len() as int;
    if x.len() > 0 {
        lemma_down_is_key_path(c1, x);
        lemma_key_path_reverse(c1, x);
    }
    if y.len() > 0 {
        lemma_down_is_key_path(c2, y);
    }
    assert forall|i: int| 0 <= i < p.len() implies keys(c1).contains(#[trigger] p[i]) || p[i] == n.value
        || keys(c2).contains(p[i]) by {
        if i < lx {
            assert(p[i] == xr[i]);
            assert(keys(c1).contains(xr[i]));
        } else if i > lx {
            assert(p[i] == y[i - lx - 1]);
            assert(keys(c2).contains(y[i - lx - 1]));
        }
    }
    assert forall|i: int| 0 <= i < p.len() implies keys(t).contains(#[trigger] p[i]) by {
        assert(keys(c1).contains(p[i]) || p[i] == n.value || keys(c2).contains(p[i]));
    }
    assert forall|i: int, j: int| 0 <= i < j < p.len() implies p[i] != p[j] by {
        lemma_sides_disjoint(n, c1, c2, p[i]);
        if j < lx {
            assert(xr[i] != xr[j]);
        } else if i > lx {
            assert(y[i - lx - 1] != y[j - lx - 1]);
        } else if i < lx && j > lx {
            assert(keys(c1).contains(p[i]));
            assert(keys(c2).contains(p[j]));
        } else if i < lx && j == lx {
            assert(keys(c1).contains(p[i]));
        } else {
            assert(keys(c2).contains(p[j]));
        }
    }
    assert forall|i: int| 0 <= i < p.len() - 1 implies #[trigger] key_step(t, p, i) by {
        if i < lx - 1 {
            assert(key_step(c1, xr, i));
            assert(p[i] == xr[i] && p[i + 1] == xr[i + 1]);
            lemma_adjacent_lift(n, c1, xr[i], xr[i + 1]);
        } else if i == lx - 1 {
            assert(p[i] == x[0]);
            assert(p[i + 1] == n.value);
            assert(root_is(c1, x[0]));
            assert(child_edge(t, n.value, x[0]));
        } else if i == lx {
            assert(p[i + 1] == y[0]);
            assert(root_is(c2, y[0]));
            assert(child_edge(t, n.value, y[0]));
        } else {
            assert(key_step(c2, y, i - lx - 1));
            assert(p[i] == y[i - lx - 1] && p[i + 1] == y[i - lx]);
            lemma_adjacent_lift(n, c2, y[i - lx - 1], y[i - lx]);
        }
    }
}

/// In a tree with distinct keys every path of the maximum-path algorithm
/// is a path without repeated keys.
pub proof fn lemma_tree_path_is_key_path(t: Option<Box<Node>>, p: Seq<i32>)
    requires
        distinct_keys(t),
        is_tree_path(t, p),
    ensures
        is_key_path(t, p),
    decreases t,
{
    let n = t->0;
    if is_tree_path(n.left, p) {
        lemma_tree_path_is_key_path(n.left, p);
        lemma_key_path_lift(n, n.left, p);
    } else if is_tree_path(n.right, p) {
        lemma_tree_path_is_key_path(n.right, p);
        lemma_key_path_lift(n, n.right, p);
    } else {
        let (a, b) = choose|a: Seq<i32>, b: Seq<i32>|
            is_down_path(n.left, a) && is_down_path(n.right, b) && (p == a.reverse() + seq![n.value]
                + b || p == b.reverse() + seq![n.value] + a);
        if p == a.reverse() + seq![n.value] + b {
            lemma_turn_is_key_path(n, n.left, n.right, a, b);
        } else {
            lemma_turn_is_key_path(n, n.right, n.left, b, a);
        }
    }
}

/// For a tree with distinct keys, such as any search tree, the optimal
/// maximum-path algorithm and the brute-force validator agree: the largest sum over the paths of the one
/// is the largest sum over the paths of the other.
pub proof fn lemma_validator_agrees(t: Option<Box<Node>>, s1: int, s2: int)
    requires
        distinct_keys(t),
        exists|p: Seq<i32>| is_tree_path(t, p) && sum(p) == s1,
        forall|p: Seq<i32>| is_tree_path(t, p) ==> sum(p) <= s1,
        exists|p: Seq<i32>| is_key_path(t, p) && sum(p) == s2,
        forall|p: Seq<i32>| is_key_path(t, p) ==> sum(p) <= s2,
    ensures
        s1 == s2,
{
    let p1 = choose|p: Seq<i32>| is_tree_path(t, p) && sum(p) == s1;
    let p2 = choose|p: Seq<i32>| is_key_path(t, p) && sum(p) == s2;
    lemma_tree_path_is_key_path(t, p1);
    lemma_key_path_is_tree_path(t, p2);
}

} // verus!
