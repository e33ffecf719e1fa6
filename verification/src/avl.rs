//! AVL tree of `i32` keys: insertion with LL, RR, LR and RL rebalancing,
//! rotation counters, validity checks and depth statistics.
use vstd::prelude::*;

verus! {

/// A node with its stored height (a leaf has height 1).
pub struct AVLNode {
    pub value: i32,
    pub height: isize,
    pub left: Option<Box<AVLNode>>,
    pub right: Option<Box<AVLNode>>,
}

/// The tree and how often each kind of rebalancing happened.
pub struct AVLTree {
    pub root: Option<Box<AVLNode>>,
    pub ll_count: usize,
    pub rr_count: usize,
    pub lr_count: usize,
    pub rl_count: usize,
}

/// The larger of two integers.
pub open spec fn max_int(a: int, b: int) -> int {
    if a >= b { a } else { b }
}

/// The actual height of a subtree (an empty one has height 0).
pub open spec fn ht(t: Option<Box<AVLNode>>) -> nat
    decreases t,
{
    match t {
        None => 0,
        Some(n) => 1 + max_int(ht(n.left) as int, ht(n.right) as int) as nat,
    }
}

/// The height written in the subtree's root (0 for an empty one).
pub open spec fn stored_height(t: Option<Box<AVLNode>>) -> int {
    match t {
        None => 0,
        Some(n) => n.height as int,
    }
}

/// The keys of a subtree.
pub open spec fn keys(t: Option<Box<AVLNode>>) -> Set<i32>
    decreases t,
{
    match t {
        None => Set::empty(),
        Some(n) => keys(n.left).union(keys(n.right)).insert(n.value),
    }
}

/// Search-tree order: at every node, smaller keys left, larger keys right.
pub open spec fn is_bst(t: Option<Box<AVLNode>>) -> bool
    decreases t,
{
    match t {
        None => true,
        Some(n) => {
            &&& is_bst(n.left)
            &&& is_bst(n.right)
            &&& forall|x: i32| keys(n.left).contains(x) ==> x < n.value
            &&& forall|x: i32| keys(n.right).contains(x) ==> x > n.value
        },
    }
}

/// Every stored height is the actual height.
pub open spec fn heights_ok(t: Option<Box<AVLNode>>) -> bool
    decreases t,
{
    match t {
        None => true,
        Some(n) => {
            &&& heights_ok(n.left)
            &&& heights_ok(n.right)
            &&& n.height == ht(Some(n))
        },
    }
}

/// At every node the two subtrees differ in height by at most one.
pub open spec fn balanced(t: Option<Box<AVLNode>>) -> bool
    decreases t,
{
    match t {
        None => true,
        Some(n) => {
            &&& balanced(n.left)
            &&& balanced(n.right)
            &&& -1 <= ht(n.left) - ht(n.right) <= 1
        },
    }
}

/// A well-formed AVL tree: ordered, balanced, with correct stored heights.
pub open spec fn is_avl(t: Option<Box<AVLNode>>) -> bool {
    is_bst(t) && balanced(t) && heights_ok(t)
}

/// Height difference of the two subtrees of the root (0 when empty).
pub open spec fn bf(t: Option<Box<AVLNode>>) -> int {
    match t {
        None => 0,
        Some(n) => ht(n.left) - ht(n.right),
    }
}

proof fn lemma_heights_ok_stored(t: Option<Box<AVLNode>>)
    requires
        heights_ok(t),
    ensures
        stored_height(t) == ht(t),
{
}

/// A node over two AVL subtrees that differ in height by at most one, with
/// the keys in order and the correct height, is an AVL tree.
proof fn lemma_join(n: Box<AVLNode>)
    requires
        is_avl(n.left),
        is_avl(n.right),
        forall|x: i32| keys(n.left).contains(x) ==> x < n.value,
        forall|x: i32| keys(n.right).contains(x) ==> x > n.value,
        -1 <= ht(n.left) - ht(n.right) <= 1,
        n.height == 1 + max_int(ht(n.left) as int, ht(n.right) as int),
    ensures
        is_avl(Some(n)),
        ht(Some(n)) == n.height,
{
}

/// Single right rotation of a node whose left subtree is two higher than the
/// right one and leans left.
proof fn lemma_single_right(v: i32, a: Box<AVLNode>, r: Option<Box<AVLNode>>, res: Box<AVLNode>)
    requires
        is_avl(Some(a)),
        is_avl(r),
        forall|x: i32| keys(Some(a)).contains(x) ==> x < v,
        forall|x: i32| keys(r).contains(x) ==> x > v,
        ht(a.left) == ht(r) + 1,
        ht(a.right) == ht(r),
        res.value == a.value,
        res.left == a.left,
        res.right matches Some(yy) && {
            &&& yy.value == v
            &&& yy.left == a.right
            &&& yy.right == r
            &&& yy.height == 1 + max_int(stored_height(a.right), stored_height(r))
        },
        res.height == 1 + max_int(stored_height(res.left), stored_height(res.right)),
    ensures
        is_avl(Some(res)),
        keys(Some(res)) == keys(Some(a)).union(keys(r)).insert(v),
        ht(Some(res)) == ht(r) + 2,
{
    let yy = res.right->0;
    lemma_heights_ok_stored(a.right);
    lemma_heights_ok_stored(r);
    lemma_heights_ok_stored(a.left);
    assert(forall|x: i32| keys(a.right).contains(x) ==> keys(Some(a)).contains(x));
    lemma_join(yy);
    assert(forall|x: i32| keys(a.left).contains(x) ==> x < a.value);
    assert(v > a.value) by {
        assert(keys(Some(a)).contains(a.value));
    }
    assert forall|x: i32| keys(res.right).contains(x) implies x > res.value by {
        if keys(r).contains(x) {
        } else if x == v {
        } else {
            assert(keys(a.right).contains(x));
        }
    }
    lemma_join(res);
    assert(keys(res.right) == keys(yy.left).union(keys(yy.right)).insert(yy.value));
    assert(keys(Some(a)) == keys(a.left).union(keys(a.right)).insert(a.value));
    assert(keys(Some(res)) =~= keys(Some(a)).union(keys(r)).insert(v));
}

/// Single left rotation, the mirror image of `lemma_single_right`.
proof fn lemma_single_left(v: i32, l: Option<Box<AVLNode>>, a: Box<AVLNode>, res: Box<AVLNode>)
    requires
        is_avl(Some(a)),
        is_avl(l),
        forall|x: i32| keys(Some(a)).contains(x) ==> x > v,
        forall|x: i32| keys(l).contains(x) ==> x < v,
        ht(a.right) == ht(l) + 1,
        ht(a.left) == ht(l),
        res.value == a.value,
        res.right == a.right,
        res.left matches Some(xx) && {
            &&& xx.value == v
            &&& xx.left == l
            &&& xx.right == a.left
            &&& xx.height == 1 + max_int(stored_height(l), stored_height(a.left))
        },
        res.height == 1 + max_int(stored_height(res.left), stored_height(res.right)),
    ensures
        is_avl(Some(res)),
        keys(Some(res)) == keys(Some(a)).union(keys(l)).insert(v),
        ht(Some(res)) == ht(l) + 2,
{
    let xx = res.left->0;
    lemma_heights_ok_stored(a.right);
    lemma_heights_ok_stored(l);
    lemma_heights_ok_stored(a.left);
    assert(forall|x: i32| keys(a.left).contains(x) ==> keys(Some(a)).contains(x));
    lemma_join(xx);
    assert(forall|x: i32| keys(a.right).contains(x) ==> x > a.value);
    assert(v < a.value) by {
        assert(keys(Some(a)).contains(a.value));
    }
    assert forall|x: i32| keys(res.left).contains(x) implies x < res.value by {
        if keys(l).contains(x) {
        } else if x == v {
        } else {
            assert(keys(a.left).contains(x));
        }
    }
    lemma_join(res);
    assert(keys(res.left) == keys(xx.left).union(keys(xx.right)).insert(xx.value));
    assert(keys(Some(a)) == keys(a.left).union(keys(a.right)).insert(a.value));
    assert(keys(Some(res)) =~= keys(Some(a)).union(keys(l)).insert(v));
}

/// Left-right double rotation of a node whose left subtree is two higher
/// than the right one and leans right.
proof fn lemma_double_right(
    v: i32,
    a: Box<AVLNode>,
    c: Box<AVLNode>,
    r: Option<Box<AVLNode>>,
    res: Box<AVLNode>,
)
    requires
        is_avl(Some(a)),
        a.right == Some(c),
        is_avl(r),
        forall|x: i32| keys(Some(a)).contains(x) ==> x < v,
        forall|x: i32| keys(r).contains(x) ==> x > v,
        ht(a.left) == ht(r),
        ht(Some(c)) == ht(r) + 1,
        res.value == c.value,
        res.left matches Some(xx) && {
            &&& xx.value == a.value
            &&& xx.left == a.left
            &&& xx.right == c.left
            &&& xx.height == 1 + max_int(stored_height(a.left), stored_height(c.left))
        },
        res.right matches Some(yy) && {
            &&& yy.value == v
            &&& yy.left == c.right
            &&& yy.right == r
            &&& yy.height == 1 + max_int(stored_height(c.right), stored_height(r))
        },
        res.height == 1 + max_int(stored_height(res.left), stored_height(res.right)),
    ensures
        is_avl(Some(res)),
        keys(Some(res)) == keys(Some(a)).union(keys(r)).insert(v),
        ht(Some(res)) == ht(r) + 2,
{
    let xx = res.left->0;
    let yy = res.right->0;
    assert(is_avl(Some(c)));
    lemma_heights_ok_stored(a.left);
    lemma_heights_ok_stored(c.left);
    lemma_heights_ok_stored(c.right);
    lemma_heights_ok_stored(r);
    assert(keys(Some(a)).contains(a.value));
    assert(forall|x: i32| keys(Some(c)).contains(x) ==> keys(Some(a)).contains(x));
    assert(forall|x: i32| keys(Some(c)).contains(x) ==> x > a.value);
    assert(keys(Some(c)).contains(c.value));
    assert(forall|x: i32| keys(c.left).contains(x) ==> keys(Some(c)).contains(x));
    assert(forall|x: i32| keys(c.right).contains(x) ==> keys(Some(c)).contains(x));
    lemma_join(xx);
    lemma_join(yy);
    assert(keys(res.left) == keys(xx.left).union(keys(xx.right)).insert(xx.value));
    assert(keys(res.right) == keys(yy.left).union(keys(yy.right)).insert(yy.value));
    assert(keys(Some(a)) == keys(a.left).union(keys(a.right)).insert(a.value));
    assert(keys(Some(c)) == keys(c.left).union(keys(c.right)).insert(c.value));
    assert forall|x: i32| keys(res.left).contains(x) implies x < res.value by {
        if keys(a.left).contains(x) {
            assert(keys(Some(a)).contains(x));
        }
    }
    assert forall|x: i32| keys(res.right).contains(x) implies x > res.value by {
        if keys(r).contains(x) {
        } else if x == v {
        } else {
            assert(keys(c.right).contains(x));
        }
    }
    lemma_join(res);
    assert(keys(Some(res)) =~= keys(Some(a)).union(keys(r)).insert(v));
}

/// Right-left double rotation, the mirror image of `lemma_double_right`.
proof fn lemma_double_left(
    v: i32,
    l: Option<Box<AVLNode>>,
    a: Box<AVLNode>,
    c: Box<AVLNode>,
    res: Box<AVLNode>,
)
    requires
        is_avl(Some(a)),
        a.left == Some(c),
        is_avl(l),
        forall|x: i32| keys(Some(a)).contains(x) ==> x > v,
        forall|x: i32| keys(l).contains(x) ==> x < v,
        ht(a.right) == ht(l),
        ht(Some(c)) == ht(l) + 1,
        res.value == c.value,
        res.left matches Some(xx) && {
            &&& xx.value == v
            &&& xx.left == l
            &&& xx.right == c.left
            &&& xx.height == 1 + max_int(stored_height(l), stored_height(c.left))
        },
        res.right matches Some(yy) && {
            &&& yy.value == a.value
            &&& yy.left == c.right
            &&& yy.right == a.right
            &&& yy.height == 1 + max_int(stored_height(c.right), stored_height(a.right))
        },
        res.height == 1 + max_int(stored_height(res.left), stored_height(res.right)),
    ensures
        is_avl(Some(res)),
        keys(Some(res)) == keys(Some(a)).union(keys(l)).insert(v),
        ht(Some(res)) == ht(l) + 2,
{
    let xx = res.left->0;
    let yy = res.right->0;
    assert(is_avl(Some(c)));
    lemma_heights_ok_stored(a.right);
    lemma_heights_ok_stored(c.left);
    lemma_heights_ok_stored(c.right);
    lemma_heights_ok_stored(l);
    assert(keys(Some(a)).contains(a.value));
    assert(forall|x: i32| keys(Some(c)).contains(x) ==> keys(Some(a)).contains(x));
    assert(forall|x: i32| keys(Some(c)).contains(x) ==> x < a.value);
    assert(keys(Some(c)).contains(c.value));
    assert(forall|x: i32| keys(c.left).contains(x) ==> keys(Some(c)).contains(x));
    assert(forall|x: i32| keys(c.right).contains(x) ==> keys(Some(c)).contains(x));
    lemma_join(xx);
    lemma_join(yy);
    assert(keys(res.left) == keys(xx.left).union(keys(xx.right)).insert(xx.value));
    assert(keys(res.right) == keys(yy.left).union(keys(yy.right)).insert(yy.value));
    assert(keys(Some(a)) == keys(a.left).union(keys(a.right)).insert(a.value));
    assert(keys(Some(c)) == keys(c.left).union(keys(c.right)).insert(c.value));
    assert forall|x: i32| keys(res.right).contains(x) implies x > res.value by {
        if keys(a.right).contains(x) {
            assert(keys(Some(a)).contains(x));
        }
    }
    assert forall|x: i32| keys(res.left).contains(x) implies x < res.value by {
        if keys(l).contains(x) {
        } else if x == v {
        } else {
            assert(keys(c.left).contains(x));
        }
    }
    lemma_join(res);
    assert(keys(Some(res)) =~= keys(Some(a)).union(keys(l)).insert(v));
}

/// Insertion into an AVL tree gives an AVL tree holding one more key (none
/// when it was there), at most one higher and, when higher, leaning to one
/// side; at most one rebalancing happens, and after one the height is as
/// before.
pub proof fn lemma_avl_insert_keeps_avl(t: Option<Box<AVLNode>>, v: i32)
    requires
        is_avl(t),
        ht(t) + 3 < isize::MAX,
    ensures
        is_avl(avl_insert(t, v).0),
        keys(avl_insert(t, v).0) == keys(t).insert(v),
        ht(t) <= ht(avl_insert(t, v).0) <= ht(t) + 1,
        ht(avl_insert(t, v).0) == ht(t) + 1 && t is Some ==> bf(avl_insert(t, v).0) != 0,
        avl_insert(t, v).1.len() <= 1,
        avl_insert(t, v).1.len() == 1 ==> ht(avl_insert(t, v).0) == ht(t),
        keys(t).contains(v) ==> avl_insert(t, v).0 == t && avl_insert(t, v).1.len() == 0,
    decreases t,
{
    match t {
        None => {
            let leaf = avl_insert(t, v).0->0;
            assert(keys(leaf.left) == Set::<i32>::empty());
            assert(keys(avl_insert(t, v).0) =~= keys(t).insert(v));
        },
        Some(n0) => {
            if v < n0.value {
                lemma_avl_insert_keeps_avl(n0.left, v);
                lemma_insert_left_step(n0, v);
            } else if v > n0.value {
                lemma_avl_insert_keeps_avl(n0.right, v);
                lemma_insert_right_step(n0, v);
            } else {
                assert(keys(t).insert(v) =~= keys(t));
            }
        },
    }
}

/// One level of `lemma_avl_insert_keeps_avl`, for a key that goes left.
#[verifier::spinoff_prover]
#[verifier::rlimit(100)]
proof fn lemma_insert_left_step(n0: Box<AVLNode>, v: i32)
    requires
        is_avl(Some(n0)),
        ht(Some(n0)) + 3 < isize::MAX,
        v < n0.value,
        is_avl(avl_insert(n0.left, v).0),
        keys(avl_insert(n0.left, v).0) == keys(n0.left).insert(v),
        ht(n0.left) <= ht(avl_insert(n0.left, v).0) <= ht(n0.left) + 1,
        ht(avl_insert(n0.left, v).0) == ht(n0.left) + 1 && n0.left is Some ==> bf(
            avl_insert(n0.left, v).0,
        ) != 0,
        avl_insert(n0.left, v).1.len() <= 1,
        avl_insert(n0.left, v).1.len() == 1 ==> ht(avl_insert(n0.left, v).0) == ht(n0.left),
        keys(n0.left).contains(v) ==> avl_insert(n0.left, v).0 == n0.left && avl_insert(
            n0.left,
            v,
        ).1.len() == 0,
    ensures
        is_avl(avl_insert(Some(n0), v).0),
        keys(avl_insert(Some(n0), v).0) == keys(Some(n0)).insert(v),
        ht(Some(n0)) <= ht(avl_insert(Some(n0), v).0) <= ht(Some(n0)) + 1,
        ht(avl_insert(Some(n0), v).0) == ht(Some(n0)) + 1 ==> bf(avl_insert(Some(n0), v).0) != 0,
        avl_insert(Some(n0), v).1.len() <= 1,
        avl_insert(Some(n0), v).1.len() == 1 ==> ht(avl_insert(Some(n0), v).0) == ht(Some(n0)),
        keys(Some(n0)).contains(v) ==> avl_insert(Some(n0), v).0 == Some(n0) && avl_insert(
            Some(n0),
            v,
        ).1.len() == 0,
{
    let t = Some(n0);
    lemma_heights_ok_stored(n0.left);
    lemma_heights_ok_stored(n0.right);
    let sub = avl_insert(n0.left, v);
    lemma_heights_ok_stored(sub.0);
    let m = joined(n0.value, sub.0, n0.right);
    let (r, k) = rebalanced(m);
    assert(avl_insert(t, v) == if k == Rebalance::Unchanged {
        (Some(r), sub.1)
    } else {
        (Some(r), sub.1.push((k, Some(m), Some(r))))
    });
    if keys(t).contains(v) {
        assert(keys(t) == keys(n0.left).union(keys(n0.right)).insert(n0.value));
        if keys(n0.right).contains(v) {
            assert(v > n0.value);
        }
        assert(keys(n0.left).contains(v));
        assert(*m == *n0);
    }
    if sub.1.len() > 0 {
        assert(-1 <= stored_bf(Some(m)) <= 1);
    }
    assert forall|x: i32| keys(sub.0).contains(x) implies x < n0.value by {
        if x != v {
            assert(keys(n0.left).contains(x));
        }
    }
    assert(keys(Some(m)) =~= keys(t).insert(v));
                if k == Rebalance::Unchanged {
                    lemma_join(m);
                } else if k == Rebalance::LL {
                    let lp = m.left->0;
                    lemma_heights_ok_stored(lp.left);
                    lemma_heights_ok_stored(lp.right);
                    lemma_single_right(m.value, lp, m.right, r);
                } else {
                    assert(k == Rebalance::LR);
                    let lp = m.left->0;
                    lemma_heights_ok_stored(lp.left);
                    lemma_heights_ok_stored(lp.right);
                    let c = lp.right->0;
                    assert(is_avl(Some(c)));
                    lemma_heights_ok_stored(c.left);
                    lemma_heights_ok_stored(c.right);
                    lemma_double_right(m.value, lp, c, m.right, r);
                }
}

/// One level of `lemma_avl_insert_keeps_avl`, for a key that goes right.
#[verifier::spinoff_prover]
#[verifier::rlimit(100)]
proof fn lemma_insert_right_step(n0: Box<AVLNode>, v: i32)
    requires
        is_avl(Some(n0)),
        ht(Some(n0)) + 3 < isize::MAX,
        v > n0.value,
        is_avl(avl_insert(n0.right, v).0),
        keys(avl_insert(n0.right, v).0) == keys(n0.right).insert(v),
        ht(n0.right) <= ht(avl_insert(n0.right, v).0) <= ht(n0.right) + 1,
        ht(avl_insert(n0.right, v).0) == ht(n0.right) + 1 && n0.right is Some ==> bf(
            avl_insert(n0.right, v).0,
        ) != 0,
        avl_insert(n0.right, v).1.len() <= 1,
        avl_insert(n0.right, v).1.len() == 1 ==> ht(avl_insert(n0.right, v).0) == ht(n0.right),
        keys(n0.right).contains(v) ==> avl_insert(n0.right, v).0 == n0.right && avl_insert(
            n0.right,
            v,
        ).1.len() == 0,
    ensures
        is_avl(avl_insert(Some(n0), v).0),
        keys(avl_insert(Some(n0), v).0) == keys(Some(n0)).insert(v),
        ht(Some(n0)) <= ht(avl_insert(Some(n0), v).0) <= ht(Some(n0)) + 1,
        ht(avl_insert(Some(n0), v).0) == ht(Some(n0)) + 1 ==> bf(avl_insert(Some(n0), v).0) != 0,
        avl_insert(Some(n0), v).1.len() <= 1,
        avl_insert(Some(n0), v).1.len() == 1 ==> ht(avl_insert(Some(n0), v).0) == ht(Some(n0)),
        keys(Some(n0)).contains(v) ==> avl_insert(Some(n0), v).0 == Some(n0) && avl_insert(
            Some(n0),
            v,
        ).1.len() == 0,
{
    let t = Some(n0);
    lemma_heights_ok_stored(n0.left);
    lemma_heights_ok_stored(n0.right);
    let sub = avl_insert(n0.right, v);
    lemma_heights_ok_stored(sub.0);
    let m = joined(n0.value, n0.left, sub.0);
    let (r, k) = rebalanced(m);
    assert(avl_insert(t, v) == if k == Rebalance::Unchanged {
        (Some(r), sub.1)
    } else {
        (Some(r), sub.1.push((k, Some(m), Some(r))))
    });
    if keys(t).contains(v) {
        assert(keys(t) == keys(n0.left).union(keys(n0.right)).insert(n0.value));
        if keys(n0.left).contains(v) {
            assert(v < n0.value);
        }
        assert(keys(n0.right).contains(v));
        assert(*m == *n0);
    }
    if sub.1.len() > 0 {
        assert(-1 <= stored_bf(Some(m)) <= 1);
    }
    assert forall|x: i32| keys(sub.0).contains(x) implies x > n0.value by {
        if x != v {
            assert(keys(n0.right).contains(x));
        }
    }
    assert(keys(Some(m)) =~= keys(t).insert(v));
                if k == Rebalance::Unchanged {
                    lemma_join(m);
                } else if k == Rebalance::RR {
                    let rp = m.right->0;
                    lemma_heights_ok_stored(rp.left);
                    lemma_heights_ok_stored(rp.right);
                    lemma_single_left(m.value, m.left, rp, r);
                } else {
                    assert(k == Rebalance::RL);
                    let rp = m.right->0;
                    lemma_heights_ok_stored(rp.left);
                    lemma_heights_ok_stored(rp.right);
                    let c = rp.left->0;
                    assert(is_avl(Some(c)));
                    lemma_heights_ok_stored(c.left);
                    lemma_heights_ok_stored(c.right);
                    lemma_double_left(m.value, m.left, rp, c, r);
                }
}

/// `a` is `b` after the rebalancing of kind `k`, in the textbook sense: a
/// node whose left subtree is two higher than its right one gets an LL
/// rebalancing (one right rotation) when that left child does not lean
/// right and an LR one (a left rotation of the child, then a right
/// rotation) when it does; the mirror images are RR and RL; a node whose
/// subtrees differ by at most one stays as it is.
pub open spec fn rebalanced_as(k: Rebalance, b: Box<AVLNode>, a: Box<AVLNode>) -> bool {
    match k {
        Rebalance::LL => {
            &&& stored_bf(Some(b)) > 1
            &&& stored_bf(b.left) >= 0
            &&& b.left matches Some(x) && {
                &&& a.value == x.value
                &&& a.left == x.left
                &&& a.right matches Some(y) && y.value == b.value && y.left == x.right && y.right
                    == b.right
            }
        },
        Rebalance::LR => {
            &&& stored_bf(Some(b)) > 1
            &&& stored_bf(b.left) < 0
            &&& b.left matches Some(x) && x.right matches Some(c) && {
                &&& a.value == c.value
                &&& a.left matches Some(p) && p.value == x.value && p.left == x.left && p.right
                    == c.left
                &&& a.right matches Some(q) && q.value == b.value && q.left == c.right && q.right
                    == b.right
            }
        },
        Rebalance::RR => {
            &&& stored_bf(Some(b)) < -1
            &&& stored_bf(b.right) <= 0
            &&& b.right matches Some(y) && {
                &&& a.value == y.value
                &&& a.right == y.right
                &&& a.left matches Some(x) && x.value == b.value && x.right == y.left && x.left
                    == b.left
            }
        },
        Rebalance::RL => {
            &&& stored_bf(Some(b)) < -1
            &&& stored_bf(b.right) > 0
            &&& b.right matches Some(y) && y.left matches Some(c) && {
                &&& a.value == c.value
                &&& a.right matches Some(q) && q.value == y.value && q.right == y.right && q.left
                    == c.right
                &&& a.left matches Some(p) && p.value == b.value && p.left == b.left && p.right
                    == c.left
            }
        },
        Rebalance::Unchanged => -1 <= stored_bf(Some(b)) <= 1 && a == b,
    }
}

/// Rebalancing a node with correct stored heights does what its kind says.
proof fn lemma_rebalanced_is_textbook(m: Box<AVLNode>)
    requires
        heights_ok(Some(m)),
    ensures
        rebalanced_as(rebalanced(m).1, m, rebalanced(m).0),
{
    lemma_heights_ok_stored(m.left);
    lemma_heights_ok_stored(m.right);
    if stored_bf(Some(m)) > 1 {
        assert(m.left is Some);
        let x = m.left->0;
        assert(heights_ok(Some(x)));
        lemma_heights_ok_stored(x.left);
        lemma_heights_ok_stored(x.right);
    } else if stored_bf(Some(m)) < -1 {
        assert(m.right is Some);
        let y = m.right->0;
        assert(heights_ok(Some(y)));
        lemma_heights_ok_stored(y.left);
        lemma_heights_ok_stored(y.right);
    }
}

/// Every rebalancing that an insertion records happened at a node of the
/// tree being built, with correct stored heights, and is a real
/// rebalancing of the kind recorded: LL or LR exactly where the left
/// subtree was two higher, RR or RL exactly where the right one was, with
/// the rotations that the kind names.
pub proof fn lemma_insert_rebalancings_are_textbook(t: Option<Box<AVLNode>>, v: i32)
    requires
        heights_ok(t),
        ht(t) + 3 < isize::MAX,
    ensures
        forall|i: int|
            0 <= i < avl_insert(t, v).1.len() ==> {
                let e = #[trigger] avl_insert(t, v).1[i];
                &&& e.0 != Rebalance::Unchanged
                &&& e.1 is Some && e.2 is Some
                &&& heights_ok(e.1) && heights_ok(e.2)
                &&& rebalanced_as(e.0, e.1->0, e.2->0)
                &&& (e.0 == Rebalance::LL || e.0 == Rebalance::LR) <==> stored_bf(e.1) > 1
                &&& (e.0 == Rebalance::RR || e.0 == Rebalance::RL) <==> stored_bf(e.1) < -1
            },
    decreases t,
{
    if let Some(n0) = t {
        if v != n0.value {
            lemma_heights_ok_stored(n0.left);
            lemma_heights_ok_stored(n0.right);
            let child = if v < n0.value {
                n0.left
            } else {
                n0.right
            };
            lemma_insert_rebalancings_are_textbook(child, v);
            lemma_avl_insert_general(child, v);
            let sub = avl_insert(child, v);
            lemma_heights_ok_stored(sub.0);
            let m = if v < n0.value {
                joined(n0.value, sub.0, n0.right)
            } else {
                joined(n0.value, n0.left, sub.0)
            };
            assert(heights_ok(Some(m)));
            lemma_rebalanced_general(m);
            lemma_rebalanced_is_textbook(m);
            let (r, k) = rebalanced(m);
            let ev = avl_insert(t, v).1;
            if k == Rebalance::Unchanged {
                assert(ev == sub.1);
            } else {
                assert(ev == sub.1.push((k, Some(m), Some(r))));
                assert forall|i: int| 0 <= i < ev.len() - 1 implies ev[i] == sub.1[i] by {}
            }
        }
    }
}

/// Insertion into a subtree with correct stored heights keeps them correct
/// and grows the subtree by at most one level.
proof fn lemma_avl_insert_general(t: Option<Box<AVLNode>>, v: i32)
    requires
        heights_ok(t),
        ht(t) + 3 < isize::MAX,
    ensures
        heights_ok(avl_insert(t, v).0),
        ht(avl_insert(t, v).0) <= ht(t) + 1,
    decreases t,
{
    if let Some(n0) = t {
        if v != n0.value {
            lemma_heights_ok_stored(n0.left);
            lemma_heights_ok_stored(n0.right);
            let child = if v < n0.value {
                n0.left
            } else {
                n0.right
            };
            lemma_avl_insert_general(child, v);
            let sub = avl_insert(child, v);
            lemma_heights_ok_stored(sub.0);
            let m = if v < n0.value {
                joined(n0.value, sub.0, n0.right)
            } else {
                joined(n0.value, n0.left, sub.0)
            };
            assert(heights_ok(Some(m)));
            lemma_rebalanced_general(m);
        }
    }
}

/// The character of a decimal digit.
pub open spec fn digit_char(d: nat) -> char {
    ((d + 48) as u8) as char
}

/// Decimal digits of a natural number, most significant first.
pub open spec fn decimal_digits(n: nat) -> Seq<char>
    decreases n,
{
    if n < 10 {
        seq![digit_char(n)]
    } else {
        decimal_digits(n / 10).push(digit_char(n % 10))
    }
}

/// How an integer is written in decimal: a minus sign for negative
/// numbers, then the digits.
pub open spec fn decimal(v: int) -> Seq<char> {
    if v < 0 {
        seq!['-'] + decimal_digits((-v) as nat)
    } else {
        decimal_digits(v as nat)
    }
}

/// The decimal digit `d` as a one-character string.
fn digit_str(d: u32) -> (s: &'static str)
    requires
        d < 10,
    ensures
        s@ == seq![digit_char(d as nat)],
{
    match d {
        0 => {
            proof {
                reveal_strlit("0");
            }
            "0"
        },
        1 => {
            proof {
                reveal_strlit("1");
            }
            "1"
        },
        2 => {
            proof {
                reveal_strlit("2");
            }
            "2"
        },
        3 => {
            proof {
                reveal_strlit("3");
            }
            "3"
        },
        4 => {
            proof {
                reveal_strlit("4");
            }
            "4"
        },
        5 => {
            proof {
                reveal_strlit("5");
            }
            "5"
        },
        6 => {
            proof {
                reveal_strlit("6");
            }
            "6"
        },
        7 => {
            proof {
                reveal_strlit("7");
            }
            "7"
        },
        8 => {
            proof {
                reveal_strlit("8");
            }
            "8"
        },
        _ => {
            proof {
                reveal_strlit("9");
            }
            "9"
        },
    }
}

/// Appends the decimal digits of `n` to `s`.
fn write_digits(n: u32, s: &mut String)
    ensures
        final(s)@ == old(s)@ + decimal_digits(n as nat),
    decreases n,
{
    if n >= 10 {
        write_digits(n / 10, s);
    }
    let ghost mid = s@;
    s.append(digit_str(n % 10));
    proof {
        if n >= 10 {
            assert(s@ =~= old(s)@ + decimal_digits(n as nat));
        } else {
            assert(s@ =~= old(s)@ + decimal_digits(n as nat));
        }
    }
}

/// `v` written in decimal, as `format!("{:?}", v)` writes an `i32`.
fn format_i32(v: i32) -> (s: String)
    ensures
        s@ == decimal(v as int),
{
    let mut s = String::new();
    if v < 0 {
        s.append("-");
        let magnitude: u32 = (0i64 - (v as i64)) as u32;
        proof {
            reveal_strlit("-");
        }
        write_digits(magnitude, &mut s);
        proof {
            assert(s@ =~= decimal(v as int));
        }
    } else {
        write_digits(v as u32, &mut s);
        proof {
            assert(s@ =~= decimal(v as int));
        }
    }
    s
}

/// The text of a subtree: `-` when empty, the key alone for a leaf, and
/// otherwise the key followed by `(L:` left `, R:` right `)`.
pub open spec fn subtree_text(t: Option<Box<AVLNode>>) -> Seq<char>
    decreases t,
{
    match t {
        None => "-"@,
        Some(n) => {
            let l = subtree_text(n.left);
            let r = subtree_text(n.right);
            if l == "-"@ && r == "-"@ {
                decimal(n.value as int)
            } else {
                decimal(n.value as int) + "(L:"@ + l + ", R:"@ + r + ")"@
            }
        },
    }
}

/// The three trace lines of one rebalancing: its kind and the key where it
/// happened, then the subtree before and after.
pub open spec fn rebalance_lines(
    label: Seq<char>,
    before: Option<Box<AVLNode>>,
    after: Option<Box<AVLNode>>,
) -> Seq<Seq<char>> {
    seq![
        "  [!] "@ + label + " Rebalance triggered at node "@ + decimal(before->0.value as int),
        "      Before: "@ + subtree_text(before),
        "      After:  "@ + subtree_text(after),
    ]
}

/// The kinds of rebalancing an insertion can trigger.
#[derive(PartialEq, Eq, Structural)]
pub enum Rebalance {
    Unchanged,
    LL,
    RR,
    LR,
    RL,
}

/// The name of a kind of rebalancing as it appears in the trace.
pub open spec fn label_of(k: Rebalance) -> Seq<char> {
    match k {
        Rebalance::LL => "LL"@,
        Rebalance::RR => "RR"@,
        Rebalance::LR => "LR"@,
        Rebalance::RL => "RL"@,
        Rebalance::Unchanged => Seq::empty(),
    }
}

/// 1 when `k` is `which`, else 0.
pub open spec fn tally(k: Rebalance, which: Rebalance) -> int {
    if k == which { 1 } else { 0 }
}

/// A node over `l` and `r` whose height is recomputed from their stored
/// heights.
pub open spec fn joined(v: i32, l: Option<Box<AVLNode>>, r: Option<Box<AVLNode>>) -> Box<AVLNode> {
    Box::new(AVLNode {
        value: v,
        height: (1 + max_int(stored_height(l), stored_height(r))) as isize,
        left: l,
        right: r,
    })
}

/// The subtree after a right rotation at its root.
pub open spec fn rotated_right(y: Box<AVLNode>) -> Box<AVLNode> {
    let x = y.left->0;
    joined(x.value, x.left, Some(joined(y.value, x.right, y.right)))
}

/// The subtree after a left rotation at its root.
pub open spec fn rotated_left(x: Box<AVLNode>) -> Box<AVLNode> {
    let y = x.right->0;
    joined(y.value, Some(joined(x.value, x.left, y.left)), y.right)
}

/// Stored height of the left subtree minus that of the right one.
pub open spec fn stored_bf(t: Option<Box<AVLNode>>) -> int {
    match t {
        None => 0,
        Some(n) => stored_height(n.left) - stored_height(n.right),
    }
}

/// The node after rebalancing, and which rebalancing was done: a node two
/// higher on the left is rotated right (after rotating its left child left
/// when that child leans right), and symmetrically on the right.
pub open spec fn rebalanced(n: Box<AVLNode>) -> (Box<AVLNode>, Rebalance) {
    let b = stored_bf(Some(n));
    if b > 1 {
        let lp = n.left->0;
        if stored_bf(n.left) < 0 {
            (
                rotated_right(
                    Box::new(AVLNode { value: n.value, height: n.height, left: Some(rotated_left(lp)), right: n.right }),
                ),
                Rebalance::LR,
            )
        } else {
            (rotated_right(n), Rebalance::LL)
        }
    } else if b < -1 {
        let rp = n.right->0;
        if stored_bf(n.right) > 0 {
            (
                rotated_left(
                    Box::new(AVLNode { value: n.value, height: n.height, left: n.left, right: Some(rotated_right(rp)) }),
                ),
                Rebalance::RL,
            )
        } else {
            (rotated_left(n), Rebalance::RR)
        }
    } else {
        (n, Rebalance::Unchanged)
    }
}

/// AVL insertion of `v` into `t`: the new subtree, and the rebalancings
/// done on the way up, innermost first, each with its kind and the subtree
/// where it happened before and after it (at most one for an AVL tree).
pub open spec fn avl_insert(t: Option<Box<AVLNode>>, v: i32) -> (
    Option<Box<AVLNode>>,
    Seq<(Rebalance, Option<Box<AVLNode>>, Option<Box<AVLNode>>)>,
)
    decreases t,
{
    match t {
        None => (Some(Box::new(AVLNode { value: v, height: 1, left: None, right: None })), Seq::empty()),
        Some(n) => {
            if v == n.value {
                (t, Seq::empty())
            } else {
                let sub = if v < n.value {
                    avl_insert(n.left, v)
                } else {
                    avl_insert(n.right, v)
                };
                let m = if v < n.value {
                    joined(n.value, sub.0, n.right)
                } else {
                    joined(n.value, n.left, sub.0)
                };
                let (r, k) = rebalanced(m);
                if k == Rebalance::Unchanged {
                    (Some(r), sub.1)
                } else {
                    (Some(r), sub.1.push((k, Some(m), Some(r))))
                }
            }
        },
    }
}

/// How many of the rebalancings are of kind `k`.
pub open spec fn kind_count(
    ev: Seq<(Rebalance, Option<Box<AVLNode>>, Option<Box<AVLNode>>)>,
    k: Rebalance,
) -> int
    decreases ev.len(),
{
    if ev.len() == 0 {
        0
    } else {
        kind_count(ev.drop_last(), k) + tally(ev.last().0, k)
    }
}

/// The trace lines of the rebalancings, in order.
pub open spec fn event_lines(ev: Seq<(Rebalance, Option<Box<AVLNode>>, Option<Box<AVLNode>>)>) -> Seq<
    Seq<char>,
>
    decreases ev.len(),
{
    if ev.len() == 0 {
        Seq::empty()
    } else {
        event_lines(ev.drop_last()) + rebalance_lines(label_of(ev.last().0), ev.last().1, ev.last().2)
    }
}

proof fn lemma_kind_count_bounds(
    ev: Seq<(Rebalance, Option<Box<AVLNode>>, Option<Box<AVLNode>>)>,
    k: Rebalance,
)
    ensures
        0 <= kind_count(ev, k) <= ev.len(),
    decreases ev.len(),
{
    if ev.len() > 0 {
        lemma_kind_count_bounds(ev.drop_last(), k);
    }
}

/// Appending a rebalancing adds one to the count of its kind and its three
/// lines to the trace.
proof fn lemma_push_event(
    ev: Seq<(Rebalance, Option<Box<AVLNode>>, Option<Box<AVLNode>>)>,
    e: (Rebalance, Option<Box<AVLNode>>, Option<Box<AVLNode>>),
)
    ensures
        forall|k: Rebalance| #[trigger] kind_count(ev.push(e), k) == kind_count(ev, k) + tally(e.0, k),
        event_lines(ev.push(e)) == event_lines(ev) + rebalance_lines(label_of(e.0), e.1, e.2),
{
    assert(ev.push(e).drop_last() =~= ev);
}

/// Rebalancing a node with correct stored heights keeps the heights
/// correct and the keys, and never makes the subtree higher.
proof fn lemma_rebalanced_general(m: Box<AVLNode>)
    requires
        heights_ok(Some(m)),
        ht(Some(m)) < isize::MAX,
    ensures
        heights_ok(Some(rebalanced(m).0)),
        keys(Some(rebalanced(m).0)) == keys(Some(m)),
        ht(Some(rebalanced(m).0)) <= ht(Some(m)),
        rebalanced(m).1 == Rebalance::Unchanged ==> rebalanced(m).0 == m,
{
    lemma_heights_ok_stored(m.left);
    lemma_heights_ok_stored(m.right);
    let b = stored_bf(Some(m));
    assert(ht(Some(m)) == 1 + max_int(ht(m.left) as int, ht(m.right) as int));
    if b > 1 {
        assert(m.left is Some);
        let x = m.left->0;
        assert(heights_ok(Some(x)));
        assert(ht(Some(x)) == 1 + max_int(ht(x.left) as int, ht(x.right) as int));
        assert(ht(m.right) + 2 <= ht(Some(x)));
        lemma_heights_ok_stored(x.left);
        lemma_heights_ok_stored(x.right);
        if stored_bf(m.left) < 0 {
            let c = x.right->0;
            assert(heights_ok(Some(c)));
            assert(ht(Some(c)) == 1 + max_int(ht(c.left) as int, ht(c.right) as int));
            lemma_heights_ok_stored(c.left);
            lemma_heights_ok_stored(c.right);
            let lo = joined(x.value, x.left, c.left);
            let hi = joined(m.value, c.right, m.right);
            let r = joined(c.value, Some(lo), Some(hi));
            let xr = rotated_left(x);
            assert(xr == joined(c.value, Some(lo), c.right));
            assert(rebalanced(m).0 == r);
            assert(heights_ok(Some(lo)));
            assert(heights_ok(Some(hi)));
            assert(heights_ok(Some(r)));
            assert(keys(Some(x)) == keys(x.left).union(keys(x.right)).insert(x.value));
            assert(keys(Some(c)) == keys(c.left).union(keys(c.right)).insert(c.value));
            assert(keys(Some(lo)) == keys(x.left).union(keys(c.left)).insert(x.value));
            assert(keys(Some(hi)) == keys(c.right).union(keys(m.right)).insert(m.value));
            assert(keys(Some(r)) =~= keys(Some(m)));
            assert(ht(Some(r)) <= ht(Some(m)));
        } else {
            let hi = joined(m.value, x.right, m.right);
            let r = joined(x.value, x.left, Some(hi));
            assert(rebalanced(m).0 == r);
            assert(heights_ok(Some(hi)));
            assert(heights_ok(Some(r)));
            assert(keys(Some(x)) == keys(x.left).union(keys(x.right)).insert(x.value));
            assert(keys(Some(hi)) == keys(x.right).union(keys(m.right)).insert(m.value));
            assert(keys(Some(r)) =~= keys(Some(m)));
        }
    } else if b < -1 {
        assert(m.right is Some);
        let y = m.right->0;
        assert(heights_ok(Some(y)));
        assert(ht(Some(y)) == 1 + max_int(ht(y.left) as int, ht(y.right) as int));
        assert(ht(m.left) + 2 <= ht(Some(y)));
        lemma_heights_ok_stored(y.left);
        lemma_heights_ok_stored(y.right);
        if stored_bf(m.right) > 0 {
            let c = y.left->0;
            assert(heights_ok(Some(c)));
            assert(ht(Some(c)) == 1 + max_int(ht(c.left) as int, ht(c.right) as int));
            lemma_heights_ok_stored(c.left);
            lemma_heights_ok_stored(c.right);
            let lo = joined(m.value, m.left, c.left);
            let hi = joined(y.value, c.right, y.right);
            let r = joined(c.value, Some(lo), Some(hi));
            let yr = rotated_right(y);
            assert(yr == joined(c.value, c.left, Some(hi)));
            assert(rebalanced(m).0 == r);
            assert(heights_ok(Some(lo)));
            assert(heights_ok(Some(hi)));
            assert(heights_ok(Some(r)));
            assert(keys(Some(y)) == keys(y.left).union(keys(y.right)).insert(y.value));
            assert(keys(Some(c)) == keys(c.left).union(keys(c.right)).insert(c.value));
            assert(keys(Some(lo)) == keys(m.left).union(keys(c.left)).insert(m.value));
            assert(keys(Some(hi)) == keys(c.right).union(keys(y.right)).insert(y.value));
            assert(keys(Some(r)) =~= keys(Some(m)));
            assert(ht(Some(r)) <= ht(Some(m)));
        } else {
            let lo = joined(m.value, m.left, y.left);
            let r = joined(y.value, Some(lo), y.right);
            assert(rebalanced(m).0 == r);
            assert(heights_ok(Some(lo)));
            assert(heights_ok(Some(r)));
            assert(keys(Some(y)) == keys(y.left).union(keys(y.right)).insert(y.value));
            assert(keys(Some(lo)) == keys(m.left).union(keys(y.left)).insert(m.value));
            assert(keys(Some(r)) =~= keys(Some(m)));
        }
    }
}

/// Whether a string is exactly `-`.
fn is_dash(s: &String) -> (b: bool)
    ensures
        b == (s@ == "-"@),
{
    proof {
        reveal_strlit("-");
    }
    let t = s.as_str();
    if t.unicode_len() != 1 {
        return false;
    }
    let c = t.get_char(0);
    proof {
        if c == '-' {
            assert(s@ =~= "-"@);
        }
    }
    c == '-'
}

/// Every key of the subtree lies strictly between the bounds that are given.
pub open spec fn within(t: Option<Box<AVLNode>>, min: Option<&i32>, max: Option<&i32>) -> bool {
    forall|x: i32|
        keys(t).contains(x) ==> (min matches Some(m) ==> x > *m) && (max matches Some(m) ==> x
            < *m)
}

/// At every node the stored heights of the two subtrees differ by at most
/// one.
pub open spec fn stored_balanced(t: Option<Box<AVLNode>>) -> bool
    decreases t,
{
    match t {
        None => true,
        Some(n) => {
            &&& -1 <= stored_height(n.left) - stored_height(n.right) <= 1
            &&& stored_balanced(n.left)
            &&& stored_balanced(n.right)
        },
    }
}

/// At every node the difference of the stored subtree heights fits in an
/// `isize` and has an absolute value.
pub open spec fn stored_diffs_fit(t: Option<Box<AVLNode>>) -> bool
    decreases t,
{
    match t {
        None => true,
        Some(n) => {
            &&& isize::MIN < stored_height(n.left) - stored_height(n.right) <= isize::MAX
            &&& stored_diffs_fit(n.left)
            &&& stored_diffs_fit(n.right)
        },
    }
}

/// Number of nodes.
pub open spec fn size(t: Option<Box<AVLNode>>) -> nat
    decreases t,
{
    match t {
        None => 0,
        Some(n) => 1 + size(n.left) + size(n.right),
    }
}

/// Sum of the depths of all nodes, the root counted at depth `d`.
pub open spec fn depth_total(t: Option<Box<AVLNode>>, d: int) -> int
    decreases t,
{
    match t {
        None => 0,
        Some(n) => d + depth_total(n.left, d + 1) + depth_total(n.right, d + 1),
    }
}

proof fn lemma_depth_total_nonneg(t: Option<Box<AVLNode>>, d: int)
    requires
        d >= 0,
    ensures
        depth_total(t, d) >= 0,
    decreases t,
{
    if let Some(n) = t {
        lemma_depth_total_nonneg(n.left, d + 1);
        lemma_depth_total_nonneg(n.right, d + 1);
    }
}

/// An AVL tree passes both checks: its stored heights are balanced and fit,
/// and it is ordered with no bounds given.
pub proof fn lemma_avl_passes_checks(t: Option<Box<AVLNode>>)
    requires
        is_avl(t),
    ensures
        stored_balanced(t),
        stored_diffs_fit(t),
        is_bst(t) && within(t, None, None),
    decreases t,
{
    match t {
        None => {},
        Some(n) => {
            lemma_avl_passes_checks(n.left);
            lemma_avl_passes_checks(n.right);
            lemma_heights_ok_stored(n.left);
            lemma_heights_ok_stored(n.right);
        },
    }
}

impl AVLNode {
    /// A leaf holding `value`.
    pub fn new(value: i32) -> (n: Self)
        ensures
            n.value == value,
            n.height == 1,
            n.left is None,
            n.right is None,
    {
        AVLNode { value, height: 1, left: None, right: None }
    }
}

impl AVLTree {
    /// An empty tree with all counters at zero.
    pub fn new() -> (t: Self)
        ensures
            t.root is None,
            t.ll_count == 0,
            t.rr_count == 0,
            t.lr_count == 0,
            t.rl_count == 0,
    {
        AVLTree { root: None, ll_count: 0, rr_count: 0, lr_count: 0, rl_count: 0 }
    }

    /// Inserts `value` and rebalances on the way back up (in an AVL tree a
    /// key already present changes nothing). Returns the trace lines of the
    /// rebalancings when `silent` is off. The new tree, the counters and the
    /// trace are those of `avl_insert`, whatever `silent` is; an AVL tree
    /// stays one, with at most one rebalancing.
    pub fn insert_with_trace(&mut self, value: i32, silent: bool) -> (trace: Vec<String>)
        requires
            heights_ok(old(self).root),
            ht(old(self).root) + 3 < isize::MAX,
            old(self).ll_count + ht(old(self).root) <= usize::MAX,
            old(self).rr_count + ht(old(self).root) <= usize::MAX,
            old(self).lr_count + ht(old(self).root) <= usize::MAX,
            old(self).rl_count + ht(old(self).root) <= usize::MAX,
        ensures
            final(self).root == avl_insert(old(self).root, value).0,
            heights_ok(final(self).root),
            keys(final(self).root) == keys(old(self).root).insert(value),
            final(self).ll_count == old(self).ll_count + kind_count(
                avl_insert(old(self).root, value).1,
                Rebalance::LL,
            ),
            final(self).rr_count == old(self).rr_count + kind_count(
                avl_insert(old(self).root, value).1,
                Rebalance::RR,
            ),
            final(self).lr_count == old(self).lr_count + kind_count(
                avl_insert(old(self).root, value).1,
                Rebalance::LR,
            ),
            final(self).rl_count == old(self).rl_count + kind_count(
                avl_insert(old(self).root, value).1,
                Rebalance::RL,
            ),
            silent ==> trace@.len() == 0,
            !silent ==> trace.deep_view() == event_lines(avl_insert(old(self).root, value).1),
            is_avl(old(self).root) ==> {
                &&& is_avl(final(self).root)
                &&& ht(final(self).root) == ht(old(self).root) || ht(final(self).root) == ht(
                    old(self).root,
                ) + 1
                &&& avl_insert(old(self).root, value).1.len() <= 1
                &&& keys(old(self).root).contains(value) ==> final(self).root == old(self).root
                    && avl_insert(old(self).root, value).1.len() == 0
            },
    {
        let mut trace: Vec<String> = Vec::new();
        let root = self.root.take();
        proof {
            assert(trace.deep_view() =~= Seq::<Seq<char>>::empty());
        }
        let new_root = self.insert_recursive(root, value, silent, &mut trace);
        self.root = new_root;
        proof {
            if is_avl(old(self).root) {
                lemma_avl_insert_keeps_avl(old(self).root, value);
            }
            if !silent {
                assert(trace.deep_view() =~= event_lines(avl_insert(old(self).root, value).1));
            }
        }
        trace
    }

    /// Whether the subtree is ordered with every key strictly inside the
    /// given bounds.
    pub fn is_valid_bst(&self, node: &Option<Box<AVLNode>>, min: Option<&i32>, max: Option<&i32>) -> (ok: bool)
        ensures
            ok == (is_bst(*node) && within(*node, min, max)),
        decreases node,
    {
        if let Some(n) = node {
            if let Some(min_val) = min {
                if n.value <= *min_val {
                    proof {
                        assert(keys(*node).contains(n.value));
                    }
                    return false;
                }
            }
            if let Some(max_val) = max {
                if n.value >= *max_val {
                    proof {
                        assert(keys(*node).contains(n.value));
                    }
                    return false;
                }
            }
            let l = self.is_valid_bst(&n.left, min, Some(&n.value));
            let r = self.is_valid_bst(&n.right, Some(&n.value), max);
            proof {
                assert(keys(*node) == keys(n.left).union(keys(n.right)).insert(n.value));
                if is_bst(*node) && within(*node, min, max) {
                    assert forall|x: i32| keys(n.left).contains(x) implies (min matches Some(m) ==> x
                        > *m) && (Some(&n.value) matches Some(m) ==> x < *m) by {
                        assert(keys(*node).contains(x));
                    }
                    assert forall|x: i32| keys(n.right).contains(x) implies (Some(&n.value) matches Some(
                        m,
                    ) ==> x > *m) && (max matches Some(m) ==> x < *m) by {
                        assert(keys(*node).contains(x));
                    }
                }
                if l && r {
                    assert forall|x: i32| keys(*node).contains(x) implies (min matches Some(m) ==> x
                        > *m) && (max matches Some(m) ==> x < *m) by {
                        if keys(n.left).contains(x) {
                            assert(x < n.value);
                        } else if keys(n.right).contains(x) {
                            assert(x > n.value);
                        }
                    }
                }
            }
            return l && r;
        }
        true
    }

    /// Whether at every node the stored heights of the two subtrees differ
    /// by at most one.
    pub fn is_valid_avl(&self, node: &Option<Box<AVLNode>>) -> (ok: bool)
        requires
            stored_diffs_fit(*node),
        ensures
            ok == stored_balanced(*node),
        decreases node,
    {
        if let Some(n) = node {
            let balance = Self::balance_factor(node);
            let magnitude = if balance < 0 {
                -balance
            } else {
                balance
            };
            if magnitude > 1 {
                return false;
            }
            return self.is_valid_avl(&n.left) && self.is_valid_avl(&n.right);
        }
        true
    }

    /// Number of single rotations: one for each LL or RR rebalancing and
    /// two for each LR or RL one.
    pub fn get_total_rotations(&self) -> (total: usize)
        requires
            self.ll_count + self.rr_count + 2 * self.lr_count + 2 * self.rl_count <= usize::MAX,
        ensures
            total == self.ll_count + self.rr_count + 2 * self.lr_count + 2 * self.rl_count,
    {
        self.ll_count + self.rr_count + (self.lr_count * 2) + (self.rl_count * 2)
    }

    /// The sum of the depths of all nodes (the root at `depth`) and the
    /// number of nodes.
    pub fn depth_sum(node: &Option<Box<AVLNode>>, depth: usize) -> (res: (usize, usize))
        requires
            depth + ht(*node) <= usize::MAX,
            depth_total(*node, depth as int) <= usize::MAX,
            size(*node) <= usize::MAX,
        ensures
            res.0 == depth_total(*node, depth as int),
            res.1 == size(*node),
        decreases node,
    {
        match node {
            Some(n) => {
                proof {
                    lemma_depth_total_nonneg(n.left, depth + 1);
                    lemma_depth_total_nonneg(n.right, depth + 1);
                }
                let (l_sum, l_count) = Self::depth_sum(&n.left, depth + 1);
                let (r_sum, r_count) = Self::depth_sum(&n.right, depth + 1);
                (depth + l_sum + r_sum, 1 + l_count + r_count)
            },
            None => (0, 0),
        }
    }

    /// The stored height of a subtree, 0 when empty.
    fn height(node: &Option<Box<AVLNode>>) -> (h: isize)
        ensures
            h == stored_height(*node),
    {
        match node {
            Some(n) => n.height,
            None => 0,
        }
    }

    /// Stored height of the left subtree minus that of the right one.
    fn balance_factor(node: &Option<Box<AVLNode>>) -> (b: isize)
        requires
            node matches Some(n) ==> isize::MIN <= stored_height(n.left) - stored_height(n.right)
                <= isize::MAX,
        ensures
            b == match *node {
                Some(n) => stored_height(n.left) - stored_height(n.right),
                None => 0,
            },
    {
        match node {
            Some(n) => Self::height(&n.left) - Self::height(&n.right),
            None => 0,
        }
    }

    /// Recomputes a node's height from its children's stored heights.
    fn update_height(node: &mut Box<AVLNode>)
        requires
            max_int(stored_height(old(node).left), stored_height(old(node).right)) < isize::MAX,
        ensures
            final(node).value == old(node).value,
            final(node).left == old(node).left,
            final(node).right == old(node).right,
            final(node).height == 1 + max_int(
                stored_height(old(node).left),
                stored_height(old(node).right),
            ),
    {
        let l = Self::height(&node.left);
        let r = Self::height(&node.right);
        node.height = 1 + if l >= r {
            l
        } else {
            r
        };
    }

    /// Rebalances `node` (whose stored height is up to date) when its two
    /// subtrees differ in stored height by more than one, counting the kind
    /// of rebalancing and, unless `silent`, tracing it.
    fn rebalance(&mut self, node: Box<AVLNode>, silent: bool, trace: &mut Vec<String>) -> (r: Box<
        AVLNode,
    >)
        requires
            heights_ok(Some(node)),
            ht(Some(node)) + 2 < isize::MAX,
            old(self).ll_count < usize::MAX,
            old(self).rr_count < usize::MAX,
            old(self).lr_count < usize::MAX,
            old(self).rl_count < usize::MAX,
        ensures
            r == rebalanced(node).0,
            final(self).root == old(self).root,
            final(self).ll_count == old(self).ll_count + tally(rebalanced(node).1, Rebalance::LL),
            final(self).rr_count == old(self).rr_count + tally(rebalanced(node).1, Rebalance::RR),
            final(self).lr_count == old(self).lr_count + tally(rebalanced(node).1, Rebalance::LR),
            final(self).rl_count == old(self).rl_count + tally(rebalanced(node).1, Rebalance::RL),
            silent || rebalanced(node).1 == Rebalance::Unchanged ==> final(trace).deep_view() == old(
                trace,
            ).deep_view(),
            !silent && rebalanced(node).1 != Rebalance::Unchanged ==> final(trace).deep_view()
                == old(trace).deep_view() + rebalance_lines(
                label_of(rebalanced(node).1),
                Some(node),
                Some(rebalanced(node).0),
            ),
    {
        let ghost m = node;
        proof {
            lemma_heights_ok_stored(m.left);
            lemma_heights_ok_stored(m.right);
            assert(ht(Some(m)) == 1 + max_int(ht(m.left) as int, ht(m.right) as int));
        }
        let node_opt = Some(node);
        let balance = Self::balance_factor(&node_opt);
        let mut node = node_opt.unwrap();
        if balance > 1 {
            let ghost lp = node.left->0;
            proof {
                assert(heights_ok(Some(lp)));
                lemma_heights_ok_stored(lp.left);
                lemma_heights_ok_stored(lp.right);
            }
            let inner = Self::balance_factor(&node.left);
            let wrapped = Some(node);
            if inner < 0 {
                self.lr_count += 1;
                proof {
                    assert(heights_ok(lp.right));
                    let c = lp.right->0;
                    lemma_heights_ok_stored(c.left);
                    lemma_heights_ok_stored(c.right);
                }
                if !silent {
                    Self::trace_rotation("LR", &wrapped, trace);
                }
                node = wrapped.unwrap();
                let left = node.left.take().unwrap();
                node.left = Some(Self::rotate_left(left));
                proof {
                    assert(node == Box::new(
                        AVLNode {
                            value: m.value,
                            height: m.height,
                            left: Some(rotated_left(lp)),
                            right: m.right,
                        },
                    ));
                }
                node = Self::rotate_right(node);
                let wrapped = Some(node);
                if !silent {
                    Self::trace_after(&wrapped, trace);
                    proof {
                        assert(trace.deep_view() =~= old(trace).deep_view() + rebalance_lines(
                            "LR"@,
                            Some(m),
                            wrapped,
                        ));
                    }
                }
                wrapped.unwrap()
            } else {
                self.ll_count += 1;
                if !silent {
                    Self::trace_rotation("LL", &wrapped, trace);
                }
                node = wrapped.unwrap();
                node = Self::rotate_right(node);
                let wrapped = Some(node);
                if !silent {
                    Self::trace_after(&wrapped, trace);
                    proof {
                        assert(trace.deep_view() =~= old(trace).deep_view() + rebalance_lines(
                            "LL"@,
                            Some(m),
                            wrapped,
                        ));
                    }
                }
                wrapped.unwrap()
            }
        } else if balance < -1 {
            let ghost rp = node.right->0;
            proof {
                assert(heights_ok(Some(rp)));
                lemma_heights_ok_stored(rp.left);
                lemma_heights_ok_stored(rp.right);
            }
            let inner = Self::balance_factor(&node.right);
            let wrapped = Some(node);
            if inner > 0 {
                self.rl_count += 1;
                proof {
                    assert(heights_ok(rp.left));
                    let c = rp.left->0;
                    lemma_heights_ok_stored(c.left);
                    lemma_heights_ok_stored(c.right);
                }
                if !silent {
                    Self::trace_rotation("RL", &wrapped, trace);
                }
                node = wrapped.unwrap();
                let right = node.right.take().unwrap();
                node.right = Some(Self::rotate_right(right));
                proof {
                    assert(node == Box::new(
                        AVLNode {
                            value: m.value,
                            height: m.height,
                            left: m.left,
                            right: Some(rotated_right(rp)),
                        },
                    ));
                }
                node = Self::rotate_left(node);
                let wrapped = Some(node);
                if !silent {
                    Self::trace_after(&wrapped, trace);
                    proof {
                        assert(trace.deep_view() =~= old(trace).deep_view() + rebalance_lines(
                            "RL"@,
                            Some(m),
                            wrapped,
                        ));
                    }
                }
                wrapped.unwrap()
            } else {
                self.rr_count += 1;
                if !silent {
                    Self::trace_rotation("RR", &wrapped, trace);
                }
                node = wrapped.unwrap();
                node = Self::rotate_left(node);
                let wrapped = Some(node);
                if !silent {
                    Self::trace_after(&wrapped, trace);
                    proof {
                        assert(trace.deep_view() =~= old(trace).deep_view() + rebalance_lines(
                            "RR"@,
                            Some(m),
                            wrapped,
                        ));
                    }
                }
                wrapped.unwrap()
            }
        } else {
            node
        }
    }

    /// Inserts `value` below `node_opt` and rebalances on the way back up;
    /// in an AVL tree a key already present leaves the subtree as it is.
    /// Counts each LL, RR, LR and RL rebalancing.
    #[verifier::spinoff_prover]
    #[verifier::rlimit(100)]
    fn insert_recursive(
        &mut self,
        node_opt: Option<Box<AVLNode>>,
        value: i32,
        silent: bool,
        trace: &mut Vec<String>,
    ) -> (res: Option<Box<AVLNode>>)
        requires
            heights_ok(node_opt),
            ht(node_opt) + 3 < isize::MAX,
            old(self).ll_count + ht(node_opt) <= usize::MAX,
            old(self).rr_count + ht(node_opt) <= usize::MAX,
            old(self).lr_count + ht(node_opt) <= usize::MAX,
            old(self).rl_count + ht(node_opt) <= usize::MAX,
        ensures
            res == avl_insert(node_opt, value).0,
            heights_ok(res),
            keys(res) == keys(node_opt).insert(value),
            ht(res) <= ht(node_opt) + 1,
            avl_insert(node_opt, value).1.len() <= ht(node_opt),
            final(self).root == old(self).root,
            final(self).ll_count == old(self).ll_count + kind_count(
                avl_insert(node_opt, value).1,
                Rebalance::LL,
            ),
            final(self).rr_count == old(self).rr_count + kind_count(
                avl_insert(node_opt, value).1,
                Rebalance::RR,
            ),
            final(self).lr_count == old(self).lr_count + kind_count(
                avl_insert(node_opt, value).1,
                Rebalance::LR,
            ),
            final(self).rl_count == old(self).rl_count + kind_count(
                avl_insert(node_opt, value).1,
                Rebalance::RL,
            ),
            silent ==> final(trace).deep_view() == old(trace).deep_view(),
            !silent ==> final(trace).deep_view() == old(trace).deep_view() + event_lines(
                avl_insert(node_opt, value).1,
            ),
        decreases node_opt,
    {
        let mut node = match node_opt {
            Some(n) => n,
            None => {
                return Some(Box::new(AVLNode::new(value)));
            },
        };
        let ghost orig = node_opt;
        let ghost n0 = *node;
        let ghost sub = if value < n0.value {
            avl_insert(n0.left, value)
        } else {
            avl_insert(n0.right, value)
        };
        proof {
            lemma_heights_ok_stored(n0.left);
            lemma_heights_ok_stored(n0.right);
        }
        if value < node.value {
            let left = node.left.take();
            node.left = self.insert_recursive(left, value, silent, trace);
        } else if value > node.value {
            let right = node.right.take();
            node.right = self.insert_recursive(right, value, silent, trace);
        } else {
            return Some(node);
        }
        proof {
            lemma_heights_ok_stored(node.left);
            lemma_heights_ok_stored(node.right);
        }
        Self::update_height(&mut node);
        let ghost m = node;
        let ghost t_mid = trace.deep_view();
        proof {
            if value < n0.value {
                assert(m == joined(n0.value, sub.0, n0.right));
            } else {
                assert(m == joined(n0.value, n0.left, sub.0));
            }
            assert(heights_ok(Some(m)));
            lemma_rebalanced_general(m);
            assert(keys(Some(m)) =~= keys(orig).insert(value));
            lemma_kind_count_bounds(sub.1, Rebalance::LL);
            lemma_kind_count_bounds(sub.1, Rebalance::RR);
            lemma_kind_count_bounds(sub.1, Rebalance::LR);
            lemma_kind_count_bounds(sub.1, Rebalance::RL);
        }
        let r = self.rebalance(node, silent, trace);
        proof {
            let k = rebalanced(m).1;
            let e = (k, Some(m), Some(r));
            lemma_push_event(sub.1, e);
            assert(avl_insert(orig, value) == if k == Rebalance::Unchanged {
                (Some(r), sub.1)
            } else {
                (Some(r), sub.1.push(e))
            });
            if k == Rebalance::Unchanged {
                assert(tally(k, Rebalance::LL) == 0 && tally(k, Rebalance::RR) == 0);
                assert(tally(k, Rebalance::LR) == 0 && tally(k, Rebalance::RL) == 0);
            }
            if !silent && k != Rebalance::Unchanged {
                assert(trace.deep_view() =~= old(trace).deep_view() + event_lines(sub.1.push(e)));
            }
        }
        Some(r)
    }

    /// The text of a subtree, see `subtree_text`.
    pub fn subtree_to_string(node: &Option<Box<AVLNode>>) -> (text: String)
        ensures
            text@ == subtree_text(*node),
        decreases node,
    {
        match node {
            Some(n) => {
                let l = Self::subtree_to_string(&n.left);
                let r = Self::subtree_to_string(&n.right);
                if is_dash(&l) && is_dash(&r) {
                    format_i32(n.value)
                } else {
                    let mut text = format_i32(n.value);
                    text.append("(L:");
                    text.append(l.as_str());
                    text.append(", R:");
                    text.append(r.as_str());
                    text.append(")");
                    text
                }
            },
            None => String::from_str("-"),
        }
    }

    /// The first two trace lines of a rebalancing at `node`.
    fn trace_rotation(rot_type: &str, node: &Option<Box<AVLNode>>, trace: &mut Vec<String>)
        requires
            node is Some,
        ensures
            final(trace).deep_view() == old(trace).deep_view() + seq![
                "  [!] "@ + rot_type@ + " Rebalance triggered at node "@ + decimal(node->0.value as int),
                "      Before: "@ + subtree_text(*node),
            ],
    {
        let mut first = String::from_str("  [!] ");
        first.append(rot_type);
        first.append(" Rebalance triggered at node ");
        match node {
            Some(n) => {
                let v = format_i32(n.value);
                first.append(v.as_str());
            },
            None => {},
        }
        let mut second = String::from_str("      Before: ");
        let sub = Self::subtree_to_string(node);
        second.append(sub.as_str());
        let ghost t0 = trace.deep_view();
        trace.push(first);
        trace.push(second);
        proof {
            assert(trace.deep_view() =~= t0 + seq![first@, second@]);
        }
    }

    /// The last trace line of a rebalancing: the subtree afterwards.
    fn trace_after(node: &Option<Box<AVLNode>>, trace: &mut Vec<String>)
        ensures
            final(trace).deep_view() == old(trace).deep_view() + seq![
                "      After:  "@ + subtree_text(*node),
            ],
    {
        let mut line = String::from_str("      After:  ");
        let sub = Self::subtree_to_string(node);
        line.append(sub.as_str());
        let ghost t0 = trace.deep_view();
        trace.push(line);
        proof {
            assert(trace.deep_view() =~= t0 + seq![line@]);
        }
    }

    /// Right rotation: the left child becomes the root of the subtree.
    fn rotate_right(y: Box<AVLNode>) -> (x: Box<AVLNode>)
        requires
            y.left is Some,
            max_int(stored_height(y.left->0.right), stored_height(y.right)) < isize::MAX - 1,
            stored_height(y.left->0.left) < isize::MAX,
        ensures
            x.value == y.left->0.value,
            x.left == y.left->0.left,
            x.right matches Some(yy) && {
                &&& yy.value == y.value
                &&& yy.left == y.left->0.right
                &&& yy.right == y.right
                &&& yy.height == 1 + max_int(stored_height(y.left->0.right), stored_height(y.right))
            },
            x.height == 1 + max_int(stored_height(x.left), stored_height(x.right)),
            x == rotated_right(y),
    {
        let mut y = y;
        let mut x = y.left.take().unwrap();
        y.left = x.right.take();
        Self::update_height(&mut y);
        x.right = Some(y);
        Self::update_height(&mut x);
        x
    }

    /// Left rotation: the right child becomes the root of the subtree.
    fn rotate_left(x: Box<AVLNode>) -> (y: Box<AVLNode>)
        requires
            x.right is Some,
            max_int(stored_height(x.left), stored_height(x.right->0.left)) < isize::MAX - 1,
            stored_height(x.right->0.right) < isize::MAX,
        ensures
            y.value == x.right->0.value,
            y.right == x.right->0.right,
            y.left matches Some(xx) && {
                &&& xx.value == x.value
                &&& xx.left == x.left
                &&& xx.right == x.right->0.left
                &&& xx.height == 1 + max_int(stored_height(x.left), stored_height(x.right->0.left))
            },
            y.height == 1 + max_int(stored_height(y.left), stored_height(y.right)),
            y == rotated_left(x),
    {
        let mut x = x;
        let mut y = x.right.take().unwrap();
        x.right = y.left.take();
        Self::update_height(&mut x);
        y.left = Some(x);
        Self::update_height(&mut y);
        y
    }
}

} // verus!
