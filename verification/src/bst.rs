//! Unbalanced binary search tree of `i32` keys, and an analyzer for the
//! shape of such a tree.
use vstd::prelude::*;

verus! {

/// A binary search tree; duplicates are not stored.
pub struct BST {
    pub root: Option<Box<Node>>,
}

/// A node of a `BST`.
pub struct Node {
    pub value: i32,
    pub left: Option<Box<Node>>,
    pub right: Option<Box<Node>>,
}

/// The keys of a subtree.
pub open spec fn keys(t: Option<Box<Node>>) -> Set<i32>
    decreases t,
{
    match t {
        None => Set::empty(),
        Some(n) => keys(n.left).union(keys(n.right)).insert(n.value),
    }
}

/// Search-tree order: at every node, smaller keys left, larger keys right.
pub open spec fn is_bst(t: Option<Box<Node>>) -> bool
    decreases t,
{
    match t {
        None => true,
        Some(n) => {
            &&& is_bst(n.left)
            &&& is_bst(n.right)
            &&& forall|x: i32| keys(n.left).contains(x) ==> x < n.value
            &&& forall|x: i32| keys(n.right).contains(x) ==> x > n.value
        },
    }
}

/// Number of nodes.
pub open spec fn size(t: Option<Box<Node>>) -> nat
    decreases t,
{
    match t {
        None => 0,
        Some(n) => 1 + size(n.left) + size(n.right),
    }
}

/// The larger of two natural numbers.
pub open spec fn max_nat(a: nat, b: nat) -> nat {
    if a >= b { a } else { b }
}

/// Number of levels (an empty tree has height 0).
pub open spec fn height(t: Option<Box<Node>>) -> nat
    decreases t,
{
    match t {
        None => 0,
        Some(n) => 1 + max_nat(height(n.left), height(n.right)),
    }
}

/// The keys met when searching for `v` from the root: go left when `v` is
/// smaller, right when larger, stop at `v` or at an empty subtree.
pub open spec fn search_path(t: Option<Box<Node>>, v: i32) -> Seq<i32>
    decreases t,
{
    match t {
        None => Seq::empty(),
        Some(n) => if v == n.value {
            seq![n.value]
        } else if v < n.value {
            seq![n.value] + search_path(n.left, v)
        } else {
            seq![n.value] + search_path(n.right, v)
        },
    }
}

/// The tree after adding `v` as a leaf where a search for it ends; the
/// same tree when the search meets `v`.
pub open spec fn insert_tree(t: Option<Box<Node>>, v: i32) -> Option<Box<Node>>
    decreases t,
{
    match t {
        None => Some(Box::new(Node { value: v, left: None, right: None })),
        Some(n) => if v < n.value {
            Some(Box::new(Node { value: n.value, left: insert_tree(n.left, v), right: n.right }))
        } else if v > n.value {
            Some(Box::new(Node { value: n.value, left: n.left, right: insert_tree(n.right, v) }))
        } else {
            t
        },
    }
}

/// The leftmost key of a non-empty subtree, with the subtree left after
/// unlinking its node (its right subtree takes its place).
pub open spec fn split_min(n: Box<Node>) -> (i32, Option<Box<Node>>)
    decreases n,
{
    match n.left {
        None => (n.value, n.right),
        Some(l) => {
            let (m, rest) = split_min(l);
            (m, Some(Box::new(Node { value: n.value, left: rest, right: n.right })))
        },
    }
}

/// The tree after removing the node where a search for `v` ends: a node
/// with at most one child gives way to that child, one with two children
/// to the leftmost node of its right subtree.
pub open spec fn remove_tree(t: Option<Box<Node>>, v: i32) -> Option<Box<Node>>
    decreases t,
{
    match t {
        None => None,
        Some(n) => if v < n.value {
            Some(Box::new(Node { value: n.value, left: remove_tree(n.left, v), right: n.right }))
        } else if v > n.value {
            Some(Box::new(Node { value: n.value, left: n.left, right: remove_tree(n.right, v) }))
        } else {
            match n.left {
                None => n.right,
                Some(l) => match n.right {
                    None => Some(l),
                    Some(r) => {
                        let (m, rest) = split_min(r);
                        Some(Box::new(Node { value: m, left: Some(l), right: rest }))
                    },
                },
            }
        },
    }
}

/// Searching for `v` from the root ends at a node holding `v`.
pub open spec fn search_finds(t: Option<Box<Node>>, v: i32) -> bool
    decreases t,
{
    match t {
        None => false,
        Some(n) => if v == n.value {
            true
        } else if v < n.value {
            search_finds(n.left, v)
        } else {
            search_finds(n.right, v)
        },
    }
}

/// In a search tree, searching finds exactly the keys that are present.
pub proof fn lemma_search_finds_keys(t: Option<Box<Node>>, v: i32)
    requires
        is_bst(t),
    ensures
        search_finds(t, v) == keys(t).contains(v),
    decreases t,
{
    if let Some(n) = t {
        lemma_search_finds_keys(n.left, v);
        lemma_search_finds_keys(n.right, v);
    }
}

/// Searching only ever finds keys that are present.
pub proof fn lemma_search_finds_present(t: Option<Box<Node>>, v: i32)
    ensures
        search_finds(t, v) ==> keys(t).contains(v),
    decreases t,
{
    if let Some(n) = t {
        lemma_search_finds_present(n.left, v);
        lemma_search_finds_present(n.right, v);
    }
}

/// Inserting into a search tree adds exactly the new key and keeps the
/// search-tree order.
pub proof fn lemma_insert_tree_keys(t: Option<Box<Node>>, v: i32)
    ensures
        keys(insert_tree(t, v)) == keys(t).insert(v),
        is_bst(t) ==> is_bst(insert_tree(t, v)),
    decreases t,
{
    if let Some(n) = t {
        if v < n.value {
            lemma_insert_tree_keys(n.left, v);
            assert(keys(insert_tree(t, v)) =~= keys(t).insert(v));
        } else if v > n.value {
            lemma_insert_tree_keys(n.right, v);
            assert(keys(insert_tree(t, v)) =~= keys(t).insert(v));
        } else {
            assert(keys(t).insert(v) =~= keys(t));
        }
    } else {
        let leaf = Node { value: v, left: None, right: None };
        assert(keys(leaf.left) == Set::<i32>::empty());
        assert(keys(Some(Box::new(leaf))) == keys(leaf.left).union(keys(leaf.right)).insert(v));
        assert(keys(insert_tree(t, v)) =~= Set::<i32>::empty().insert(v));
    }
}

/// Inserting a key that a search does not find and then removing it gives
/// the tree back unchanged.
pub proof fn lemma_remove_undoes_insert(t: Option<Box<Node>>, v: i32)
    requires
        !search_finds(t, v),
    ensures
        remove_tree(insert_tree(t, v), v) == t,
    decreases t,
{
    if let Some(n) = t {
        if v < n.value {
            lemma_remove_undoes_insert(n.left, v);
        } else {
            lemma_remove_undoes_insert(n.right, v);
        }
    }
}

/// In a search tree the keys are distinct: there are as many as nodes.
pub proof fn lemma_bst_size_is_key_count(t: Option<Box<Node>>)
    requires
        is_bst(t),
    ensures
        keys(t).finite(),
        keys(t).len() == size(t),
    decreases t,
{
    if let Some(n) = t {
        lemma_bst_size_is_key_count(n.left);
        lemma_bst_size_is_key_count(n.right);
        assert(keys(n.left).disjoint(keys(n.right))) by {
            assert forall|x: i32| !(keys(n.left).contains(x) && keys(n.right).contains(x)) by {}
        }
        vstd::set_lib::lemma_set_disjoint_lens(keys(n.left), keys(n.right));
        assert(!keys(n.left).union(keys(n.right)).contains(n.value));
    }
}

/// After inserting `v` into a search tree, a search finds `v`, and every
/// other key is found exactly when it was found before.
pub proof fn lemma_search_after_insert(t: Option<Box<Node>>, v: i32, w: i32)
    requires
        is_bst(t),
    ensures
        search_finds(insert_tree(t, v), v),
        w != v ==> search_finds(insert_tree(t, v), w) == search_finds(t, w),
{
    lemma_insert_tree_keys(t, v);
    lemma_search_finds_keys(insert_tree(t, v), v);
    lemma_search_finds_keys(insert_tree(t, v), w);
    lemma_search_finds_keys(t, w);
}

/// After removing `v` from a search tree (the keys that `BST::remove`
/// leaves), a search no longer finds `v`, and every other key is found
/// exactly when it was found before.
pub proof fn lemma_search_after_remove(t: Option<Box<Node>>, t2: Option<Box<Node>>, v: i32, w: i32)
    requires
        is_bst(t),
        is_bst(t2),
        keys(t2) == keys(t).remove(v),
    ensures
        !search_finds(t2, v),
        w != v ==> search_finds(t2, w) == search_finds(t, w),
{
    lemma_search_finds_keys(t2, v);
    lemma_search_finds_keys(t2, w);
    lemma_search_finds_keys(t, w);
}

/// Number of nodes at depth `d` (the root is at depth 0).
pub open spec fn level_count(t: Option<Box<Node>>, d: int) -> nat
    decreases t,
{
    match t {
        None => 0,
        Some(n) => if d < 0 {
            0
        } else if d == 0 {
            1
        } else {
            level_count(n.left, d - 1) + level_count(n.right, d - 1)
        },
    }
}

/// The number of nodes on each level, from the root down.
pub open spec fn level_counts(t: Option<Box<Node>>) -> Seq<nat> {
    Seq::new(height(t), |d: int| level_count(t, d))
}

/// Sum of a sequence of counts.
pub open spec fn seq_sum(s: Seq<nat>) -> nat
    decreases s.len(),
{
    if s.len() == 0 {
        0
    } else {
        seq_sum(s.drop_last()) + s.last()
    }
}

/// Nodes on the first `k` levels.
pub open spec fn levels_total(t: Option<Box<Node>>, k: int) -> nat
    decreases k,
{
    if k <= 0 {
        0
    } else {
        levels_total(t, k - 1) + level_count(t, k - 1)
    }
}

proof fn lemma_levels_total_split(n: Box<Node>, k: int)
    requires
        k >= 1,
    ensures
        levels_total(Some(n), k) == 1 + levels_total(n.left, k - 1) + levels_total(n.right, k - 1),
    decreases k,
{
    if k > 1 {
        lemma_levels_total_split(n, k - 1);
        assert(level_count(Some(n), k - 1) == level_count(n.left, k - 2) + level_count(n.right, k - 2));
        assert(levels_total(n.left, k - 1) == levels_total(n.left, k - 2) + level_count(n.left, k - 2));
        assert(levels_total(n.right, k - 1) == levels_total(n.right, k - 2) + level_count(n.right, k - 2));
    } else {
        assert(levels_total(Some(n), 0) == 0);
        assert(level_count(Some(n), 0) == 1);
        assert(levels_total(n.left, 0) == 0);
        assert(levels_total(n.right, 0) == 0);
    }
}

pub(crate) proof fn lemma_levels_total_all(t: Option<Box<Node>>, k: int)
    requires
        k >= height(t),
    ensures
        levels_total(t, k) == size(t),
    decreases t, k,
{
    match t {
        None => {
            lemma_levels_total_empty(k);
        },
        Some(n) => {
            lemma_levels_total_split(n, k);
            lemma_levels_total_all(n.left, k - 1);
            lemma_levels_total_all(n.right, k - 1);
        },
    }
}

proof fn lemma_levels_total_empty(k: int)
    ensures
        levels_total(None, k) == 0,
    decreases k,
{
    if k > 0 {
        lemma_levels_total_empty(k - 1);
    }
}

proof fn lemma_seq_sum_levels(t: Option<Box<Node>>, k: int)
    requires
        0 <= k <= height(t),
    ensures
        seq_sum(level_counts(t).subrange(0, k)) == levels_total(t, k),
    decreases k,
{
    if k > 0 {
        lemma_seq_sum_levels(t, k - 1);
        assert(level_counts(t).subrange(0, k).drop_last() =~= level_counts(t).subrange(0, k - 1));
    }
}

/// The level counts of a tree (its depth distribution) add up to the
/// number of nodes, and there are as many levels as the tree is high.
pub proof fn lemma_depth_distribution_total(t: Option<Box<Node>>)
    ensures
        seq_sum(level_counts(t)) == size(t),
        level_counts(t).len() == height(t),
{
    lemma_seq_sum_levels(t, height(t) as int);
    assert(level_counts(t).subrange(0, height(t) as int) =~= level_counts(t));
    lemma_levels_total_all(t, height(t) as int);
}

/// The largest element of a sequence of counts, 0 when it is empty.
pub open spec fn seq_max(s: Seq<nat>) -> nat
    decreases s.len(),
{
    if s.len() == 0 {
        0
    } else {
        max_nat(seq_max(s.drop_last()), s.last())
    }
}

/// The rows of the sideways picture of a subtree whose root is at depth
/// `d`: right subtree first, then the node, then the left subtree; each row
/// is a depth and a key.
pub open spec fn compact_rows_of(t: Option<Box<Node>>, d: int) -> Seq<(int, i32)>
    decreases t,
{
    match t {
        None => Seq::empty(),
        Some(n) => compact_rows_of(n.right, d + 1) + seq![(d, n.value)] + compact_rows_of(
            n.left,
            d + 1,
        ),
    }
}

/// Every level above the height holds at least one node, and each holds
/// at most twice as many as the one above it.
pub proof fn lemma_level_shape(t: Option<Box<Node>>, d: int)
    requires
        0 <= d < height(t),
    ensures
        level_count(t, d) >= 1,
        level_count(t, d + 1) <= 2 * level_count(t, d),
    decreases t,
{
    let n = t->0;
    if d == 0 {
        lemma_level_count_bounds(n.left, 0);
        lemma_level_count_bounds(n.right, 0);
        assert(level_count(n.left, 0) <= 1);
        assert(level_count(n.right, 0) <= 1);
    } else {
        lemma_level_count_bounds(n.left, d - 1);
        lemma_level_count_bounds(n.right, d - 1);
        lemma_level_count_bounds(n.left, d);
        lemma_level_count_bounds(n.right, d);
        if d - 1 < height(n.left) {
            lemma_level_shape(n.left, d - 1);
        }
        if d - 1 < height(n.right) {
            lemma_level_shape(n.right, d - 1);
        }
    }
}

pub(crate) proof fn lemma_level_count_bounds(t: Option<Box<Node>>, d: int)
    ensures
        level_count(t, d) <= size(t),
        d >= height(t) ==> level_count(t, d) == 0,
    decreases t,
{
    if let Some(n) = t {
        lemma_level_count_bounds(n.left, d - 1);
        lemma_level_count_bounds(n.right, d - 1);
    }
}

proof fn lemma_height_le_size(t: Option<Box<Node>>)
    ensures
        height(t) <= size(t),
    decreases t,
{
    if let Some(n) = t {
        lemma_height_le_size(n.left);
        lemma_height_le_size(n.right);
    }
}

impl Node {
    /// A leaf holding `value`.
    fn new(value: i32) -> (n: Self)
        ensures
            n.value == value,
            n.left is None,
            n.right is None,
    {
        Node { value, left: None, right: None }
    }
}

/// The tree obtained by inserting the first `i` keys one after another
/// into an empty tree.
pub open spec fn built(keys_seq: Seq<i32>, i: int) -> Option<Box<Node>>
    decreases i,
{
    if i <= 0 {
        None
    } else {
        insert_tree(built(keys_seq, i - 1), keys_seq[i - 1])
    }
}

impl BST {
    /// An empty tree.
    pub fn new() -> (t: Self)
        ensures
            t.root is None,
    {
        BST { root: None }
    }

    /// Inserts the items one after another.
    pub fn from_vec(items: Vec<i32>) -> (t: Self)
        ensures
            t.root == built(items@, items@.len() as int),
            is_bst(t.root),
            size(t.root) == items@.to_set().len(),
            keys(t.root) == items@.to_set(),
    {
        let mut tree = BST::new();
        let n = items.len();
        let mut i: usize = 0;
        while i < n
            invariant
                n == items@.len(),
                i <= n,
                is_bst(tree.root),
                keys(tree.root) == items@.subrange(0, i as int).to_set(),
                tree.root == built(items@, i as int),
            decreases n - i,
        {
            tree.insert(items[i]);
            proof {
                assert(items@.subrange(0, i + 1) =~= items@.subrange(0, i as int).push(items@[i as int]));
                items@.subrange(0, i as int).lemma_push_to_set_commute(items@[i as int]);
            }
            i += 1;
        }
        proof {
            assert(items@.subrange(0, n as int) =~= items@);
            lemma_bst_size_is_key_count(tree.root);
        }
        tree
    }

    /// Adds `value` as a new leaf where a search for it ends; nothing
    /// changes when the search meets it.
    pub fn insert(&mut self, value: i32)
        ensures
            keys(final(self).root) == keys(old(self).root).insert(value),
            is_bst(old(self).root) ==> is_bst(final(self).root),
            size(final(self).root) == size(old(self).root) + if search_finds(old(self).root, value) {
                0int
            } else {
                1int
            },
            search_finds(old(self).root, value) ==> final(self).root == old(self).root,
            final(self).root == insert_tree(old(self).root, value),
    {
        match self.root {
            Some(ref mut node) => Self::insert_recursive(node, value),
            None => self.root = Some(Box::new(Node::new(value))),
        }
    }

    /// The rows of the sideways picture of the tree (right subtree on top):
    /// for each node, its depth and its key.
    pub fn compact_rows(&self) -> (rows: Vec<(usize, i32)>)
        requires
            height(self.root) <= usize::MAX,
        ensures
            rows@.len() == compact_rows_of(self.root, 0).len(),
            forall|i: int|
                0 <= i < rows@.len() ==> (rows@[i].0 as int, rows@[i].1) == compact_rows_of(
                    self.root,
                    0,
                )[i],
    {
        let mut rows: Vec<(usize, i32)> = Vec::new();
        Self::compact_rec(&self.root, 0, &mut rows);
        proof {
            assert forall|i: int| 0 <= i < rows@.len() implies (rows@[i].0 as int, rows@[i].1)
                == compact_rows_of(self.root, 0)[i] by {
                assert(rows@[0 + i] == rows@[i]);
            }
        }
        rows
    }

    fn compact_rec(node: &Option<Box<Node>>, depth: usize, rows: &mut Vec<(usize, i32)>)
        requires
            depth + height(*node) <= usize::MAX,
        ensures
            final(rows)@.len() == old(rows)@.len() + compact_rows_of(*node, depth as int).len(),
            forall|i: int| 0 <= i < old(rows)@.len() ==> #[trigger] final(rows)@[i] == old(rows)@[i],
            forall|i: int|
                0 <= i < compact_rows_of(*node, depth as int).len() ==> (
                #[trigger] final(rows)@[old(rows)@.len() + i].0 as int,
                final(rows)@[old(rows)@.len() + i].1,
            ) == compact_rows_of(*node, depth as int)[i],
        decreases node,
    {
        if let Some(n) = node {
            let ghost r0 = rows@;
            Self::compact_rec(&n.right, depth + 1, rows);
            let ghost r1 = rows@;
            rows.push((depth, n.value));
            let ghost r2 = rows@;
            Self::compact_rec(&n.left, depth + 1, rows);
            proof {
                let a = compact_rows_of(n.right, depth + 1);
                let b = compact_rows_of(n.left, depth + 1);
                let all = compact_rows_of(*node, depth as int);
                assert(all == a + seq![(depth as int, n.value)] + b);
                assert forall|i: int| 0 <= i < all.len() implies (
                    #[trigger] rows@[r0.len() + i].0 as int,
                    rows@[r0.len() + i].1,
                ) == all[i] by {
                    if i < a.len() {
                        assert(rows@[r0.len() + i] == r1[r0.len() + i]);
                    } else if i == a.len() {
                        assert(rows@[r0.len() + i] == r2[r0.len() + i]);
                    } else {
                        assert(rows@[r0.len() + i] == rows@[r2.len() + (i - a.len() - 1)]);
                    }
                }
            }
        }
    }

    /// Whether a search for `value` from the root finds it.
    pub fn search(&self, value: &i32) -> (found: bool)
        ensures
            found == search_finds(self.root, *value),
            is_bst(self.root) ==> found == keys(self.root).contains(*value),
    {
        proof {
            lemma_search_finds_present(self.root, *value);
            if is_bst(self.root) {
                lemma_search_finds_keys(self.root, *value);
            }
        }
        Self::search_recursive(&self.root, value)
    }

    fn search_recursive(node_opt: &Option<Box<Node>>, value: &i32) -> (found: bool)
        ensures
            found == search_finds(*node_opt, *value),
        decreases node_opt,
    {
        match node_opt {
            Some(node) => {
                if *value == node.value {
                    true
                } else if *value < node.value {
                    Self::search_recursive(&node.left, value)
                } else {
                    Self::search_recursive(&node.right, value)
                }
            },
            None => false,
        }
    }

    /// Removes the node that a search for `value` finds; a node with two
    /// children is replaced by the smallest node of its right subtree.
    pub fn remove(&mut self, value: &i32)
        ensures
            keys(final(self).root).subset_of(keys(old(self).root)),
            keys(old(self).root).remove(*value).subset_of(keys(final(self).root)),
            is_bst(old(self).root) ==> is_bst(final(self).root) && keys(final(self).root) == keys(
                old(self).root,
            ).remove(*value),
            size(final(self).root) == size(old(self).root) - if search_finds(old(self).root, *value) {
                1int
            } else {
                0int
            },
            final(self).root == remove_tree(old(self).root, *value),
    {
        let root = self.root.take();
        self.root = Self::remove_recursive(root, value);
    }

    fn remove_recursive(node_opt: Option<Box<Node>>, value: &i32) -> (res: Option<Box<Node>>)
        ensures
            keys(res).subset_of(keys(node_opt)),
            keys(node_opt).remove(*value).subset_of(keys(res)),
            is_bst(node_opt) ==> is_bst(res) && keys(res) == keys(node_opt).remove(*value),
            size(res) == size(node_opt) - if search_finds(node_opt, *value) {
                1int
            } else {
                0int
            },
            res == remove_tree(node_opt, *value),
        decreases node_opt,
    {
        let ghost orig = node_opt;
        let mut node = match node_opt {
            Some(n) => n,
            None => {
                return None;
            },
        };
        let ghost n0 = *node;
        if *value < node.value {
            let left = node.left.take();
            node.left = Self::remove_recursive(left, value);
            proof {
                assert(keys(Some(node)) == keys(node.left).union(keys(node.right)).insert(node.value));
                assert(keys(orig) == keys(n0.left).union(keys(n0.right)).insert(n0.value));
                if is_bst(orig) {
                    assert(!keys(n0.right).contains(*value));
                    assert(keys(Some(node)) =~= keys(orig).remove(*value));
                }
            }
            Some(node)
        } else if *value > node.value {
            let right = node.right.take();
            node.right = Self::remove_recursive(right, value);
            proof {
                assert(keys(Some(node)) == keys(node.left).union(keys(node.right)).insert(node.value));
                assert(keys(orig) == keys(n0.left).union(keys(n0.right)).insert(n0.value));
                if is_bst(orig) {
                    assert(!keys(n0.left).contains(*value));
                    assert(keys(Some(node)) =~= keys(orig).remove(*value));
                }
            }
            Some(node)
        } else {
            proof {
                assert(keys(orig) == keys(n0.left).union(keys(n0.right)).insert(n0.value));
            }
            match (node.left.take(), node.right.take()) {
                (None, None) => {
                    proof {
                        assert(keys(orig).remove(*value) =~= Set::empty());
                    }
                    None
                },
                (Some(left), None) => {
                    proof {
                        if is_bst(orig) {
                            assert(keys(Some(left)) =~= keys(orig).remove(*value));
                        }
                    }
                    Some(left)
                },
                (None, Some(right)) => {
                    proof {
                        if is_bst(orig) {
                            assert(keys(Some(right)) =~= keys(orig).remove(*value));
                        }
                    }
                    Some(right)
                },
                (Some(left), Some(right)) => {
                    let ghost r0 = right;
                    let (mut min_node, new_right) = Self::remove_min(right);
                    let ghost m = min_node.value;
                    min_node.left = Some(left);
                    min_node.right = new_right;
                    proof {
                        assert(keys(Some(min_node)) == keys(min_node.left).union(keys(min_node.right)).insert(m));
                        if is_bst(orig) {
                            assert(keys(Some(r0)).contains(m));
                            assert(m > n0.value);
                            assert forall|x: i32| keys(min_node.left).contains(x) implies x < m by {
                                assert(x < n0.value);
                            }
                            assert(keys(Some(min_node)) =~= keys(orig).remove(*value));
                        }
                    }
                    Some(min_node)
                },
            }
        }
    }

    /// Detaches the leftmost node; returns it with both links cleared,
    /// together with what is left of the subtree.
    fn remove_min(node: Box<Node>) -> (res: (Box<Node>, Option<Box<Node>>))
        ensures
            res.0.left is None,
            res.0.right is None,
            keys(Some(node)) == keys(res.1).insert(res.0.value),
            size(res.1) + 1 == size(Some(node)),
            (res.0.value, res.1) == split_min(node),
            is_bst(Some(node)) ==> is_bst(res.1) && forall|x: i32| keys(res.1).contains(x) ==> x > res.0.value,
        decreases node,
    {
        let ghost n0 = *node;
        let mut node = node;
        if let Some(left) = node.left.take() {
            let (min_node, new_left) = Self::remove_min(left);
            node.left = new_left;
            proof {
                assert(keys(Some(node)) == keys(node.left).union(keys(node.right)).insert(node.value));
                assert(keys(Some(Box::new(n0))) == keys(n0.left).union(keys(n0.right)).insert(n0.value));
                assert(keys(Some(Box::new(n0))) =~= keys(Some(node)).insert(min_node.value));
                assert(size(Some(node)) == 1 + size(node.left) + size(node.right));
                assert(size(Some(Box::new(n0))) == 1 + size(n0.left) + size(n0.right));
                if is_bst(Some(Box::new(n0))) {
                    assert(keys(n0.left) == keys(node.left).insert(min_node.value));
                    assert forall|x: i32| keys(node.left).contains(x) implies x < node.value by {
                        assert(keys(n0.left).contains(x));
                    }
                    assert(is_bst(Some(node)));
                    assert(keys(n0.left).contains(min_node.value));
                    assert forall|x: i32| keys(Some(node)).contains(x) implies x > min_node.value by {
                        if keys(node.right).contains(x) {
                            assert(x > n0.value);
                        }
                    }
                }
            }
            (min_node, Some(node))
        } else {
            let right = node.right.take();
            proof {
                assert(n0.left is None);
                assert(keys(Some(Box::new(n0))) == keys(n0.left).union(keys(n0.right)).insert(n0.value));
                assert(keys(Some(Box::new(n0))) =~= keys(right).insert(node.value));
                assert(size(Some(Box::new(n0))) == 1 + size(n0.left) + size(n0.right));
                if is_bst(Some(Box::new(n0))) {
                    assert(is_bst(right));
                }
            }
            (node, right)
        }
    }

    fn insert_recursive(node: &mut Node, value: i32)
        ensures
            keys(Some(Box::new(*final(node)))) == keys(Some(Box::new(*old(node)))).insert(value),
            is_bst(Some(Box::new(*old(node)))) ==> is_bst(Some(Box::new(*final(node)))),
            size(Some(Box::new(*final(node)))) == size(Some(Box::new(*old(node)))) + if search_finds(
                Some(Box::new(*old(node))),
                value,
            ) {
                0int
            } else {
                1int
            },
            search_finds(Some(Box::new(*old(node))), value) ==> *final(node) == *old(node),
            final(node).value == old(node).value,
            Some(Box::new(*final(node))) == insert_tree(Some(Box::new(*old(node))), value),
        decreases *old(node),
    {
        let ghost n0 = *node;
        if value < node.value {
            match node.left {
                Some(ref mut left_node) => Self::insert_recursive(left_node, value),
                None => node.left = Some(Box::new(Node::new(value))),
            }
            proof {
                assert(node.right == n0.right);
                assert(node.left == insert_tree(n0.left, value));
                assert(keys(node.left) =~= keys(n0.left).insert(value));
                assert(keys(Some(Box::new(*node))) =~= keys(Some(Box::new(n0))).insert(value));
                assert(size(node.left) == size(n0.left) + if search_finds(n0.left, value) {
                    0int
                } else {
                    1int
                });
                if is_bst(Some(Box::new(n0))) {
                    assert(is_bst(node.left));
                }
            }
        } else if value > node.value {
            match node.right {
                Some(ref mut right_node) => Self::insert_recursive(right_node, value),
                None => node.right = Some(Box::new(Node::new(value))),
            }
            proof {
                assert(node.left == n0.left);
                assert(node.right == insert_tree(n0.right, value));
                assert(keys(node.right) =~= keys(n0.right).insert(value));
                assert(keys(Some(Box::new(*node))) =~= keys(Some(Box::new(n0))).insert(value));
                assert(size(node.right) == size(n0.right) + if search_finds(n0.right, value) {
                    0int
                } else {
                    1int
                });
                if is_bst(Some(Box::new(n0))) {
                    assert(is_bst(node.right));
                }
            }
        } else {
            proof {
                assert(keys(Some(Box::new(n0))).contains(value));
                assert(keys(Some(Box::new(n0))).insert(value) =~= keys(Some(Box::new(n0))));
            }
        }
    }
}

/// Shape statistics of a `BST`.
pub struct TreeAnalyzer<'a> {
    tree: &'a BST,
}

impl<'a> TreeAnalyzer<'a> {
    /// An analyzer for `tree`.
    pub fn new(tree: &'a BST) -> (a: Self)
        ensures
            a.tree() == tree,
    {
        TreeAnalyzer { tree }
    }

    /// The analysed tree.
    pub closed spec fn tree(&self) -> &'a BST {
        self.tree
    }

    /// Number of nodes.
    pub fn count_nodes(&self) -> (count: usize)
        requires
            size(self.tree().root) <= usize::MAX,
        ensures
            count == size(self.tree().root),
    {
        Self::count_rec(&self.tree.root)
    }

    fn count_rec(node: &Option<Box<Node>>) -> (count: usize)
        requires
            size(*node) <= usize::MAX,
        ensures
            count == size(*node),
        decreases node,
    {
        match node {
            Some(n) => 1 + Self::count_rec(&n.left) + Self::count_rec(&n.right),
            None => 0,
        }
    }

    /// Number of levels.
    pub fn height(&self) -> (h: usize)
        requires
            size(self.tree().root) <= usize::MAX,
        ensures
            h == height(self.tree().root),
    {
        Self::height_rec(&self.tree.root)
    }

    fn height_rec(node: &Option<Box<Node>>) -> (h: usize)
        requires
            size(*node) <= usize::MAX,
        ensures
            h == height(*node),
        decreases node,
    {
        proof {
            lemma_height_le_size(*node);
        }
        match node {
            Some(n) => {
                let l = Self::height_rec(&n.left);
                let r = Self::height_rec(&n.right);
                1 + if l >= r {
                    l
                } else {
                    r
                }
            },
            None => 0,
        }
    }

    /// How many nodes each level holds, from the root down.
    pub fn depth_distribution(&self) -> (dist: Vec<usize>)
        requires
            size(self.tree().root) <= usize::MAX,
        ensures
            dist@.len() == height(self.tree().root),
            forall|d: int| 0 <= d < dist@.len() ==> dist@[d] == level_count(self.tree().root, d),
            forall|d: int| 0 <= d < dist@.len() ==> #[trigger] dist@[d] >= 1,
            forall|d: int| 0 <= d && d + 1 < dist@.len() ==> #[trigger] dist@[d + 1] <= 2 * dist@[d],
    {
        let mut dist: Vec<usize> = Vec::new();
        if self.tree.root.is_none() {
            return dist;
        }
        proof {
            lemma_height_le_size(self.tree.root);
        }
        Self::count_levels(&self.tree.root, 0, &mut dist);
        proof {
            assert forall|d: int| 0 <= d < dist@.len() implies #[trigger] dist@[d] >= 1 by {
                lemma_level_shape(self.tree.root, d);
            }
            assert forall|d: int| 0 <= d && d + 1 < dist@.len() implies #[trigger] dist@[d + 1] <= 2
                * dist@[d] by {
                lemma_level_shape(self.tree.root, d);
            }
        }
        dist
    }

    /// Adds the nodes of `node`, whose root sits at `depth`, to the level
    /// counts in `dist`, growing it as needed.
    fn count_levels(node: &Option<Box<Node>>, depth: usize, dist: &mut Vec<usize>)
        requires
            old(dist)@.len() >= depth,
            depth + height(*node) <= usize::MAX,
            forall|k: int| 0 <= k < old(dist)@.len() ==> old(dist)@[k] + size(*node) <= usize::MAX,
            size(*node) <= usize::MAX,
        ensures
            final(dist)@.len() == if node is Some {
                max_nat(old(dist)@.len(), (depth + height(*node)) as nat)
            } else {
                old(dist)@.len()
            },
            forall|k: int|
                0 <= k < final(dist)@.len() ==> #[trigger] final(dist)@[k] == (if k < old(dist)@.len() {
                    old(dist)@[k] as int
                } else {
                    0
                }) + level_count(*node, k - depth),
        decreases node,
    {
        match node {
            Some(n) => {
                let ghost d0 = dist@;
                proof {
                    lemma_level_count_bounds(n.left, 0);
                }
                if depth >= dist.len() {
                    dist.push(0);
                }
                let ghost d1 = dist@;
                dist.set(depth, dist[depth] + 1);
                let ghost d2 = dist@;
                proof {
                    assert forall|k: int| 0 <= k < d2.len() implies d2[k] + size(n.left) <= usize::MAX by {
                        if k < d0.len() {
                            assert(d0[k] + size(*node) <= usize::MAX);
                        }
                    }
                }
                Self::count_levels(&n.left, depth + 1, dist);
                let ghost d3 = dist@;
                proof {
                    assert forall|k: int| 0 <= k < d3.len() implies d3[k] + size(n.right) <= usize::MAX by {
                        lemma_level_count_bounds(n.left, k - depth - 1);
                        if k < d0.len() {
                            assert(d0[k] + size(*node) <= usize::MAX);
                        }
                    }
                }
                Self::count_levels(&n.right, depth + 1, dist);
                proof {
                    assert forall|k: int| 0 <= k < dist@.len() implies #[trigger] dist@[k] == (if k
                        < d0.len() {
                        d0[k] as int
                    } else {
                        0
                    }) + level_count(*node, k - depth) by {
                        lemma_level_count_bounds(n.left, k - depth - 1);
                        lemma_level_count_bounds(n.right, k - depth - 1);
                    }
                }
            },
            None => {},
        }
    }

    /// The number of nodes on the fullest level (0 for an empty tree).
    pub fn max_width(&self) -> (w: usize)
        requires
            size(self.tree().root) <= usize::MAX,
        ensures
            w == seq_max(level_counts(self.tree().root)),
    {
        let dist = self.depth_distribution();
        let ghost counts = level_counts(self.tree.root);
        let mut best: usize = 0;
        let mut i: usize = 0;
        proof {
            assert(counts.subrange(0, 0) =~= Seq::<nat>::empty());
        }
        while i < dist.len()
            invariant
                i <= dist@.len(),
                dist@.len() == counts.len(),
                forall|d: int| 0 <= d < dist@.len() ==> dist@[d] == counts[d],
                best == seq_max(counts.subrange(0, i as int)),
            decreases dist@.len() - i,
        {
            proof {
                assert(counts.subrange(0, i + 1).drop_last() =~= counts.subrange(0, i as int));
            }
            if dist[i] > best {
                best = dist[i];
            }
            i += 1;
        }
        proof {
            assert(counts.subrange(0, i as int) =~= counts);
        }
        best
    }

    /// The keys met by a search for `target` and whether it was found.
    pub fn search_with_trace(&self, target: &i32) -> (res: (Vec<i32>, bool))
        ensures
            res.0@ == search_path(self.tree().root, *target),
            res.1 == search_finds(self.tree().root, *target),
    {
        let mut path: Vec<i32> = Vec::new();
        let mut current = &self.tree.root;
        loop
            invariant
                path@ + search_path(*current, *target) == search_path(self.tree().root, *target),
                search_finds(*current, *target) == search_finds(self.tree().root, *target),
            decreases *current,
        {
            match current {
                Some(node) => {
                    let ghost before = path@;
                    path.push(node.value);
                    if *target == node.value {
                        proof {
                            assert(path@ =~= before + search_path(*current, *target));
                        }
                        return (path, true);
                    } else if *target < node.value {
                        proof {
                            assert(path@ + search_path(node.left, *target) =~= before + search_path(
                                *current,
                                *target,
                            ));
                        }
                        current = &node.left;
                    } else {
                        proof {
                            assert(path@ + search_path(node.right, *target) =~= before + search_path(
                                *current,
                                *target,
                            ));
                        }
                        current = &node.right;
                    }
                },
                None => {
                    proof {
                        assert(path@ =~= path@ + search_path(*current, *target));
                    }
                    return (path, false);
                },
            }
        }
    }
}

} // verus!
