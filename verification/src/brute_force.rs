//! Checking the maximum path sum of a tree by brute force: the tree is
//! turned into an undirected graph of its keys, and a depth-first search
//! from every key tries every path without repeated keys.
use vstd::prelude::*;
use crate::bst::{keys, Node, BST};
use crate::max_path::{lemma_sum_concat, lemma_sum_single, sum};

verus! {

/// The root of `t` holds `v`.
pub open spec fn root_is(t: Option<Box<Node>>, v: i32) -> bool {
    match t {
        Some(n) => n.value == v,
        None => false,
    }
}

/// Some node of `t` holds `u` and has a child holding `v`.
pub open spec fn child_edge(t: Option<Box<Node>>, u: i32, v: i32) -> bool
    decreases t,
{
    match t {
        None => false,
        Some(n) => {
            ||| (n.value == u && root_is(n.left, v))
            ||| (n.value == u && root_is(n.right, v))
            ||| child_edge(n.left, u, v)
            ||| child_edge(n.right, u, v)
        },
    }
}

/// Keys `u` and `v` sit in neighbouring nodes of `t`.
pub open spec fn tree_adjacent(t: Option<Box<Node>>, u: i32, v: i32) -> bool {
    child_edge(t, u, v) || child_edge(t, v, u)
}

/// `p` is a path of the graph with vertices `verts` and directed edges
/// `edges`: non-empty, no vertex twice, each step along an edge.
#[verifier::opaque]
pub open spec fn is_walk(edges: Seq<(i32, i32)>, verts: Seq<i32>, p: Seq<i32>) -> bool {
    &&& p.len() > 0
    &&& p.no_duplicates()
    &&& forall|i: int| 0 <= i < p.len() ==> verts.contains(#[trigger] p[i])
    &&& forall|i: int| 0 <= i < p.len() - 1 ==> #[trigger] edge_step(edges, p, i)
}

/// Positions `i` and `i + 1` of `p` are joined by an edge.
pub open spec fn edge_step(edges: Seq<(i32, i32)>, p: Seq<i32>, i: int) -> bool {
    edges.contains((p[i], p[i + 1]))
}

/// The keys at positions `i` and `i + 1` of `p` sit in neighbouring nodes.
pub open spec fn key_step(t: Option<Box<Node>>, p: Seq<i32>, i: int) -> bool {
    tree_adjacent(t, p[i], p[i + 1])
}

/// `p` is a path without repeated keys in the graph of `t`: keys are
/// vertices, keys of neighbouring nodes are joined both ways.
pub open spec fn is_key_path(t: Option<Box<Node>>, p: Seq<i32>) -> bool {
    &&& p.len() > 0
    &&& p.no_duplicates()
    &&& forall|i: int| 0 <= i < p.len() ==> keys(t).contains(#[trigger] p[i])
    &&& forall|i: int| 0 <= i < p.len() - 1 ==> #[trigger] key_step(t, p, i)
}

/// Every path of the graph sums to a value that fits in an `i32`.
pub open spec fn walks_fit(edges: Seq<(i32, i32)>, verts: Seq<i32>) -> bool {
    forall|q: Seq<i32>| #[trigger] is_walk(edges, verts, q) ==> i32::MIN <= sum(q) <= i32::MAX
}

/// Every key path of `t` sums to a value that fits in an `i32`.
pub open spec fn key_paths_fit(t: Option<Box<Node>>) -> bool {
    forall|q: Seq<i32>| #[trigger] is_key_path(t, q) ==> i32::MIN <= sum(q) <= i32::MAX
}

/// Whether `v` holds `x`.
fn holds(v: &Vec<i32>, x: i32) -> (r: bool)
    ensures
        r == v@.contains(x),
{
    let mut i: usize = 0;
    while i < v.len()
        invariant
            i <= v@.len(),
            forall|k: int| 0 <= k < i ==> v@[k] != x,
        decreases v@.len() - i,
    {
        if v[i] == x {
            return true;
        }
        i += 1;
    }
    false
}

/// Adds `x` to the vertex list unless it is there already.
fn add_vertex(verts: &mut Vec<i32>, x: i32)
    requires
        old(verts)@.no_duplicates(),
    ensures
        final(verts)@.no_duplicates(),
        forall|u: i32| final(verts)@.contains(u) <==> old(verts)@.contains(u) || u == x,
{
    if !holds(verts, x) {
        verts.push(x);
        proof {
            assert forall|u: i32| verts@.contains(u) <==> old(verts)@.contains(u) || u == x by {
                if verts@.contains(u) {
                    let k = choose|k: int| 0 <= k < verts@.len() && verts@[k] == u;
                    if k < old(verts)@.len() {
                        assert(old(verts)@[k] == u);
                    }
                }
                if old(verts)@.contains(u) {
                    let k = choose|k: int| 0 <= k < old(verts)@.len() && old(verts)@[k] == u;
                    assert(verts@[k] == u);
                }
                if u == x {
                    assert(verts@[verts@.len() - 1] == u);
                }
            }
        }
    }
}

/// Adds the keys of `node_opt` as vertices and joins the keys of every
/// parent and child both ways.
fn build_graph(node_opt: &Option<Box<Node>>, verts: &mut Vec<i32>, edges: &mut Vec<(i32, i32)>)
    requires
        old(verts)@.no_duplicates(),
    ensures
        final(verts)@.no_duplicates(),
        forall|u: i32|
            #![trigger final(verts)@.contains(u)]
            #![trigger old(verts)@.contains(u)]
            final(verts)@.contains(u) <==> old(verts)@.contains(u) || keys(*node_opt).contains(u),
        forall|u: i32, v: i32|
            #![trigger final(edges)@.contains((u, v))]
            #![trigger old(edges)@.contains((u, v))]
            final(edges)@.contains((u, v)) <==> old(edges)@.contains((u, v)) || tree_adjacent(
                *node_opt,
                u,
                v,
            ),
    decreases node_opt,
{
    if let Some(node) = node_opt {
        let ghost e0 = edges@;
        let ghost v0 = verts@;
        add_vertex(verts, node.value);
        let ghost v1 = verts@;
        if let Some(left) = &node.left {
            edges.push((node.value, left.value));
            edges.push((left.value, node.value));
            let ghost el = edges@;
            proof {
                lemma_contains_push2(e0, (node.value, left.value), (left.value, node.value));
            }
            add_vertex(verts, left.value);
            let ghost vl = verts@;
            build_graph(&node.left, verts, edges);
            proof {
                assert(keys(node.left).contains(left.value));
                assert forall|u: i32, v: i32|
                    edges@.contains((u, v)) <==> e0.contains((u, v)) || side_adjacent(
                        node.value,
                        node.left,
                        u,
                        v,
                    ) by {
                    assert(edges@.contains((u, v)) <==> el.contains((u, v)) || tree_adjacent(
                        node.left,
                        u,
                        v,
                    ));
                    assert(el.contains((u, v)) <==> e0.contains((u, v)) || (u, v) == (
                        node.value,
                        left.value,
                    ) || (u, v) == (left.value, node.value));
                }
                assert forall|u: i32|
                    verts@.contains(u) <==> v0.contains(u) || u == node.value || keys(
                        node.left,
                    ).contains(u) by {
                    assert(verts@.contains(u) <==> vl.contains(u) || keys(node.left).contains(u));
                    assert(vl.contains(u) <==> v1.contains(u) || u == left.value);
                    assert(v1.contains(u) <==> v0.contains(u) || u == node.value);
                }
            }
        } else {
            proof {
                assert forall|u: i32, v: i32|
                    edges@.contains((u, v)) <==> e0.contains((u, v)) || side_adjacent(
                        node.value,
                        node.left,
                        u,
                        v,
                    ) by {
                    assert(!child_edge(node.left, u, v) && !child_edge(node.left, v, u));
                }
                assert forall|u: i32|
                    verts@.contains(u) <==> v0.contains(u) || u == node.value || keys(
                        node.left,
                    ).contains(u) by {
                    assert(v1.contains(u) <==> v0.contains(u) || u == node.value);
                }
            }
        }
        let ghost e2 = edges@;
        let ghost v2 = verts@;
        if let Some(right) = &node.right {
            edges.push((node.value, right.value));
            edges.push((right.value, node.value));
            proof {
                lemma_contains_push2(e2, (node.value, right.value), (right.value, node.value));
            }
            add_vertex(verts, right.value);
            build_graph(&node.right, verts, edges);
            proof {
                assert(keys(node.right).contains(right.value));
            }
        }
        proof {
            assert forall|u: i32, v: i32|
                edges@.contains((u, v)) <==> e2.contains((u, v)) || side_adjacent(
                    node.value,
                    node.right,
                    u,
                    v,
                ) by {
                if node.right is None {
                    assert(!child_edge(node.right, u, v) && !child_edge(node.right, v, u));
                }
            }
            assert forall|u: i32|
                verts@.contains(u) <==> v2.contains(u) || keys(node.right).contains(u) by {}
            assert forall|u: i32, v: i32|
                tree_adjacent(*node_opt, u, v) <==> side_adjacent(node.value, node.left, u, v)
                    || side_adjacent(node.value, node.right, u, v) by {}
        }
    }
}

/// `u` and `v` are the key `k` of a node and the key of its child subtree
/// `c`, either way round, or neighbours inside `c`.
pub open spec fn side_adjacent(k: i32, c: Option<Box<Node>>, u: i32, v: i32) -> bool {
    ||| (u == k && root_is(c, v))
    ||| (v == k && root_is(c, u))
    ||| tree_adjacent(c, u, v)
}

/// Pushing two elements adds exactly those two.
proof fn lemma_contains_push2<A>(s: Seq<A>, x: A, y: A)
    ensures
        forall|z: A| #[trigger] s.push(x).push(y).contains(z) <==> s.contains(z) || z == x || z == y,
{
    assert forall|z: A| #[trigger] s.push(x).push(y).contains(z) <==> s.contains(z) || z == x || z == y by {
        let t = s.push(x).push(y);
        if t.contains(z) {
            let k = choose|k: int| 0 <= k < t.len() && t[k] == z;
            if k < s.len() {
                assert(s[k] == z);
            }
        }
        if s.contains(z) {
            let k = choose|k: int| 0 <= k < s.len() && s[k] == z;
            assert(t[k] == z);
        }
        if z == x {
            assert(t[s.len() as int] == z);
        }
        if z == y {
            assert(t[s.len() as int + 1] == z);
        }
    }
}

/// The best path found so far: a path of the graph with sum `best_sum`,
/// or no path yet and `best_sum` at `i32::MIN`.
pub open spec fn best_ok(edges: Seq<(i32, i32)>, verts: Seq<i32>, best_sum: i32, best_path: Seq<i32>) -> bool {
    &&& best_path.len() > 0 ==> is_walk(edges, verts, best_path) && sum(best_path) == best_sum
    &&& best_path.len() == 0 ==> best_sum == i32::MIN
}

/// Every edge joins two vertices.
pub open spec fn edges_within(edges: Seq<(i32, i32)>, verts: Seq<i32>) -> bool {
    forall|k: int|
        0 <= k < edges.len() ==> verts.contains(#[trigger] edges[k].0) && verts.contains(edges[k].1)
}

/// A path of the graph visits at most every vertex once.
proof fn lemma_walk_len(edges: Seq<(i32, i32)>, verts: Seq<i32>, p: Seq<i32>)
    requires
        is_walk(edges, verts, p),
    ensures
        p.len() <= verts.len(),
{
    reveal(is_walk);
    p.unique_seq_to_set();
    verts.lemma_cardinality_of_set();
    assert(p.to_set().subset_of(verts.to_set())) by {
        assert forall|x: i32| p.to_set().contains(x) implies verts.to_set().contains(x) by {
            let i = choose|i: int| 0 <= i < p.len() && p[i] == x;
            assert(verts.contains(p[i]));
        }
    }
    vstd::set_lib::lemma_len_subset(p.to_set(), verts.to_set());
}

/// A non-empty beginning of a path is a path.
proof fn lemma_walk_prefix(edges: Seq<(i32, i32)>, verts: Seq<i32>, p: Seq<i32>, j: int)
    requires
        is_walk(edges, verts, p),
        1 <= j <= p.len(),
    ensures
        is_walk(edges, verts, p.take(j)),
{
    reveal(is_walk);
    let q = p.take(j);
    assert forall|a: int, b: int| 0 <= a < b < q.len() implies q[a] != q[b] by {
        assert(p[a] != p[b]);
    }
    assert forall|i: int| 0 <= i < q.len() - 1 implies #[trigger] edge_step(edges, q, i) by {
        assert(edge_step(edges, p, i));
    }
    assert forall|i: int| 0 <= i < q.len() implies verts.contains(#[trigger] q[i]) by {
        assert(verts.contains(p[i]));
    }
}

/// The sum of the first `i + 1` keys is that of the first `i` plus key `i`.
proof fn lemma_sum_take_step(p: Seq<i32>, i: int)
    requires
        0 <= i < p.len(),
    ensures
        sum(p.take(i + 1)) == sum(p.take(i)) + p[i],
{
    assert(p.take(i + 1) =~= p.take(i) + seq![p[i]]);
    lemma_sum_concat(p.take(i), seq![p[i]]);
    lemma_sum_single(p[i]);
}

/// A path extended along an edge to a new vertex is a path.
proof fn lemma_walk_extend(edges: Seq<(i32, i32)>, verts: Seq<i32>, path: Seq<i32>, b: i32)
    requires
        is_walk(edges, verts, path),
        !path.contains(b),
        verts.contains(b),
        edges.contains((path.last(), b)),
    ensures
        is_walk(edges, verts, path.push(b)),
{
    reveal(is_walk);
    let q = path.push(b);
    assert forall|x: int, y: int| 0 <= x < y < q.len() implies q[x] != q[y] by {
        if y == q.len() - 1 {
            assert(q[x] == path[x]);
        }
    }
    assert forall|i2: int| 0 <= i2 < q.len() - 1 implies #[trigger] edge_step(edges, q, i2) by {
        if i2 < path.len() - 1 {
            assert(edge_step(edges, path, i2));
        }
    }
    assert forall|i2: int| 0 <= i2 < q.len() implies verts.contains(#[trigger] q[i2]) by {
        if i2 < path.len() {
            assert(verts.contains(path[i2]));
        }
    }
}

/// A step of a path leaving `path` for `rest` goes along an edge.
proof fn lemma_walk_next(edges: Seq<(i32, i32)>, verts: Seq<i32>, path: Seq<i32>, rest: Seq<i32>)
    requires
        is_walk(edges, verts, path + rest),
        path.len() > 0,
        rest.len() > 0,
    ensures
        edges.contains((path.last(), rest[0])),
{
    reveal(is_walk);
    let q = path + rest;
    assert(edge_step(edges, q, path.len() - 1));
}

/// Appending a key already on a path repeats it.
proof fn lemma_repeat_not_walk(edges: Seq<(i32, i32)>, verts: Seq<i32>, path: Seq<i32>, rest: Seq<i32>)
    requires
        rest.len() > 0,
        path.contains(rest[0]),
    ensures
        !is_walk(edges, verts, path + rest),
{
    reveal(is_walk);
    let j = choose|j: int| 0 <= j < path.len() && path[j] == rest[0];
    let q = path + rest;
    assert(q[j] == q[path.len() as int]);
}

/// Extends the path by `current`, records it when its sum beats the best so
/// far (or when no path was recorded yet), then goes on to every neighbour
/// of `current` that is not on the path yet.
fn dfs_all_paths(
    current: i32,
    edges: &Vec<(i32, i32)>,
    Ghost(verts): Ghost<Seq<i32>>,
    visited: &mut Vec<i32>,
    current_path: &mut Vec<i32>,
    best_sum: &mut i32,
    best_path: &mut Vec<i32>,
)
    requires
        old(visited)@ == old(current_path)@,
        is_walk(edges@, verts, old(current_path)@.push(current)),
        edges_within(edges@, verts),
        walks_fit(edges@, verts),
        best_ok(edges@, verts, *old(best_sum), old(best_path)@),
    ensures
        final(visited)@ == old(visited)@,
        final(current_path)@ == old(current_path)@,
        *old(best_sum) <= *final(best_sum),
        final(best_path)@.len() > 0,
        best_ok(edges@, verts, *final(best_sum), final(best_path)@),
        forall|rest: Seq<i32>|
            #[trigger] is_walk(edges@, verts, old(current_path)@.push(current) + rest) ==> sum(
                old(current_path)@.push(current) + rest,
            ) <= *final(best_sum),
    decreases verts.len() - old(current_path)@.len(),
{
    proof {
        lemma_walk_len(edges@, verts, old(current_path)@.push(current));
    }
    visited.push(current);
    current_path.push(current);
    let ghost path = current_path@;
    let mut s: i32 = 0;
    let mut i: usize = 0;
    proof {
        assert(path.take(0) =~= Seq::<i32>::empty());
    }
    while i < current_path.len()
        invariant
            path == current_path@,
            is_walk(edges@, verts, path),
            walks_fit(edges@, verts),
            i <= path.len(),
            s == sum(path.take(i as int)),
        decreases path.len() - i,
    {
        proof {
            lemma_walk_prefix(edges@, verts, path, i + 1);
            lemma_sum_take_step(path, i as int);
            assert(is_walk(edges@, verts, path.take(i + 1)));
        }
        s = s + current_path[i];
        i += 1;
    }
    proof {
        assert(path.take(path.len() as int) =~= path);
    }
    if s > *best_sum || (s == *best_sum && best_path.len() == 0) {
        *best_sum = s;
        *best_path = vstd::slice::slice_to_vec(current_path.as_slice());
    }
    let ghost best0 = *old(best_sum);
    let mut k: usize = 0;
    while k < edges.len()
        invariant
            visited@ == path,
            current_path@ == path,
            path == old(current_path)@.push(current),
            is_walk(edges@, verts, path),
            edges_within(edges@, verts),
            walks_fit(edges@, verts),
            best_ok(edges@, verts, *best_sum, best_path@),
            best_path@.len() > 0,
            best0 <= *best_sum,
            sum(path) <= *best_sum,
            path.len() <= verts.len(),
            k <= edges@.len(),
            forall|k2: int, rest: Seq<i32>|
                #![trigger edges@[k2], is_walk(edges@, verts, path + rest)]
                0 <= k2 < k && edges@[k2].0 == current && rest.len() > 0 && rest[0] == edges@[k2].1
                    && is_walk(edges@, verts, path + rest) ==> sum(path + rest) <= *best_sum,
        decreases edges@.len() - k,
    {
        let (a, b) = edges[k];
        let ghost before = *best_sum;
        if a == current && !holds(visited, b) {
            proof {
                assert(verts.contains(edges@[k as int].1));
                assert(edges@[k as int] == (current, b));
                assert(path.last() == current);
                lemma_walk_extend(edges@, verts, path, b);
            }
            dfs_all_paths(b, edges, Ghost(verts), visited, current_path, best_sum, best_path);
            proof {
                assert forall|k2: int, rest: Seq<i32>|
                    #![trigger edges@[k2], is_walk(edges@, verts, path + rest)]
                    0 <= k2 < k + 1 && edges@[k2].0 == current && rest.len() > 0 && rest[0]
                        == edges@[k2].1 && is_walk(edges@, verts, path + rest) implies sum(
                        path + rest,
                    ) <= *best_sum by {
                    if k2 == k {
                        assert(path + rest =~= path.push(b) + rest.drop_first());
                        assert(is_walk(edges@, verts, path.push(b) + rest.drop_first()));
                    }
                }
            }
        } else {
            proof {
                assert forall|k2: int, rest: Seq<i32>|
                    #![trigger edges@[k2], is_walk(edges@, verts, path + rest)]
                    0 <= k2 < k + 1 && edges@[k2].0 == current && rest.len() > 0 && rest[0]
                        == edges@[k2].1 && is_walk(edges@, verts, path + rest) implies sum(
                        path + rest,
                    ) <= *best_sum by {
                    if k2 == k {
                        lemma_repeat_not_walk(edges@, verts, path, rest);
                    }
                }
            }
        }
        k += 1;
    }
    visited.pop();
    current_path.pop();
    proof {
        assert(visited@ =~= old(visited)@);
        assert(current_path@ =~= old(current_path)@);
        assert forall|rest: Seq<i32>|
            #[trigger] is_walk(edges@, verts, path + rest) implies sum(path + rest) <= *best_sum by {
            if rest.len() == 0 {
                assert(path + rest =~= path);
            } else {
                lemma_walk_next(edges@, verts, path, rest);
                let k2 = choose|k2: int| 0 <= k2 < edges@.len() && edges@[k2] == (current, rest[0]);
                assert(edges@[k2].0 == current);
            }
        }
    }
}

/// Neighbouring keys are keys of the tree.
pub(crate) proof fn lemma_child_edge_keys(t: Option<Box<Node>>, u: i32, v: i32)
    requires
        child_edge(t, u, v),
    ensures
        keys(t).contains(u),
        keys(t).contains(v),
    decreases t,
{
    let n = t->0;
    if child_edge(n.left, u, v) {
        lemma_child_edge_keys(n.left, u, v);
    } else if child_edge(n.right, u, v) {
        lemma_child_edge_keys(n.right, u, v);
    } else if n.value == u && root_is(n.left, v) {
        assert(keys(n.left).contains(v));
    } else {
        assert(keys(n.right).contains(v));
    }
}

/// In the graph built from a tree, the paths are the key paths of the tree.
proof fn lemma_walks_are_key_paths(t: Option<Box<Node>>, edges: Seq<(i32, i32)>, verts: Seq<i32>, p: Seq<i32>)
    requires
        forall|u: i32| verts.contains(u) <==> keys(t).contains(u),
        forall|u: i32, v: i32| edges.contains((u, v)) <==> tree_adjacent(t, u, v),
    ensures
        is_walk(edges, verts, p) == is_key_path(t, p),
{
    reveal(is_walk);
    if is_walk(edges, verts, p) {
        assert forall|i: int| 0 <= i < p.len() - 1 implies #[trigger] key_step(t, p, i) by {
            assert(edge_step(edges, p, i));
        }
        assert forall|i: int| 0 <= i < p.len() implies keys(t).contains(#[trigger] p[i]) by {
            assert(verts.contains(p[i]));
        }
    }
    if is_key_path(t, p) {
        assert forall|i: int| 0 <= i < p.len() - 1 implies #[trigger] edge_step(edges, p, i) by {
            assert(key_step(t, p, i));
        }
        assert forall|i: int| 0 <= i < p.len() implies verts.contains(#[trigger] p[i]) by {
            assert(keys(t).contains(p[i]));
        }
    }
}

/// The largest sum of a path without repeated keys in the graph of the
/// tree, with such a path, found by a depth-first search from every key;
/// `(0, [])` for an empty tree.
pub fn brute_force_validator(tree: &BST) -> (res: (i32, Vec<i32>))
    requires
        key_paths_fit(tree.root),
    ensures
        tree.root is None ==> res.0 == 0 && res.1@.len() == 0,
        tree.root is Some ==> {
            &&& is_key_path(tree.root, res.1@)
            &&& sum(res.1@) == res.0
            &&& forall|p: Seq<i32>| is_key_path(tree.root, p) ==> sum(p) <= res.0
        },
{
    if tree.root.is_none() {
        return (0, Vec::new());
    }
    let mut verts: Vec<i32> = Vec::new();
    let mut edges: Vec<(i32, i32)> = Vec::new();
    build_graph(&tree.root, &mut verts, &mut edges);
    let ghost root = tree.root;
    proof {
        assert forall|u: i32, v: i32| edges@.contains((u, v)) <==> tree_adjacent(root, u, v) by {}
        assert forall|u: i32| verts@.contains(u) <==> keys(root).contains(u) by {}
        assert forall|k: int| 0 <= k < edges@.len() implies verts@.contains(#[trigger] edges@[k].0)
            && verts@.contains(edges@[k].1) by {
            let (u, v) = edges@[k];
            assert(edges@.contains((u, v)));
            if child_edge(root, u, v) {
                lemma_child_edge_keys(root, u, v);
            } else {
                lemma_child_edge_keys(root, v, u);
            }
        }
        assert forall|q: Seq<i32>| #[trigger] is_walk(edges@, verts@, q) implies i32::MIN <= sum(q)
            <= i32::MAX by {
            lemma_walks_are_key_paths(root, edges@, verts@, q);
        }
        assert(keys(root).contains(root->0.value));
    }
    if verts.len() == 0 {
        proof {
            assert(verts@.contains(root->0.value));
        }
        let val = match &tree.root {
            Some(n) => n.value,
            None => 0,
        };
        return (val, vec![val]);
    }
    let mut best_sum: i32 = i32::MIN;
    let mut best_path: Vec<i32> = Vec::new();
    let mut idx: usize = 0;
    while idx < verts.len()
        invariant
            idx <= verts@.len(),
            verts@.len() > 0,
            edges_within(edges@, verts@),
            walks_fit(edges@, verts@),
            best_ok(edges@, verts@, best_sum, best_path@),
            idx > 0 ==> best_path@.len() > 0,
            forall|j: int, rest: Seq<i32>|
                #![trigger verts@[j], is_walk(edges@, verts@, seq![verts@[j]] + rest)]
                0 <= j < idx && is_walk(edges@, verts@, seq![verts@[j]] + rest) ==> sum(
                    seq![verts@[j]] + rest,
                ) <= best_sum,
        decreases verts@.len() - idx,
    {
        let start_node = verts[idx];
        let mut visited: Vec<i32> = Vec::new();
        let mut current_path: Vec<i32> = Vec::new();
        proof {
            reveal(is_walk);
            let p = current_path@.push(start_node);
            assert(p =~= seq![start_node]);
            assert(verts@.contains(p[0])) by {
                assert(verts@[idx as int] == start_node);
            }
            assert(is_walk(edges@, verts@, p));
        }
        let ghost b0 = best_sum;
        dfs_all_paths(
            start_node,
            &edges,
            Ghost(verts@),
            &mut visited,
            &mut current_path,
            &mut best_sum,
            &mut best_path,
        );
        proof {
            assert(Seq::<i32>::empty().push(start_node) =~= seq![start_node]);
        }
        idx += 1;
    }
    proof {
        assert forall|p: Seq<i32>| is_key_path(root, p) implies sum(p) <= best_sum by {
            lemma_walks_are_key_paths(root, edges@, verts@, p);
            assert(verts@.contains(p[0]));
            let j = choose|j: int| 0 <= j < verts@.len() && verts@[j] == p[0];
            assert(p =~= seq![verts@[j]] + p.drop_first());
            assert(is_walk(edges@, verts@, seq![verts@[j]] + p.drop_first()));
        }
        lemma_walks_are_key_paths(root, edges@, verts@, best_path@);
    }
    (best_sum, best_path)
}

} // verus!
