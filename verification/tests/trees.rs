use algoritmes::avl::{AVLNode, AVLTree};
use algoritmes::bst::{TreeAnalyzer, BST};
use algoritmes::collatz::{checked_longest_collatz, collatz_conjecture, longest_collatz, steps_to_one};
use algoritmes::insertion_orders::{build_and_count, generate_median_order};
use algoritmes::max_path::optimal_max_path;

#[test]
fn collatz_sequences() {
    assert_eq!(
        collatz_conjecture(7),
        vec![7, 22, 11, 34, 17, 52, 26, 13, 40, 20, 10, 5, 16, 8, 4, 2, 1]
    );
    assert_eq!(collatz_conjecture(1), vec![1]);
    assert_eq!(collatz_conjecture(6), vec![6, 3, 10, 5, 16, 8, 4, 2, 1]);
}

#[test]
fn longest_collatz_start() {
    assert_eq!(longest_collatz(), 77031);
    assert_eq!(collatz_conjecture(77031).len(), 351);
}

#[test]
fn bst_insert_search_remove() {
    let mut t = BST::new();
    assert!(!t.search(&5));
    for v in [5, 3, 8, 1, 4, 8] {
        t.insert(v);
    }
    assert!(t.search(&4));
    assert!(!t.search(&7));
    t.remove(&3);
    assert!(!t.search(&3));
    assert!(t.search(&1) && t.search(&4) && t.search(&5) && t.search(&8));
    t.remove(&5);
    assert!(!t.search(&5));
    t.remove(&42);
    let a = TreeAnalyzer::new(&t);
    assert_eq!(a.count_nodes(), 3);
}

#[test]
fn bst_compact_rows_right_side_first() {
    let t = BST::from_vec(vec![5, 3, 8, 1, 4]);
    assert_eq!(t.compact_rows(), vec![(1, 8), (0, 5), (2, 4), (1, 3), (2, 1)]);
}

#[test]
fn analyzer_on_collatz_trees() {
    let t7 = BST::from_vec(collatz_conjecture(7));
    let a7 = TreeAnalyzer::new(&t7);
    assert_eq!(a7.count_nodes(), 17);
    assert_eq!(a7.height(), 6);
    assert_eq!(a7.depth_distribution(), vec![1, 2, 3, 5, 5, 1]);
    assert_eq!(a7.max_width(), 5);

    let t9 = BST::from_vec(collatz_conjecture(9));
    let a9 = TreeAnalyzer::new(&t9);
    assert_eq!(a9.count_nodes(), 20);
    assert_eq!(a9.height(), 6);
    assert_eq!(a9.depth_distribution(), vec![1, 2, 4, 4, 6, 3]);
    assert_eq!(a9.max_width(), 6);

    let t51 = BST::from_vec(collatz_conjecture(51));
    let a51 = TreeAnalyzer::new(&t51);
    assert_eq!(a51.count_nodes(), 25);
    assert_eq!(a51.height(), 9);
    assert_eq!(a51.depth_distribution(), vec![1, 2, 4, 5, 5, 3, 3, 1, 1]);
    assert_eq!(a51.search_with_trace(&16), (vec![51, 29, 22, 11, 17, 13, 16], true));
    assert_eq!(a51.search_with_trace(&100), (vec![51, 154, 77, 116, 88], false));
}

#[test]
fn empty_tree_analysis() {
    let t = BST::new();
    let a = TreeAnalyzer::new(&t);
    assert_eq!(a.count_nodes(), 0);
    assert_eq!(a.height(), 0);
    assert_eq!(a.depth_distribution(), Vec::<usize>::new());
    assert_eq!(a.max_width(), 0);
    assert_eq!(a.search_with_trace(&1), (vec![], false));
}

#[test]
fn max_path_hand_built_trees() {
    let (s1, p1) = optimal_max_path(&BST::from_vec(vec![-10, -20, -5]));
    assert_eq!((s1, p1), (-5, vec![-5]));
    assert_eq!(optimal_max_path(&BST::from_vec(vec![10, 5, 15])), (30, vec![5, 10, 15]));
    assert_eq!(optimal_max_path(&BST::from_vec(vec![-10, -20, 20, 15, 25])), (60, vec![15, 20, 25]));
    assert_eq!(optimal_max_path(&BST::from_vec(vec![10, 5, -20, 20])), (35, vec![5, 10, 20]));
    assert_eq!(optimal_max_path(&BST::new()), (0, vec![]));
}

#[test]
fn avl_ascending_inserts_rotate_right_right() {
    let mut t = AVLTree::new();
    let mut lines = Vec::new();
    for v in 1..=7 {
        lines.extend(t.insert_with_trace(v, false));
    }
    assert_eq!(t.rr_count, 4);
    assert_eq!(t.ll_count + t.lr_count + t.rl_count, 0);
    assert_eq!(t.get_total_rotations(), 4);
    assert_eq!(t.root.as_ref().unwrap().value, 4);
    assert!(t.is_valid_bst(&t.root, None, None));
    assert!(t.is_valid_avl(&t.root));
    assert_eq!(
        &lines[0..3],
        &[
            "  [!] RR Rebalance triggered at node 1".to_string(),
            "      Before: 1(L:-, R:2(L:-, R:3))".to_string(),
            "      After:  2(L:1, R:3)".to_string(),
        ]
    );
    assert_eq!(AVLTree::depth_sum(&t.root, 0), (10, 7));
    assert_eq!(AVLTree::subtree_to_string(&t.root), "4(L:2(L:1, R:3), R:6(L:5, R:7))");
}

#[test]
fn avl_double_rotations_and_silence() {
    let mut t = AVLTree::new();
    t.insert_with_trace(3, true);
    t.insert_with_trace(1, true);
    let lines = t.insert_with_trace(2, true);
    assert!(lines.is_empty());
    assert_eq!(t.lr_count, 1);
    assert_eq!(t.get_total_rotations(), 2);
    let mut u = AVLTree::new();
    u.insert_with_trace(1, false);
    u.insert_with_trace(3, false);
    let lines = u.insert_with_trace(2, false);
    assert_eq!(lines[0], "  [!] RL Rebalance triggered at node 1");
    assert_eq!(u.rl_count, 1);
    let before = u.get_total_rotations();
    assert!(u.insert_with_trace(2, false).is_empty());
    assert_eq!(u.get_total_rotations(), before);
    let leaf = AVLNode::new(9);
    assert_eq!((leaf.value, leaf.height), (9, 1));
}

#[test]
fn avl_checks_catch_bad_trees() {
    let t = AVLTree::new();
    let mut bad = AVLNode::new(5);
    bad.left = Some(Box::new(AVLNode::new(7)));
    bad.height = 2;
    let root = Some(Box::new(bad));
    assert!(!t.is_valid_bst(&root, None, None));
    let mut chain = AVLNode::new(5);
    let mut mid = AVLNode::new(4);
    mid.left = Some(Box::new(AVLNode::new(3)));
    mid.height = 2;
    chain.left = Some(Box::new(mid));
    chain.height = 3;
    let root = Some(Box::new(chain));
    assert!(t.is_valid_bst(&root, None, None));
    assert!(!t.is_valid_avl(&root));
}

#[test]
fn median_order_of_sorted_keys() {
    let mut out = Vec::new();
    generate_median_order(&[1, 2, 3, 4, 5, 6, 7], &mut out);
    assert_eq!(out, vec![4, 2, 1, 3, 6, 5, 7]);
    let mut out2 = vec![0];
    generate_median_order(&[1, 2, 3, 4, 5, 6], &mut out2);
    assert_eq!(out2, vec![0, 3, 1, 2, 5, 4, 6]);
}

#[test]
fn build_and_count_comparisons() {
    let (tree, comps) = build_and_count(&[2, 1, 3]);
    assert_eq!(comps, 2);
    assert_eq!(TreeAnalyzer::new(&tree).height(), 2);
    let (tree, comps) = build_and_count(&[1, 2, 3, 2]);
    assert_eq!(comps, 0 + 1 + 2 + 2);
    assert_eq!(TreeAnalyzer::new(&tree).count_nodes(), 3);
}

fn chain_tree() -> AVLTree {
    // 1 -> 2 -> 3 down the right side: heights are right, balance is not.
    let n3 = AVLNode::new(3);
    let mut n2 = AVLNode::new(2);
    n2.right = Some(Box::new(n3));
    n2.height = 2;
    let mut n1 = AVLNode::new(1);
    n1.right = Some(Box::new(n2));
    n1.height = 3;
    let mut t = AVLTree::new();
    t.root = Some(Box::new(n1));
    t
}

#[test]
fn avl_insert_into_unbalanced_tree_and_silence_changes_nothing_else() {
    let mut loud = chain_tree();
    let mut quiet = chain_tree();
    let lines = loud.insert_with_trace(4, false);
    let none = quiet.insert_with_trace(4, true);
    assert!(none.is_empty());
    assert_eq!(lines.len(), 6);
    assert_eq!(lines[0], "  [!] RR Rebalance triggered at node 2");
    assert_eq!(lines[3], "  [!] RR Rebalance triggered at node 1");
    assert_eq!(loud.rr_count, 2);
    assert_eq!(quiet.rr_count, 2);
    assert_eq!(loud.ll_count + loud.lr_count + loud.rl_count, 0);
    assert_eq!(AVLTree::subtree_to_string(&loud.root), AVLTree::subtree_to_string(&quiet.root));
    assert_eq!(AVLTree::subtree_to_string(&loud.root), "3(L:1(L:-, R:2), R:4)");
    assert_eq!(loud.root.as_ref().unwrap().height, 3);
}

#[test]
fn collatz_checked_entry_points() {
    assert_eq!(steps_to_one(6, 100), Some(8));
    assert_eq!(steps_to_one(6, 7), None);
    assert_eq!(steps_to_one(1, 0), Some(0));
    assert_eq!(steps_to_one(0, 100), None);
    assert_eq!(steps_to_one(-5, 100), None);
    assert_eq!(checked_longest_collatz(), Some(77031));
}
