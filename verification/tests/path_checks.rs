use algoritmes::brute_force::brute_force_validator;
use algoritmes::bst::{Node, BST};
use algoritmes::collatz::collatz_conjecture;
use algoritmes::max_path::optimal_max_path;
use algoritmes::mixed_signs::create_corrupted_tree;
use std::collections::VecDeque;

fn level_order(tree: &BST) -> Vec<i32> {
    let mut out = Vec::new();
    let mut queue: VecDeque<&Node> = VecDeque::new();
    if let Some(root) = &tree.root {
        queue.push_back(root);
    }
    while let Some(n) = queue.pop_front() {
        out.push(n.value);
        if let Some(l) = &n.left {
            queue.push_back(l);
        }
        if let Some(r) = &n.right {
            queue.push_back(r);
        }
    }
    out
}

#[test]
fn brute_force_agrees_on_hand_built_trees() {
    let cases = [
        (vec![-10, -20, -5], -5),
        (vec![10, 5, 15], 30),
        (vec![-10, -20, 20, 15, 25], 60),
        (vec![10, 5, -20, 20], 35),
    ];
    for (keys, expected) in cases {
        let tree = BST::from_vec(keys);
        let (bf_sum, bf_path) = brute_force_validator(&tree);
        let (opt_sum, _) = optimal_max_path(&tree);
        assert_eq!(bf_sum, expected);
        assert_eq!(opt_sum, expected);
        assert_eq!(bf_path.iter().sum::<i32>(), expected);
    }
    assert_eq!(brute_force_validator(&BST::new()), (0, vec![]));
    assert_eq!(brute_force_validator(&BST::from_vec(vec![4])), (4, vec![4]));
}

#[test]
fn corrupted_tree_negates_every_third_in_level_order() {
    let tree = BST::from_vec(collatz_conjecture(7));
    let mixed = create_corrupted_tree(&tree);
    let order = level_order(&mixed);
    assert_eq!(&order[..12], &[7, 5, -22, 4, 11, -34, 2, 10, -17, 26, 52, -1]);
    let plain = level_order(&tree);
    for (i, (a, b)) in plain.iter().zip(order.iter()).enumerate() {
        if (i + 1) % 3 == 0 {
            assert_eq!(*b, -*a);
        } else {
            assert_eq!(*b, *a);
        }
    }
    assert_eq!(level_order(&create_corrupted_tree(&BST::new())), Vec::<i32>::new());
}

#[test]
fn mixed_sign_collatz_trees_max_paths() {
    for (n, expected) in [(7, 92), (9, 132), (51, 237)] {
        let mixed = create_corrupted_tree(&BST::from_vec(collatz_conjecture(n)));
        let (opt_sum, opt_path) = optimal_max_path(&mixed);
        let (bf_sum, _) = brute_force_validator(&mixed);
        assert_eq!(opt_sum, expected);
        assert_eq!(bf_sum, expected);
        assert_eq!(opt_path.iter().sum::<i32>(), expected);
    }
}
