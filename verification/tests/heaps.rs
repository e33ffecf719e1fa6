use algoritmes::heap::{build_min_heap, insert_min_heap, is_min_heap, sift_down};
use algoritmes::heap_levels::{
    get_subtree_sum, left_heavy_rows, reverse_all_tree_levels, simulate_insertion, verify_min_heap,
};

const ADVERSARIAL: [i32; 15] = [14, 13, 12, 11, 10, 9, 8, 0, 1, 2, 3, 4, 5, 6, 7];

#[test]
fn floyd_bottom_up_on_adversarial_input() {
    let mut heap = ADVERSARIAL;
    let (comps, swaps) = build_min_heap(&mut heap);
    assert_eq!(heap, [0, 1, 4, 11, 2, 5, 6, 14, 13, 10, 3, 9, 12, 8, 7]);
    assert_eq!((comps, swaps), (22, 11));
    assert!(is_min_heap(&heap));
}

#[test]
fn sift_down_single_step() {
    let mut a = [5, 1, 2];
    assert_eq!(sift_down(&mut a, 0, 3), (2, 1));
    assert_eq!(a, [1, 5, 2]);
    let mut b = [1, 5, 2];
    assert_eq!(sift_down(&mut b, 0, 3), (2, 0));
    let mut c = [9, 4];
    assert_eq!(sift_down(&mut c, 0, 2), (1, 1));
    assert_eq!(c, [4, 9]);
}

#[test]
fn sequential_insertion_on_adversarial_input() {
    let mut online = Vec::new();
    let mut comps = 0;
    let mut swaps = 0;
    for &v in &ADVERSARIAL {
        let (c, s) = insert_min_heap(&mut online, v);
        comps += c;
        swaps += s;
    }
    assert_eq!(online, vec![0, 1, 4, 8, 2, 5, 6, 14, 11, 12, 3, 13, 9, 10, 7]);
    assert_eq!((comps, swaps), (27, 20));
    assert!(is_min_heap(&online));
    assert!(!is_min_heap(&[2, 1]));
    assert!(is_min_heap(&[]));
}

#[test]
fn reversed_levels_make_a_left_heavy_heap() {
    let base: Vec<i32> = (1..=20).collect();
    let heap = reverse_all_tree_levels(&base);
    assert_eq!(heap, vec![1, 3, 2, 7, 6, 5, 4, 15, 14, 13, 12, 11, 10, 9, 8, 20, 19, 18, 17, 16]);
    assert!(verify_min_heap(&heap));
    let rows = left_heavy_rows(&heap);
    assert_eq!(
        rows,
        vec![
            (0, 160, 49),
            (1, 110, 47),
            (2, 26, 21),
            (3, 54, 49),
            (4, 29, 12),
            (5, 11, 10),
            (6, 9, 8),
            (7, 20, 19),
            (8, 18, 17)
        ]
    );
    assert!(rows.iter().all(|&(_, l, r)| l > r));
    assert_eq!(simulate_insertion(&heap), (20, 0));
}

#[test]
fn subtree_sums_and_heap_checks() {
    let a = [1, 2, 3, 4, 5];
    assert_eq!(get_subtree_sum(&a, 0), 15);
    assert_eq!(get_subtree_sum(&a, 1), 11);
    assert_eq!(get_subtree_sum(&a, 7), 0);
    assert!(!verify_min_heap(&[3, 1, 2]));
    assert!(verify_min_heap(&[]));
    assert_eq!(reverse_all_tree_levels(&[]), Vec::<i32>::new());
    assert_eq!(reverse_all_tree_levels(&[5, 6]), vec![5, 6]);
    assert_eq!(simulate_insertion(&[3, 2, 1]), (3, 2));
    assert_eq!(left_heavy_rows(&[1, 2]), vec![]);
}

#[test]
fn sift_down_outside_the_heap_does_nothing() {
    let mut a = [3, 1, 2];
    assert_eq!(sift_down(&mut a, 5, 3), (0, 0));
    assert_eq!(a, [3, 1, 2]);
}

#[test]
fn sift_down_repairs_a_subtree_only() {
    // The subtree rooted at 1 is positions 1, 3, 4; position 0 and 2 stay.
    let mut a = [0, 9, 1, 4, 5];
    let (c, s) = sift_down(&mut a, 1, 5);
    assert_eq!(a, [0, 4, 1, 9, 5]);
    assert_eq!((c, s), (2, 1));
}
