use algoritmes::bst::{TreeAnalyzer, BST};
use algoritmes::collatz::collatz_conjecture;
use algoritmes::crossover::{self, linear_search, shuffled_doubles};
use algoritmes::dual_pivot::quick_sort;
use algoritmes::heap_levels::{reverse_all_tree_levels, verify_min_heap};
use algoritmes::insertion_orders::generate_median_order;
use algoritmes::insertion_sort::insertion_sort_counter;
use algoritmes::quicksort::QuickSort;
use algoritmes::run_aware::RunAwareSort;
use algoritmes::scan_sort::{lib_sort, quadratic_inversion_counter};
use rand::rngs::StdRng;
use rand::SeedableRng;

#[test]
fn all_sorts_agree() {
    let data: Vec<usize> = vec![9, 3, 7, 3, 0, 12, 5, 5, 1, 8, 2, 11, 4, 6, 10, 3];
    let mut a = data.clone();
    quick_sort(&mut a);
    let mut b = data.clone();
    QuickSort::sort_random(&mut b);
    let mut c = data.clone();
    RunAwareSort::sort(&mut c);
    let mut d = data.clone();
    let mut rng = StdRng::seed_from_u64(7);
    crossover::QuickSort::new().sort(&mut d, &mut rng);
    assert_eq!(a, b);
    assert_eq!(b, c);
    assert_eq!(c, d);
}

#[test]
fn insertion_sort_agrees_with_library_sort_and_counts_inversions() {
    let data = vec![4, -1, 3, 3, 9, 0, -7, 2];
    let expected = lib_sort(&data);
    let inversions = quadratic_inversion_counter(&data) as usize;
    let mut work = data.clone();
    let (sorted, _, shifts) = insertion_sort_counter(&mut work);
    assert_eq!(sorted.to_vec(), expected);
    assert_eq!(shifts, inversions);
}

#[test]
fn depth_distribution_adds_up_to_node_count() {
    for n in [7, 9, 27, 51] {
        let tree = BST::from_vec(collatz_conjecture(n));
        let a = TreeAnalyzer::new(&tree);
        let dist = a.depth_distribution();
        assert_eq!(dist.iter().sum::<usize>(), a.count_nodes());
        assert_eq!(dist.len(), a.height());
        assert!(a.max_width() <= a.count_nodes());
    }
}

#[test]
fn search_after_insert_and_remove() {
    let mut t = BST::from_vec(vec![50, 30, 70, 20, 40, 60, 80]);
    for v in [50, 30, 70, 20, 40, 60, 80] {
        assert!(t.search(&v));
    }
    t.insert(45);
    assert!(t.search(&45));
    t.remove(&30);
    assert!(!t.search(&30));
    for v in [50, 70, 20, 40, 45, 60, 80] {
        assert!(t.search(&v));
    }
}

#[test]
fn linear_and_binary_search_answer_alike() {
    let mut rng = StdRng::seed_from_u64(2026);
    let raw = shuffled_doubles(64, &mut rng);
    let mut sorted = raw.clone();
    crossover::QuickSort::new().sort(&mut sorted, &mut rng);
    for q in 0..140usize {
        let (found, _) = linear_search(&raw, q);
        let (pos, _) = crossover::lower_bound(&sorted, q);
        assert_eq!(found.is_some(), pos < sorted.len() && sorted[pos] == q);
    }
}

#[test]
fn reversed_levels_of_sorted_input_are_heaps() {
    for n in [0, 1, 2, 3, 7, 15, 20, 37, 100] {
        let base: Vec<i32> = (1..=n).collect();
        assert!(verify_min_heap(&reverse_all_tree_levels(&base)));
    }
    let with_ties = vec![1, 1, 2, 2, 2, 3, 3, 3, 3];
    assert!(verify_min_heap(&reverse_all_tree_levels(&with_ties)));
}

#[test]
fn median_order_is_a_rearrangement() {
    let keys: Vec<i32> = (0..23).map(|x| x * 3 - 10).collect();
    let mut out = Vec::new();
    generate_median_order(&keys, &mut out);
    let mut back = out.clone();
    back.sort();
    assert_eq!(back, keys);
}

#[test]
fn removing_a_fresh_key_restores_the_tree() {
    let mut t = BST::from_vec(vec![8, 3, 10, 1, 6, 14]);
    let before = t.compact_rows();
    assert!(!t.search(&7));
    t.insert(7);
    t.remove(&7);
    assert_eq!(t.compact_rows(), before);
}

#[test]
fn from_vec_counts_distinct_items() {
    let t = BST::from_vec(vec![5, 3, 5, 8, 3, 1]);
    assert_eq!(TreeAnalyzer::new(&t).count_nodes(), 4);
}

#[test]
fn level_counts_are_positive_and_at_most_double() {
    let t = BST::from_vec(vec![50, 30, 70, 20, 40, 60, 80, 10, 45, 65]);
    let d = TreeAnalyzer::new(&t).depth_distribution();
    assert_eq!(d, vec![1, 2, 4, 3]);
    for k in 0..d.len() {
        assert!(d[k] >= 1);
        if k + 1 < d.len() {
            assert!(d[k + 1] <= 2 * d[k]);
        }
    }
}

#[test]
fn reversing_levels_twice_gives_the_array_back() {
    let base: Vec<i32> = (1..=20).collect();
    let once = reverse_all_tree_levels(&base);
    assert_ne!(once, base);
    assert_eq!(reverse_all_tree_levels(&once), base);
}
