use algoritmes::bisection;
use algoritmes::crossover::{self, linear_search, shuffled_doubles};
use rand::rngs::StdRng;
use rand::SeedableRng;

#[test]
fn test_correctness() {
    let test_array: Vec<u32> = vec![10, 20, 20, 30, 40, 50];
    assert_eq!(bisection::lower_bound(&test_array, 5).0, 0);
    assert_eq!(bisection::lower_bound(&test_array, 10).0, 0);
    assert_eq!(bisection::lower_bound(&test_array, 20).0, 1);
    assert_eq!(bisection::lower_bound(&test_array, 25).0, 3);
    assert_eq!(bisection::lower_bound(&test_array, 50).0, 5);
    assert_eq!(bisection::lower_bound(&test_array, 55).0, 6);
    assert_eq!(bisection::lower_bound(&[], 10).0, 0);
}

#[test]
fn lower_bound_counts_probes() {
    let a: Vec<u32> = vec![10, 20, 20, 30, 40, 50];
    assert_eq!(bisection::lower_bound(&a, 5), (0, 3));
    assert_eq!(bisection::lower_bound(&[], 10), (0, 0));
    assert_eq!(bisection::lower_bound(&[7], 7), (0, 1));
    let big: Vec<u32> = (0..1024).map(|x| x * 2).collect();
    let (pos, probes) = bisection::lower_bound(&big, 301);
    assert_eq!(pos, 151);
    assert_eq!(probes, 10);
    // On unsorted data the search still follows its halving path.
    assert_eq!(bisection::lower_bound(&[5, 1, 4, 2, 3], 3), (2, 2));
}

#[test]
fn usize_lower_bound_matches() {
    let a: Vec<usize> = vec![0, 2, 4, 6, 8];
    assert_eq!(crossover::lower_bound(&a, 5), (3, 3));
    assert_eq!(crossover::lower_bound(&a, 0).0, 0);
    assert_eq!(crossover::lower_bound(&a, 9).0, 5);
}

#[test]
fn linear_search_first_match() {
    let a: Vec<usize> = vec![4, 8, 2, 8];
    assert_eq!(linear_search(&a, 8), (Some(1), 2));
    assert_eq!(linear_search(&a, 4), (Some(0), 1));
    assert_eq!(linear_search(&a, 5), (None, 4));
    assert_eq!(linear_search(&[], 5), (None, 0));
}

#[test]
fn shuffled_doubles_are_a_permutation() {
    let mut rng = StdRng::seed_from_u64(2026);
    let mut v = shuffled_doubles(50, &mut rng);
    v.sort();
    assert_eq!(v, (0..50).map(|x| 2 * x).collect::<Vec<usize>>());
}

#[test]
fn seeded_quicksort_sorts() {
    let mut rng = StdRng::seed_from_u64(42);
    let mut data = shuffled_doubles(300, &mut rng);
    let mut qs = crossover::QuickSort::new();
    qs.sort(&mut data, &mut rng);
    assert_eq!(data, (0..300).map(|x| 2 * x).collect::<Vec<usize>>());
    assert!(qs.max_depth >= 1);
    assert!(qs.comparisons >= 1 && qs.comparisons <= 300 * 300);
    let mut same = vec![5usize; 40];
    let mut qs2 = crossover::QuickSort::new();
    qs2.sort(&mut same, &mut rng);
    assert_eq!(same, vec![5usize; 40]);
}
