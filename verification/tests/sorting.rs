use algoritmes::dual_pivot::quick_sort;
use algoritmes::insertion_sort::insertion_sort_counter;
use algoritmes::quicksort::{partition_dual, QuickSort};
use algoritmes::run_aware::{Run, RunAwareSort};

#[test]
fn test_fn() {
    let tests: [Vec<i32>; 5] = [vec![], vec![1], vec![3, 1, 2], vec![2, 2, 1], vec![5, 4, 3, 2, 1]];
    for mut test in tests {
        let mut expected = test.clone();
        expected.sort();
        let (result, _, _) = insertion_sort_counter(&mut test);
        assert_eq!(result, &mut expected[..]);
    }
}

#[test]
fn insertion_sort_counts_shifts_and_comparisons() {
    let mut a = vec![3, 1, 2];
    let (res, comps, shifts) = insertion_sort_counter(&mut a);
    assert_eq!(res, &mut [1, 2, 3][..]);
    assert_eq!(shifts, 2);
    assert_eq!(comps, 3);

    let mut b = vec![5, 4, 3, 2, 1];
    let (_, comps, shifts) = insertion_sort_counter(&mut b);
    assert_eq!(shifts, 10);
    assert_eq!(comps, 10);

    let mut c = vec![1, 2, 3, 4];
    let (_, comps, shifts) = insertion_sort_counter(&mut c);
    assert_eq!(shifts, 0);
    assert_eq!(comps, 3);
}

#[test]
fn dual_pivot_quick_sort_sorts() {
    let mut array = [4usize, 8, 2, 9, 5, 6, 12];
    assert_eq!(quick_sort(&mut array), &mut [2, 4, 5, 6, 8, 9, 12][..]);
    let mut dups = [3usize, 1, 3, 0, 1, 3, 0];
    assert_eq!(quick_sort(&mut dups), &mut [0, 0, 1, 1, 3, 3, 3][..]);
    let mut empty: [usize; 0] = [];
    assert_eq!(quick_sort(&mut empty).len(), 0);
    let mut two = [2usize, 1];
    assert_eq!(quick_sort(&mut two), &mut [1, 2][..]);
}

#[test]
fn quicksort_deterministic_counts() {
    let mut qs = QuickSort::new(false);
    let mut arr = vec![3usize, 1, 2];
    qs.sort(&mut arr);
    assert_eq!(arr, vec![1, 2, 3]);
    assert!(!qs.aborted);
    assert_eq!(qs.max_depth, 2);
    assert_eq!(qs.comparisons, 2);
    let mut qs = QuickSort::new(false);
    let mut arr = vec![5usize, 1, 4, 2, 3, 9, 0, 7];
    qs.sort(&mut arr);
    assert_eq!(arr, vec![0, 1, 2, 3, 4, 5, 7, 9]);
    assert!(!qs.aborted);
    assert_eq!(qs.max_depth, 3);
    assert_eq!(qs.comparisons, 16);
}

#[test]
fn quicksort_random_sorts() {
    let mut arr: Vec<usize> = (0..200).map(|i| (i * 37 + 11) % 101).collect();
    let mut expected = arr.clone();
    expected.sort();
    QuickSort::sort_random(&mut arr);
    assert_eq!(arr, expected);
}

#[test]
fn quicksort_deterministic_aborts_on_deep_recursion() {
    // Every level peels off only the two pivots of a sorted array.
    let n = 3000;
    let mut arr: Vec<usize> = (0..n).collect();
    let mut qs = QuickSort::new(false);
    qs.sort(&mut arr);
    assert!(qs.aborted);
    assert_eq!(qs.max_depth, algoritmes::quicksort::MAX_DEPTH_LIMIT);
    assert_eq!(qs.comparisons, 4317599);
}

#[test]
fn run_aware_sort_reports_runs() {
    let mut a = vec![1usize, 2, 3, 4, 5];
    assert_eq!(RunAwareSort::sort(&mut a), (1, 5));
    let mut b = vec![5usize, 4, 3, 2, 1];
    assert_eq!(RunAwareSort::sort(&mut b), (1, 5));
    assert_eq!(b, vec![1, 2, 3, 4, 5]);
    let mut c = vec![1usize, 3, 2, 4];
    assert_eq!(RunAwareSort::sort(&mut c), (2, 2));
    assert_eq!(c, vec![1, 2, 3, 4]);
    let mut d = vec![7usize];
    assert_eq!(RunAwareSort::sort(&mut d), (1, 1));
}

#[test]
fn run_aware_sort_falls_back_with_many_runs() {
    // Pairs (2k+1, 2k) give one decreasing run each: 50 runs.
    let mut a: Vec<usize> = (0..100).map(|i| if i % 2 == 0 { i + 1 } else { i - 1 }).collect();
    assert_eq!(RunAwareSort::sort(&mut a), (0, 0));
    assert_eq!(a, (0..100).collect::<Vec<usize>>());
}

#[test]
fn detect_runs_and_merge() {
    let mut a = vec![4usize, 3, 5, 6, 1];
    let runs = RunAwareSort::detect_runs(&mut a, 32).unwrap();
    assert_eq!(runs.len(), 3);
    assert_eq!((runs[0].start, runs[0].len), (0, 2));
    assert_eq!((runs[1].start, runs[1].len), (2, 2));
    assert_eq!((runs[2].start, runs[2].len), (4, 1));
    assert_eq!(a, vec![3, 4, 5, 6, 1]);
    assert!(RunAwareSort::detect_runs(&mut vec![4usize, 3, 5, 6, 1], 1).is_none());
    assert!(RunAwareSort::detect_runs(&mut vec![3usize, 4, 5, 6, 1], 1).is_some());
    let mut gave_up = vec![3usize, 2, 1, 5, 4, 9, 8];
    assert!(RunAwareSort::detect_runs(&mut gave_up, 1).is_none());
    assert_eq!(gave_up, vec![1, 2, 3, 4, 5, 9, 8]);
    RunAwareSort::merge_runs(&mut a, runs);
    assert_eq!(a, vec![1, 3, 4, 5, 6]);
}

#[test]
fn merge_two_prefers_left_on_ties() {
    let mut out = [0usize; 5];
    RunAwareSort::merge_two(&[1, 3, 5], &[2, 3], &mut out);
    assert_eq!(out, [1, 2, 3, 3, 5]);
    let r = Run { start: 1, len: 2 };
    assert_eq!(r.start + r.len, 3);
}

#[test]
fn deterministic_quicksort_never_gives_up_below_the_bound() {
    let n = 2 * algoritmes::quicksort::MAX_DEPTH_LIMIT - 2;
    let mut arr: Vec<usize> = (0..n).collect();
    let mut qs = QuickSort::new(false);
    qs.sort(&mut arr);
    assert!(!qs.aborted);
    assert_eq!(arr, (0..n).collect::<Vec<usize>>());
    let mut longer: Vec<usize> = (0..n + 1).collect();
    let mut qs2 = QuickSort::new(false);
    qs2.sort(&mut longer);
    assert!(qs2.aborted);
}

#[test]
fn dual_partition_counts_and_places_pivots() {
    let mut arr = [5usize, 1, 4, 2, 3, 9, 0, 7];
    let mut comparisons = 0usize;
    let (p1, p2) = partition_dual(&mut arr, 0, 8, &mut comparisons);
    assert_eq!((p1, p2), (5, 6));
    assert_eq!(arr, [0, 1, 4, 2, 3, 5, 7, 9]);
    assert_eq!(comparisons, 8);
}

#[test]
fn merge_runs_accepts_empty_runs() {
    let mut a = vec![1usize, 3, 2, 4];
    let runs = vec![
        Run { start: 0, len: 2 },
        Run { start: 2, len: 0 },
        Run { start: 2, len: 2 },
        Run { start: 4, len: 0 },
    ];
    RunAwareSort::merge_runs(&mut a, runs);
    assert_eq!(a, vec![1, 2, 3, 4]);
    let mut empty: Vec<usize> = vec![];
    RunAwareSort::merge_runs(&mut empty, vec![]);
    assert!(empty.is_empty());
}
