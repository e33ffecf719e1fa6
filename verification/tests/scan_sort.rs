use algoritmes::scan_sort::{lib_sort, linear_scan, quadratic_inversion_counter};

#[test]
fn test_linear_scan() {
    let data = vec![1, 5, 2];
    assert_eq!(linear_scan(&data), 1);
}

#[test]
fn test_lib_sort() {
    let data = vec![5, 1, 4, 2];
    assert_eq!(lib_sort(&data), vec![1, 2, 4, 5]);
}

#[test]
fn test_quadratic_inversions_manual() {
    let data = [4, 1, 3, 2];
    assert_eq!(quadratic_inversion_counter(&data), 4);
}

#[test]
fn test_quadratic_inversions_sorted() {
    let data = [1, 2, 3, 4, 5];
    assert_eq!(quadratic_inversion_counter(&data), 0);
}

#[test]
fn test_quadratic_inversions_reversed() {
    let data = [5, 4, 3, 2, 1];
    assert_eq!(quadratic_inversion_counter(&data), 10);
}

#[test]
fn linear_scan_single_element_is_zero() {
    assert_eq!(linear_scan(&vec![7]), 0);
}

#[test]
fn linear_scan_is_last_minus_first() {
    let data = vec![i32::MIN, i32::MAX, 0, i32::MAX];
    assert_eq!(linear_scan(&data), (i32::MAX as i64) - (i32::MIN as i64));
}

#[test]
fn lib_sort_keeps_duplicates_and_leaves_input() {
    let data = vec![3, -1, 3, 0, -1];
    assert_eq!(lib_sort(&data), vec![-1, -1, 0, 3, 3]);
    assert_eq!(data, vec![3, -1, 3, 0, -1]);
}

#[test]
fn inversions_with_ties_are_strict() {
    assert_eq!(quadratic_inversion_counter(&[2, 2, 2]), 0);
    assert_eq!(quadratic_inversion_counter(&[3, 1, 2, 1]), 4);
    assert_eq!(quadratic_inversion_counter(&[]), 0);
}
