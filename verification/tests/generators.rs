use algoritmes::generators::{
    create_duplicates_array, create_random_array, create_reversed_array, create_sorted_array,
    same_text, ArrayGenerator,
};
use algoritmes::matrix::{generate_matrix, sum_matrix_elements_by_column, sum_matrix_elements_by_row};
use algoritmes::scan_sort;

#[test]
fn plain_arrays() {
    assert_eq!(create_sorted_array(4), vec![0, 1, 2, 3]);
    assert_eq!(create_reversed_array(4), vec![3, 2, 1, 0]);
    assert_eq!(create_sorted_array(0), Vec::<usize>::new());
    let r = create_random_array(50);
    assert_eq!(r.len(), 50);
    assert!(r.iter().all(|&x| x <= u32::MAX as usize));
    let d = create_duplicates_array(100);
    assert_eq!(d.len(), 100);
    assert!(d.iter().all(|&x| x < 5));
    assert_eq!(scan_sort::create_random_array(7).len(), 7);
    assert_eq!(scan_sort::create_random_array(-3).len(), 0);
}

#[test]
fn generate_by_name() {
    assert_eq!(ArrayGenerator::generate("Sorted", 5), vec![0, 1, 2, 3, 4]);
    assert_eq!(ArrayGenerator::generate("Reverse-Sorted", 3), vec![2, 1, 0]);
    let mut almost = ArrayGenerator::generate("Almost-Sorted", 300);
    almost.sort();
    assert_eq!(almost, (0..300).collect::<Vec<usize>>());
    assert_eq!(ArrayGenerator::generate("Random", 9).len(), 9);
    assert!(ArrayGenerator::generate("Duplicates", 40).iter().all(|&x| x < 5));
}

#[test]
fn sorted_blocks_are_shuffled_whole_blocks() {
    let v = ArrayGenerator::generate("Sorted-Blocks", 25);
    assert_eq!(v.len(), 20);
    let mut starts: Vec<usize> = Vec::new();
    for b in 0..10 {
        let block = &v[2 * b..2 * b + 2];
        assert_eq!(block[1], block[0] + 1);
        assert_eq!(block[0] % 4, 0);
        starts.push(block[0] / 4);
    }
    starts.sort();
    assert_eq!(starts, (0..10).collect::<Vec<usize>>());
    assert_eq!(ArrayGenerator::generate("Sorted-Blocks", 5), Vec::<usize>::new());
}

#[test]
fn text_comparison() {
    assert!(same_text("Sorted", "Sorted"));
    assert!(!same_text("Sorted", "Sorte"));
    assert!(!same_text("Random", "Sorted"));
    assert!(same_text("", ""));
}

#[test]
fn matrix_sums_agree_on_square_matrices() {
    let m = vec![vec![1, 2], vec![3, 4]];
    assert_eq!(sum_matrix_elements_by_row(&m), 10);
    assert_eq!(sum_matrix_elements_by_column(&m), 10);
    let big = vec![vec![i32::MAX, i32::MIN], vec![i32::MAX, -1]];
    assert_eq!(sum_matrix_elements_by_row(&big), 2 * (i32::MAX as i64) + (i32::MIN as i64) - 1);
    assert_eq!(sum_matrix_elements_by_column(&big), sum_matrix_elements_by_row(&big));
    let g = generate_matrix(6);
    assert_eq!(g.len(), 6);
    assert!(g.iter().all(|row| row.len() == 6 && row.iter().all(|&x| (0..10_000).contains(&x))));
    assert_eq!(sum_matrix_elements_by_row(&g), sum_matrix_elements_by_column(&g));
}

#[test]
fn row_sum_of_ragged_matrix() {
    let m = vec![vec![1, 2, 3], vec![], vec![4]];
    assert_eq!(sum_matrix_elements_by_row(&m), 10);
    assert_eq!(sum_matrix_elements_by_row(&vec![]), 0);
    let wide_top = vec![vec![1, 2], vec![5]];
    // Column step 0 reads m[0][0], m[1][0]; step 1 reads m[0][1].
    assert_eq!(sum_matrix_elements_by_column(&wide_top), 8);
}
