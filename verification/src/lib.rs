//! Classic algorithm exercises with machine-checked contracts: array scans,
//! sorting algorithms, searching, binary search trees, AVL trees, heaps and
//! Collatz sequences.

pub mod avl;
pub mod bisection;
pub mod brute_force;
pub mod bst;
pub mod collatz;
pub mod crossover;
pub mod dual_pivot;
pub mod generators;
pub mod heap;
pub mod heap_levels;
pub mod insertion_orders;
pub mod insertion_sort;
pub mod matrix;
pub mod max_path;
pub mod mixed_signs;
pub mod path_agreement;
pub mod perm;
pub mod quicksort;
pub mod random;
pub mod run_aware;
pub mod scan_sort;
