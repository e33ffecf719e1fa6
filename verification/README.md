# algoritmes

Classic algorithm exercises — scans, sorts, searches, search trees, AVL
trees, heaps, Collatz sequences — written as a Verus library whose
functions carry machine-checked contracts.

- `src/` — the verified library. Each module states what its functions
  compute over mathematical models (sequences, multisets, trees as
  recursive data) and proves it; the public proof functions state laws that
  relate several functions, for instance that every sort of the library
  returns the same array, that a square matrix sums to the same total row by
  row and column by column, or that the optimal maximum-path algorithm and
  the brute-force search agree on every tree with distinct keys.
- Trusted boundary: the wrappers in `src/random.rs` around the `rand`
  crate, whose contracts state no more than the ranges of the values drawn,
  and one wrapper around the standard library's sort in `src/scan_sort.rs`.
- `tests/` — tests on concrete inputs.
- `app/` — a command-line driver that runs the timing experiments and
  prints the reports (timing, floating-point statistics and printing stay
  outside the verified library).
