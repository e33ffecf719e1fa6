//! Summing the elements of a matrix row by row and column by column.
use vstd::prelude::*;
use crate::random::random_i32_below;

verus! {

/// The rows of a matrix as sequences.
pub open spec fn grid(matrix: &Vec<Vec<i32>>) -> Seq<Seq<i32>> {
    Seq::new(matrix@.len(), |i: int| matrix@[i]@)
}

/// `row[0] + .. + row[j - 1]`.
pub open spec fn row_prefix(row: Seq<i32>, j: int) -> int
    decreases j,
{
    if j <= 0 {
        0
    } else {
        row_prefix(row, j - 1) + row[j - 1]
    }
}

/// `m[0][i] + .. + m[j - 1][i]`: the top `j` entries of column `i`.
pub open spec fn column_prefix(m: Seq<Seq<i32>>, i: int, j: int) -> int
    decreases j,
{
    if j <= 0 {
        0
    } else {
        column_prefix(m, i, j - 1) + m[j - 1][i]
    }
}

/// The sum that the row-wise traversal computes over its first `i` rows:
/// every row summed over its own length.
pub open spec fn rows_total(m: Seq<Seq<i32>>, i: int) -> int
    decreases i,
{
    if i <= 0 {
        0
    } else {
        rows_total(m, i - 1) + row_prefix(m[i - 1], m[i - 1].len() as int)
    }
}

/// The sum that the column-wise traversal computes over its first `i`
/// steps: step `r` adds the top `m[r].len()` entries of column `r`.
pub open spec fn columns_total(m: Seq<Seq<i32>>, i: int) -> int
    decreases i,
{
    if i <= 0 {
        0
    } else {
        columns_total(m, i - 1) + column_prefix(m, i - 1, m[i - 1].len() as int)
    }
}

/// Number of entries in the first `i` rows.
pub open spec fn cells(m: Seq<Seq<i32>>, i: int) -> int
    decreases i,
{
    if i <= 0 {
        0
    } else {
        cells(m, i - 1) + m[i - 1].len()
    }
}

/// Every row is as long as the matrix has rows.
pub open spec fn is_square(m: Seq<Seq<i32>>) -> bool {
    forall|i: int| 0 <= i < m.len() ==> #[trigger] m[i].len() == m.len()
}

/// The column-wise traversal only reads entries that exist.
pub open spec fn columns_readable(m: Seq<Seq<i32>>) -> bool {
    forall|i: int, j: int|
        #![trigger m[i], m[j]]
        0 <= i < m.len() && 0 <= j < m[i].len() ==> j < m.len() && i < m[j].len()
}

/// The first `a` entries of the first `b` columns, column by column.
pub open spec fn rect_by_columns(m: Seq<Seq<i32>>, a: int, b: int) -> int
    decreases b,
{
    if b <= 0 {
        0
    } else {
        rect_by_columns(m, a, b - 1) + column_prefix(m, b - 1, a)
    }
}

/// The first `b` entries of the first `a` rows, row by row.
pub open spec fn rect_by_rows(m: Seq<Seq<i32>>, a: int, b: int) -> int
    decreases a,
{
    if a <= 0 {
        0
    } else {
        rect_by_rows(m, a - 1, b) + row_prefix(m[a - 1], b)
    }
}

proof fn lemma_rect_columns_empty(m: Seq<Seq<i32>>, b: int)
    ensures
        rect_by_columns(m, 0, b) == 0,
    decreases b,
{
    if b > 0 {
        lemma_rect_columns_empty(m, b - 1);
    }
}

proof fn lemma_rect_columns_step(m: Seq<Seq<i32>>, a: int, b: int)
    requires
        0 <= a,
    ensures
        rect_by_columns(m, a + 1, b) == rect_by_columns(m, a, b) + row_prefix(m[a], b),
    decreases b,
{
    if b > 0 {
        lemma_rect_columns_step(m, a, b - 1);
    }
}

/// Summing a rectangle row by row or column by column gives the same.
proof fn lemma_rect_swap(m: Seq<Seq<i32>>, a: int, b: int)
    requires
        0 <= a,
    ensures
        rect_by_rows(m, a, b) == rect_by_columns(m, a, b),
    decreases a,
{
    if a == 0 {
        lemma_rect_columns_empty(m, b);
    } else {
        lemma_rect_swap(m, a - 1, b);
        lemma_rect_columns_step(m, a - 1, b);
    }
}

proof fn lemma_rows_square(m: Seq<Seq<i32>>, i: int)
    requires
        is_square(m),
        0 <= i <= m.len(),
    ensures
        rows_total(m, i) == rect_by_rows(m, i, m.len() as int),
    decreases i,
{
    if i > 0 {
        lemma_rows_square(m, i - 1);
    }
}

proof fn lemma_columns_square(m: Seq<Seq<i32>>, i: int)
    requires
        is_square(m),
        0 <= i <= m.len(),
    ensures
        columns_total(m, i) == rect_by_columns(m, m.len() as int, i),
    decreases i,
{
    if i > 0 {
        lemma_columns_square(m, i - 1);
    }
}

/// For a square matrix the row-wise and the column-wise traversal add up
/// to the same total.
pub proof fn lemma_row_and_column_totals_agree(m: Seq<Seq<i32>>)
    requires
        is_square(m),
    ensures
        rows_total(m, m.len() as int) == columns_total(m, m.len() as int),
{
    lemma_rows_square(m, m.len() as int);
    lemma_columns_square(m, m.len() as int);
    lemma_rect_swap(m, m.len() as int, m.len() as int);
}

proof fn lemma_readable(m: Seq<Seq<i32>>, i: int, j: int)
    requires
        columns_readable(m),
        0 <= i < m.len(),
        0 <= j < m[i].len(),
    ensures
        j < m.len(),
        i < m[j].len(),
{
    assert(m[i] == m[i] && m[j] == m[j]);
}

proof fn lemma_cells_mono(m: Seq<Seq<i32>>, i: int, k: int)
    requires
        0 <= i <= k <= m.len(),
    ensures
        cells(m, i) <= cells(m, k),
    decreases k - i,
{
    if i < k {
        lemma_cells_mono(m, i, k - 1);
    }
}

/// A `size` by `size` matrix of random entries in `0..10000`.
pub fn generate_matrix(size: usize) -> (matrix: Vec<Vec<i32>>)
    ensures
        grid(&matrix).len() == size,
        is_square(grid(&matrix)),
        forall|i: int, j: int|
            0 <= i < size && 0 <= j < size ==> 0 <= #[trigger] grid(&matrix)[i][j] < 10_000,
{
    let mut matrix: Vec<Vec<i32>> = Vec::new();
    let mut i: usize = 0;
    while i < size
        invariant
            i <= size,
            grid(&matrix).len() == i,
            forall|r: int| 0 <= r < i ==> #[trigger] grid(&matrix)[r].len() == size,
            forall|r: int, j: int|
                0 <= r < i && 0 <= j < size ==> 0 <= #[trigger] grid(&matrix)[r][j] < 10_000,
        decreases size - i,
    {
        let mut row: Vec<i32> = Vec::new();
        let mut j: usize = 0;
        while j < size
            invariant
                j <= size,
                row@.len() == j,
                forall|k: int| 0 <= k < j ==> 0 <= #[trigger] row@[k] < 10_000,
            decreases size - j,
        {
            row.push(random_i32_below(10_000));
            j += 1;
        }
        let ghost before = grid(&matrix);
        matrix.push(row);
        proof {
            assert(grid(&matrix) =~= before.push(row@));
        }
        i += 1;
    }
    matrix
}

/// Sum of all elements, visiting them row by row.
pub fn sum_matrix_elements_by_row(matrix: &Vec<Vec<i32>>) -> (sum: i64)
    requires
        cells(grid(matrix), grid(matrix).len() as int) <= 0x1_0000_0000,
    ensures
        sum == rows_total(grid(matrix), grid(matrix).len() as int),
{
    let ghost m = grid(matrix);
    let mut sum: i64 = 0;
    let n = matrix.len();
    let ghost mut count: int = 0;
    let mut i: usize = 0;
    while i < n
        invariant
            m == grid(matrix),
            n == m.len(),
            i <= n,
            cells(m, n as int) <= 0x1_0000_0000,
            count == cells(m, i as int),
            sum == rows_total(m, i as int),
            -2147483648 * count <= sum <= 2147483647 * count,
        decreases n - i,
    {
        let row_len = matrix[i].len();
        let mut j: usize = 0;
        proof {
            lemma_cells_mono(m, i + 1, n as int);
        }
        while j < row_len
            invariant
                m == grid(matrix),
                n == m.len(),
                i < n,
                row_len == m[i as int].len(),
                j <= row_len,
                count == cells(m, i as int) + j,
                cells(m, i + 1) <= 0x1_0000_0000,
                sum == rows_total(m, i as int) + row_prefix(m[i as int], j as int),
                -2147483648 * count <= sum <= 2147483647 * count,
            decreases row_len - j,
        {
            assert(matrix[i as int]@[j as int] == m[i as int][j as int]);
            sum += matrix[i][j] as i64;
            proof {
                count = count + 1;
            }
            j += 1;
        }
        i += 1;
    }
    sum
}

/// Sum of all elements, visiting them column by column: step `i` adds the
/// top `matrix[i].len()` entries of column `i`.
pub fn sum_matrix_elements_by_column(matrix: &Vec<Vec<i32>>) -> (sum: i64)
    requires
        columns_readable(grid(matrix)),
        cells(grid(matrix), grid(matrix).len() as int) <= 0x1_0000_0000,
    ensures
        sum == columns_total(grid(matrix), grid(matrix).len() as int),
{
    let ghost m = grid(matrix);
    let mut sum: i64 = 0;
    let n = matrix.len();
    let ghost mut count: int = 0;
    let mut i: usize = 0;
    while i < n
        invariant
            m == grid(matrix),
            n == m.len(),
            columns_readable(m),
            i <= n,
            cells(m, n as int) <= 0x1_0000_0000,
            count == cells(m, i as int),
            sum == columns_total(m, i as int),
            -2147483648 * count <= sum <= 2147483647 * count,
        decreases n - i,
    {
        let row_len = matrix[i].len();
        let mut j: usize = 0;
        proof {
            lemma_cells_mono(m, i + 1, n as int);
        }
        while j < row_len
            invariant
                m == grid(matrix),
                n == m.len(),
                columns_readable(m),
                i < n,
                row_len == m[i as int].len(),
                j <= row_len,
                count == cells(m, i as int) + j,
                cells(m, i + 1) <= 0x1_0000_0000,
                sum == columns_total(m, i as int) + column_prefix(m, i as int, j as int),
                -2147483648 * count <= sum <= 2147483647 * count,
            decreases row_len - j,
        {
            proof {
                lemma_readable(m, i as int, j as int);
            }
            assert(matrix[j as int]@[i as int] == m[j as int][i as int]);
            sum += matrix[j][i] as i64;
            proof {
                count = count + 1;
            }
            j += 1;
        }
        i += 1;
    }
    sum
}

} // verus!
