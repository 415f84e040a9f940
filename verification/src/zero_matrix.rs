//! Zeroing a matrix: wherever an element is zero, its whole row and column
//! become zero.  Rows may differ in length; a cell is zeroed when its row
//! holds a zero anywhere, or its column holds a zero in any row long
//! enough to have that column.

use vstd::prelude::*;
use vstd::std_specs::vec::vec_index_mut;

verus! {

/// Row `i` of the matrix holds a zero.
pub open spec fn row_has_zero(m: Seq<Seq<i32>>, i: int) -> bool {
    exists|j: int| 0 <= j < m[i].len() && m[i][j] == 0
}

/// Column `j` of the matrix holds a zero in some row.
pub open spec fn col_has_zero(m: Seq<Seq<i32>>, j: int) -> bool {
    exists|i: int| 0 <= i < m.len() && 0 <= j < m[i].len() && m[i][j] == 0
}

/// Whether the row holds a zero.
fn row_scan(row: &Vec<i32>) -> (r: bool)
    ensures
        r == exists|j: int| 0 <= j < row@.len() && row@[j] == 0,
{
    let mut j: usize = 0;
    while j < row.len()
        invariant
            j <= row@.len(),
            forall|t: int| 0 <= t < j ==> row@[t] != 0,
        decreases row@.len() - j,
    {
        if row[j] == 0 {
            return true;
        }
        j = j + 1;
    }
    false
}

/// Whether column `col` holds a zero in some row.
fn col_scan(matrix: &Vec<Vec<i32>>, col: usize) -> (r: bool)
    ensures
        r == col_has_zero(matrix.deep_view(), col as int),
{
    let ghost m = matrix.deep_view();
    let mut i: usize = 0;
    #[verifier::loop_isolation(false)]
    while i < matrix.len()
        invariant
            i <= m.len(),
            forall|t: int| 0 <= t < i ==> !(col < (#[trigger] m[t]).len() && m[t][col as int] == 0),
        decreases m.len() - i,
    {
        let row = &matrix[i];
        if col < row.len() && row[col] == 0 {
            proof {
                assert(m[i as int][col as int] == 0);
            }
            return true;
        }
        i = i + 1;
    }
    false
}

/// Sets every element of the given row to zero; rows out of range are left
/// alone.
fn zero_out_row(matrix: &mut Vec<Vec<i32>>, row: usize)
    ensures
        final(matrix)@.len() == old(matrix)@.len(),
        forall|i: int|
            0 <= i < old(matrix)@.len() && i != row ==> final(matrix)@[i] == old(matrix)@[i],
        row < old(matrix)@.len() ==> final(matrix)@[row as int]@ =~= Seq::new(
            old(matrix)@[row as int]@.len(),
            |j: int| 0i32,
        ),
{
    if row < matrix.len() {
        let n = matrix[row].len();
        let slot = vec_index_mut(matrix, row);
        *slot = vec![0i32; n];
    }
}

/// Sets the given column to zero in every row long enough to have it.
fn zero_out_column(matrix: &mut Vec<Vec<i32>>, col: usize)
    ensures
        final(matrix)@.len() == old(matrix)@.len(),
        forall|i: int|
            0 <= i < old(matrix)@.len() ==> (#[trigger] final(matrix)@[i])@ =~= (if col < old(
                matrix,
            )@[i]@.len() {
                old(matrix)@[i]@.update(col as int, 0i32)
            } else {
                old(matrix)@[i]@
            }),
{
    let ghost m0 = matrix@;
    let mut i: usize = 0;
    #[verifier::loop_isolation(false)]
    while i < matrix.len()
        invariant
            i <= m0.len(),
            matrix@.len() == m0.len(),
            forall|t: int|
                0 <= t < i ==> (#[trigger] matrix@[t])@ =~= (if col < m0[t]@.len() {
                    m0[t]@.update(col as int, 0i32)
                } else {
                    m0[t]@
                }),
            forall|t: int| i <= t < m0.len() ==> matrix@[t] == m0[t],
        decreases m0.len() - i,
    {
        let has_col = col < matrix[i].len();
        if has_col {
            let rowr = vec_index_mut(matrix, i);
            let slot = vec_index_mut(rowr, col);
            *slot = 0;
        }
        i = i + 1;
    }
}

/// Transforms the matrix so that every row and column that contained a
/// zero is entirely zero: a cell keeps its value exactly when neither its
/// row nor its column had a zero.
pub fn zero_matrix(matrix: &mut Vec<Vec<i32>>)
    ensures
        final(matrix)@.len() == old(matrix)@.len(),
        forall|i: int|
            0 <= i < old(matrix)@.len() ==> (#[trigger] final(matrix)@[i])@.len()
                == old(matrix)@[i]@.len(),
        forall|i: int, j: int|
            0 <= i < old(matrix)@.len() && 0 <= j < old(matrix)@[i]@.len()
                ==> (#[trigger] final(matrix)@[i]@[j]) == (if row_has_zero(
                old(matrix).deep_view(),
                i,
            ) || col_has_zero(old(matrix).deep_view(), j) {
                0i32
            } else {
                old(matrix)@[i]@[j]
            }),
{
    let ghost m0 = matrix.deep_view();
    proof {
        assert(m0.len() == matrix@.len());
        assert(forall|i: int| 0 <= i < m0.len() ==> #[trigger] m0[i] == matrix@[i]@);
    }
    if matrix.is_empty() {
        return ;
    }
    // first pass: find the rows and columns that hold a zero
    let rows = matrix.len();
    let mut max_cols: usize = 0;
    let mut i: usize = 0;
    #[verifier::loop_isolation(false)]
    while i < rows
        invariant
            i <= rows,
            forall|t: int| 0 <= t < i ==> (#[trigger] m0[t]).len() <= max_cols,
        decreases rows - i,
    {
        if matrix[i].len() > max_cols {
            max_cols = matrix[i].len();
        }
        i = i + 1;
    }
    let mut zero_rows: Vec<bool> = Vec::new();
    let mut i2: usize = 0;
    #[verifier::loop_isolation(false)]
    while i2 < rows
        invariant
            i2 <= rows,
            zero_rows@.len() == i2,
            forall|t: int| 0 <= t < i2 ==> zero_rows@[t] == row_has_zero(m0, t),
        decreases rows - i2,
    {
        let z = row_scan(&matrix[i2]);
        proof {
            assert(m0[i2 as int] == matrix@[i2 as int]@);
        }
        zero_rows.push(z);
        i2 = i2 + 1;
    }
    let mut zero_cols: Vec<bool> = Vec::new();
    let mut j: usize = 0;
    #[verifier::loop_isolation(false)]
    while j < max_cols
        invariant
            j <= max_cols,
            zero_cols@.len() == j,
            forall|t: int| 0 <= t < j ==> zero_cols@[t] == col_has_zero(m0, t),
        decreases max_cols - j,
    {
        let z = col_scan(matrix, j);
        zero_cols.push(z);
        j = j + 1;
    }
    // second pass: zero out the marked rows and columns
    let mut i3: usize = 0;
    #[verifier::loop_isolation(false)]
    while i3 < rows
        invariant
            i3 <= rows,
            matrix@.len() == rows,
            forall|t: int| 0 <= t < rows ==> (#[trigger] matrix@[t])@.len() == m0[t].len(),
            forall|t: int|
                0 <= t < i3 ==> (#[trigger] matrix@[t])@ =~= (if row_has_zero(m0, t) {
                    Seq::new(m0[t].len(), |j2: int| 0i32)
                } else {
                    m0[t]
                }),
            forall|t: int| i3 <= t < rows ==> (#[trigger] matrix@[t])@ == m0[t],
        decreases rows - i3,
    {
        if zero_rows[i3] {
            zero_out_row(matrix, i3);
        }
        i3 = i3 + 1;
    }
    let ghost m1 = matrix.deep_view();
    proof {
        assert(forall|t: int| 0 <= t < rows ==> #[trigger] m1[t] == matrix@[t]@);
    }
    let mut j2: usize = 0;
    #[verifier::loop_isolation(false)]
    while j2 < max_cols
        invariant
            j2 <= max_cols,
            matrix@.len() == rows,
            forall|t: int| 0 <= t < rows ==> (#[trigger] matrix@[t])@.len() == m1[t].len(),
            forall|t: int, u: int|
                0 <= t < rows && 0 <= u < m1[t].len() ==> (#[trigger] matrix@[t]@[u]) == (if u < j2
                    && col_has_zero(m0, u) {
                    0i32
                } else {
                    m1[t][u]
                }),
        decreases max_cols - j2,
    {
        if zero_cols[j2] {
            zero_out_column(matrix, j2);
        }
        j2 = j2 + 1;
    }
    proof {
        assert forall|i: int, j: int|
            0 <= i < m0.len() && 0 <= j < m0[i].len() implies (#[trigger] matrix@[i]@[j]) == (
        if row_has_zero(m0, i) || col_has_zero(m0, j) {
            0i32
        } else {
            m0[i][j]
        }) by {
            assert(m0[i].len() <= max_cols);
            assert(m1[i].len() == m0[i].len());
            if j >= j2 {
                assert(false);
            }
        }
    }
}

} // verus!
