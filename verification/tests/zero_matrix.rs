use ctci::zero_matrix::zero_matrix;

/// Test that an empty matrix is handled correctly
#[test]
fn lib_test_empty_matrix() {
    let mut empty: Vec<Vec<i32>> = Vec::new();
    let expected: Vec<Vec<i32>> = Vec::new();
    zero_matrix(&mut empty);
    assert_eq!(empty, expected);
}

/// Test with a single element that is zero
#[test]
fn test_single_element_zero() {
    let mut matrix = vec![vec![0]];
    let expected = vec![vec![0]];
    zero_matrix(&mut matrix);
    assert_eq!(matrix, expected);
}

/// Test with a single element that is non-zero
#[test]
fn test_single_element_non_zero() {
    let mut matrix = vec![vec![5]];
    let expected = vec![vec![5]];
    zero_matrix(&mut matrix);
    assert_eq!(matrix, expected);
}

/// Test with a 3x3 matrix containing a single zero
#[test]
fn test_single_zero_in_regular_matrix() {
    let mut matrix = vec![vec![1, 2, 3], vec![4, 0, 6], vec![7, 8, 9]];
    let expected = vec![vec![1, 0, 3], vec![0, 0, 0], vec![7, 0, 9]];
    zero_matrix(&mut matrix);
    assert_eq!(matrix, expected);
}

/// Test with a 4x4 matrix containing multiple zeros
#[test]
fn test_multiple_zeros_in_matrix() {
    let mut matrix = vec![
        vec![1, 0, 3, 4],
        vec![5, 6, 7, 8],
        vec![9, 10, 0, 12],
        vec![13, 14, 15, 16],
    ];
    let expected = vec![
        vec![0, 0, 0, 0],
        vec![5, 0, 0, 8],
        vec![0, 0, 0, 0],
        vec![13, 0, 0, 16],
    ];
    zero_matrix(&mut matrix);
    assert_eq!(matrix, expected);
}

/// Test with a matrix containing no zeros
#[test]
fn test_no_zeros_in_matrix() {
    let mut matrix = vec![vec![1, 2, 3], vec![4, 5, 6], vec![7, 8, 9]];
    let expected = vec![vec![1, 2, 3], vec![4, 5, 6], vec![7, 8, 9]];
    zero_matrix(&mut matrix);
    assert_eq!(matrix, expected);
}

/// Test with a matrix where an entire row is already zeros
#[test]
fn test_entire_row_already_zero() {
    let mut matrix = vec![vec![1, 2, 3], vec![0, 0, 0], vec![7, 8, 9]];
    let expected = vec![vec![0, 0, 0], vec![0, 0, 0], vec![0, 0, 0]];
    zero_matrix(&mut matrix);
    assert_eq!(matrix, expected);
}

/// Test with a matrix where an entire column is already zeros
#[test]
fn test_entire_column_already_zero() {
    let mut matrix = vec![vec![1, 0, 3], vec![4, 0, 6], vec![7, 0, 9]];
    let expected = vec![vec![0, 0, 0], vec![0, 0, 0], vec![0, 0, 0]];
    zero_matrix(&mut matrix);
    assert_eq!(matrix, expected);
}

/// Test with a matrix containing zeros in the same row
#[test]
fn test_zeros_in_same_row() {
    let mut matrix = vec![vec![1, 2, 3], vec![0, 5, 0], vec![7, 8, 9]];
    let expected = vec![vec![0, 2, 0], vec![0, 0, 0], vec![0, 8, 0]];
    zero_matrix(&mut matrix);
    assert_eq!(matrix, expected);
}

/// Test with a matrix containing zeros in the same column
#[test]
fn test_zeros_in_same_column() {
    let mut matrix = vec![vec![1, 2, 0], vec![4, 5, 6], vec![7, 8, 0]];
    let expected = vec![vec![0, 0, 0], vec![4, 5, 0], vec![0, 0, 0]];
    zero_matrix(&mut matrix);
    assert_eq!(matrix, expected);
}

/// Test with a matrix having rows of different lengths
#[test]
fn test_matrix_with_different_row_lengths() {
    let mut matrix = vec![vec![1, 2, 3, 4], vec![5, 0], vec![6, 7, 8]];
    let expected = vec![vec![1, 0, 3, 4], vec![0, 0], vec![6, 0, 8]];
    zero_matrix(&mut matrix);
    assert_eq!(matrix, expected);
}
