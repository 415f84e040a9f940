use ctci::word_search::{search_word_in_matrix, Pos, Vec2d};

/// Test helper function to create a standard test matrix
fn create_test_matrix() -> Vec2d {
    vec![
        vec!['a', 'b', 'c', 'd'],
        vec!['e', 'f', 'g', 'h'],
        vec!['i', 'j', 'k', 'l'],
        vec!['m', 'n', 'o', 'p'],
    ]
}

/// Test finding a word horizontally in the matrix
#[test]
fn test_horizontal_word() {
    let matrix = create_test_matrix();
    let word = vec!['a', 'b', 'c'];

    let results = search_word_in_matrix(&word, &matrix);

    // Should find exactly one path
    assert_eq!(results.len(), 1);
    // Path should match the expected positions
    assert_eq!(results[0], vec![[0, 0], [0, 1], [0, 2]]);
}

/// Test finding a word vertically in the matrix
#[test]
fn test_vertical_word() {
    let matrix = create_test_matrix();
    let word = vec!['a', 'e', 'i', 'm'];

    let results = search_word_in_matrix(&word, &matrix);

    // Should find exactly one path
    assert_eq!(results.len(), 1);
    // Path should match the expected positions
    assert_eq!(results[0], vec![[0, 0], [1, 0], [2, 0], [3, 0]]);
}

/// Test when a word is not found in the matrix
#[test]
fn test_word_not_found() {
    let matrix = create_test_matrix();
    let word = vec!['x', 'y', 'z']; // These characters don't exist in the matrix

    let results = search_word_in_matrix(&word, &matrix);

    // Should find no paths
    assert_eq!(results.len(), 0);
}

/// Test with a single character word
#[test]
fn test_single_char_word() {
    let matrix = create_test_matrix();
    let word = vec!['a'];

    let results = search_word_in_matrix(&word, &matrix);

    // Should find exactly one path
    assert_eq!(results.len(), 1);
    // Path should match the expected position
    assert_eq!(results[0], vec![[0, 0]]);
}

/// Test with an empty word
#[test]
fn test_empty_word() {
    let matrix = create_test_matrix();
    let word = vec![];

    let results = search_word_in_matrix(&word, &matrix);

    // Should find exactly one path (an empty path)
    assert_eq!(results.len(), 1);
    // The path should be empty
    assert_eq!(results[0], Vec::<Pos>::new());
}

/// Test with an empty matrix
#[test]
fn main_test_empty_matrix() {
    let matrix: Vec2d = vec![];
    let word = vec!['a', 'b', 'c'];

    let results = search_word_in_matrix(&word, &matrix);

    // Should find no paths
    assert_eq!(results.len(), 0);
}

/// Test multiple possible paths for the same word
#[test]
fn test_multiple_paths() {
    let matrix = vec![
        vec!['a', 'b', 'c'],
        vec!['d', 'e', 'f'],
        vec!['g', 'e', 'f'],
        vec!['j', 'k', 'l'],
    ];

    // The word "ef" can be found in both horizontal paths (row 1 and row 2)
    let word = vec!['e', 'f'];

    let results = search_word_in_matrix(&word, &matrix);

    // Should find exactly two paths
    assert_eq!(results.len(), 2);

    // Check that both expected paths are in the results
    let path1 = vec![[1, 1], [1, 2]]; // Second row
    let path2 = vec![[2, 1], [2, 2]]; // Third row

    let contains_path1 = results.iter().any(|path| *path == path1);
    let contains_path2 = results.iter().any(|path| *path == path2);

    assert!(contains_path1, "Results should contain the first horizontal path");
    assert!(contains_path2, "Results should contain the second horizontal path");
}

/// Test a word that wraps around the matrix (which should not be valid)
#[test]
fn test_word_wrapping() {
    let matrix = create_test_matrix();
    let word = vec!['d', 'a']; // 'd' at [0,3] and 'a' at [0,0] are not neighbors

    let results = search_word_in_matrix(&word, &matrix);

    // Should find no valid paths as wrapping is not allowed
    assert_eq!(results.len(), 0);
}
