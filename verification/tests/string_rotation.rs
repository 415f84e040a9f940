use ctci::string_rotation::is_string_rotation;

#[test]
fn test_valid_rotations() {
    assert!(is_string_rotation("waterbottle", "erbottlewat"));
    assert!(is_string_rotation("abcde", "cdeab"));
    assert!(is_string_rotation("hello", "llohe"));
    assert!(is_string_rotation("a", "a"));
    assert!(is_string_rotation("", ""));
}

#[test]
fn test_invalid_rotations() {
    assert!(!is_string_rotation("waterbottle", "waterbottla"));
    assert!(!is_string_rotation("abcde", "abcdf"));
    assert!(!is_string_rotation("hello", "world"));
    assert!(!is_string_rotation("a", "b"));
    assert!(!is_string_rotation("", "a"));
    assert!(!is_string_rotation("abc", "abcd"));
}

#[test]
fn test_edge_cases() {
    // Test with empty strings
    assert!(is_string_rotation("", ""));

    // Test with single character strings
    assert!(is_string_rotation("a", "a"));
    assert!(!is_string_rotation("a", "b"));

    // Test with spaces and special characters
    assert!(is_string_rotation("a b c ", " a b c"));
    assert!(is_string_rotation("a b c ", "c a b "));
    assert!(is_string_rotation("a!@#", "@#a!"));
}
