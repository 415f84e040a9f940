use ctci::one_away::one_away;

#[test]
fn test_simple() {
    let test_data = vec![
        ("abcdefg", "axxdefg", false),
        ("", "", true),
        ("abc", "abc", true),
        ("abcd", "abc", true),
        ("axbc", "abc", true),
        ("axc", "abc", true),
        ("abcde", "abc", false),
        ("", "a", true),
    ];

    for x in test_data {
        let s1 = x.0;
        let s2 = x.1;
        let expected_result = x.2;
        let result = one_away(s1, s2);
        assert!(result == expected_result);
    }
}

#[test]
fn test_one_away_insert_at_ends() {
    assert!(one_away("ab", "xab"));
    assert!(one_away("ab", "abx"));
    assert!(!one_away("ab", "xaxb"));
}
