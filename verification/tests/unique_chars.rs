use ctci::unique_chars::{is_unique_brute, is_unique_set, is_unique_sort};

#[test]
fn test_simple_unique() {
    let args = vec![("abcxyz".to_string(), true), ("axayat".to_string(), false)];

    for i in 0..args.len() {
        let is_unique0 = is_unique_brute(&args[i].0);
        let is_unique1 = is_unique_set(&args[i].0);
        let is_unique2 = is_unique_sort(&args[i].0);
        assert!(is_unique0 == args[i].1 && is_unique1 == args[i].1 && is_unique2 == args[i].1);
    }
}

#[test]
fn test_unique_empty_and_unicode() {
    assert!(is_unique_brute(""));
    assert!(is_unique_set(""));
    assert!(is_unique_sort(""));
    assert!(is_unique_sort("zyxw"));
    assert!(!is_unique_brute("aa"));
}
