use ctci::remove_duplicates::remove_duplicates_using_hashset;

#[test]
fn test_empty_list() {
    let mut list: Vec<i32> = Vec::new();
    remove_duplicates_using_hashset(&mut list);
    assert_eq!(list, Vec::<i32>::new());
}

#[test]
fn test_no_duplicates() {
    let mut list = vec![1, 2, 3, 4, 5];
    let expected = vec![1, 2, 3, 4, 5];
    remove_duplicates_using_hashset(&mut list);
    assert_eq!(list, expected);
}

#[test]
fn test_consecutive_duplicates() {
    let mut list = vec![1, 1, 2, 2, 3, 3];
    let expected = vec![1, 2, 3];
    remove_duplicates_using_hashset(&mut list);
    assert_eq!(list, expected);
}

#[test]
fn test_non_consecutive_duplicates() {
    let mut list = vec![1, 2, 3, 1, 2, 3];
    let expected = vec![1, 2, 3];
    remove_duplicates_using_hashset(&mut list);
    assert_eq!(list, expected);
}

#[test]
fn test_all_same_elements() {
    let mut list = vec![5, 5, 5, 5, 5];
    let expected = vec![5];
    remove_duplicates_using_hashset(&mut list);
    assert_eq!(list, expected);
}

#[test]
fn test_multiple_duplicates_of_multiple_values() {
    let mut list = vec![1, 2, 2, 3, 1, 4, 4, 5, 3, 5];
    let expected = vec![1, 2, 3, 4, 5];
    remove_duplicates_using_hashset(&mut list);
    assert_eq!(list, expected);
}
