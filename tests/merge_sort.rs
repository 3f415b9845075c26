use algo_structures::merge_sort::merge;

#[test]
fn test_sorting() {
    let vec_1 = vec![6, 2, 3, 9, 1, 0, 5, 8, 7, 1, 0, 4, 3, 1];
    assert_eq!(vec![0, 0, 1, 1, 1, 2, 3, 3, 4, 5, 6, 7, 8, 9], merge(vec_1));
}

#[test]
fn sort_empty_and_single() {
    assert_eq!(merge(vec![]), Vec::<i32>::new());
    assert_eq!(merge(vec![5]), vec![5]);
}

#[test]
fn sort_extremes_and_duplicates() {
    let v = vec![i32::MAX, -1, i32::MIN, 0, -1, i32::MAX, 7];
    assert_eq!(merge(v), vec![i32::MIN, -1, -1, 0, 7, i32::MAX, i32::MAX]);
}

#[test]
fn sort_reversed_odd_length() {
    let v: Vec<i32> = (0..37).rev().collect();
    let expected: Vec<i32> = (0..37).collect();
    assert_eq!(merge(v), expected);
}
