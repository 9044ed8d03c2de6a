use insertion_sort::insertion_sort;
use insertion_sort::insertion_sort_pairs;

#[test]
fn test_sorted_array() {
    let mut data: Vec<i64> = vec![1, 2, 3, 4, 5];
    insertion_sort(&mut data);
    assert_eq!(data, vec![1, 2, 3, 4, 5]);
}

#[test]
fn test_reverse_array() {
    let mut data: Vec<i64> = vec![5, 4, 3, 2, 1];
    insertion_sort(&mut data);
    assert_eq!(data, vec![1, 2, 3, 4, 5]);
}

#[test]
fn test_duplicates() {
    let mut data: Vec<i64> = vec![3, 3, 2, 1, 2];
    insertion_sort(&mut data);
    assert_eq!(data, vec![1, 2, 2, 3, 3]);
}

#[test]
fn test_single_element() {
    let mut data: Vec<i64> = vec![42];
    insertion_sort(&mut data);
    assert_eq!(data, vec![42]);
}

#[test]
fn test_empty_array() {
    let mut data: Vec<i64> = vec![];
    insertion_sort(&mut data);
    assert!(data.is_empty());
}

#[test]
fn test_mixed_values() {
    let mut data: Vec<i64> = vec![9, 5, 1, 4, 3];
    insertion_sort(&mut data);
    assert_eq!(data, vec![1, 3, 4, 5, 9]);
}

#[test]
fn test_all_equal() {
    let mut data: Vec<i64> = vec![3, 3, 3];
    insertion_sort(&mut data);
    assert_eq!(data, vec![3, 3, 3]);
}

#[test]
fn test_sort_twice() {
    let mut once: Vec<i64> = vec![9, 5, 1, 4, 3];
    insertion_sort(&mut once);
    let mut twice = once.clone();
    insertion_sort(&mut twice);
    assert_eq!(twice, once);
}

#[test]
fn test_negative_values() {
    let mut data: Vec<i64> = vec![0, -3, 7, -3, 2];
    insertion_sort(&mut data);
    assert_eq!(data, vec![-3, -3, 0, 2, 7]);
}

#[test]
fn test_stable_pairs() {
    // The elements of [3, 3, 2, 1, 2], each tagged with its original
    // position: among equal keys the tags must keep their input order.
    let mut data: Vec<(i64, usize)> = vec![(3, 0), (3, 1), (2, 2), (1, 3), (2, 4)];
    insertion_sort_pairs(&mut data);
    assert_eq!(data, vec![(1, 3), (2, 2), (2, 4), (3, 0), (3, 1)]);
}

#[test]
fn test_pairs_equal_keys() {
    let mut data: Vec<(i64, usize)> = vec![(7, 0), (7, 1), (7, 2)];
    insertion_sort_pairs(&mut data);
    assert_eq!(data, vec![(7, 0), (7, 1), (7, 2)]);
}

#[test]
fn test_pairs_reverse() {
    let mut data: Vec<(i64, usize)> = vec![(5, 0), (4, 1), (3, 2)];
    insertion_sort_pairs(&mut data);
    assert_eq!(data, vec![(3, 2), (4, 1), (5, 0)]);
}
