use sorting::insertion::insertion_sort;

#[test]
fn insertion_sort_test_empty_array() {
    let mut arr: Vec<i32> = vec![];
    insertion_sort(&mut arr);
    assert_eq!(arr, vec![]);
}

#[test]
fn insertion_sort_test_single_element() {
    let mut arr = vec![42];
    insertion_sort(&mut arr);
    assert_eq!(arr, vec![42]);
}

#[test]
fn insertion_sort_test_already_sorted() {
    let mut arr = vec![1, 2, 3, 4, 5];
    insertion_sort(&mut arr);
    assert_eq!(arr, vec![1, 2, 3, 4, 5]);
}

#[test]
fn insertion_sort_test_reverse_sorted() {
    let mut arr = vec![5, 4, 3, 2, 1];
    insertion_sort(&mut arr);
    assert_eq!(arr, vec![1, 2, 3, 4, 5]);
}

#[test]
fn insertion_sort_test_random_order() {
    let mut arr = vec![3, 1, 4, 1, 5, 9, 2, 6];
    insertion_sort(&mut arr);
    assert_eq!(arr, vec![1, 1, 2, 3, 4, 5, 6, 9]);
}

#[test]
fn insertion_sort_test_duplicates() {
    let mut arr = vec![5, 2, 8, 2, 9, 1, 5, 5];
    insertion_sort(&mut arr);
    assert_eq!(arr, vec![1, 2, 2, 5, 5, 5, 8, 9]);
}

#[test]
fn insertion_sort_test_negative_numbers() {
    let mut arr = vec![-3, 5, -1, 0, -9, 2];
    insertion_sort(&mut arr);
    assert_eq!(arr, vec![-9, -3, -1, 0, 2, 5]);
}

#[test]
fn insertion_sort_test_large_numbers() {
    let mut arr = vec![1000000, -1000000, 0, 999999, -999999];
    insertion_sort(&mut arr);
    assert_eq!(arr, vec![-1000000, -999999, 0, 999999, 1000000]);
}

#[test]
fn test_two_elements() {
    let mut arr = vec![2, 1];
    insertion_sort(&mut arr);
    assert_eq!(arr, vec![1, 2]);
}

#[test]
fn insertion_sort_test_stability() {
    // While i32 doesn't show stability, this tests the algorithm works correctly
    let mut arr = vec![3, 3, 1, 2, 3];
    insertion_sort(&mut arr);
    assert_eq!(arr, vec![1, 2, 3, 3, 3]);
}
