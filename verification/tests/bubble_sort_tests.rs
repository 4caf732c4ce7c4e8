use sorting::bubble::bubble_sort;

#[test]
fn bubbleSort_test_empty_array() {
    let mut arr: Vec<i32> = vec![];
    bubble_sort(&mut arr);
    assert_eq!(arr, vec![]);
}

#[test]
fn bubbleSort_test_single_element() {
    let mut arr = vec![42];
    bubble_sort(&mut arr);
    assert_eq!(arr, vec![42]);
}

#[test]
fn bubbleSort_test_already_sorted() {
    let mut arr = vec![1, 2, 3, 4, 5];
    bubble_sort(&mut arr);
    assert_eq!(arr, vec![1, 2, 3, 4, 5]);
}

#[test]
fn bubbleSort_test_reverse_sorted() {
    let mut arr = vec![5, 4, 3, 2, 1];
    bubble_sort(&mut arr);
    assert_eq!(arr, vec![1, 2, 3, 4, 5]);
}

#[test]
fn bubbleSort_test_random_order() {
    let mut arr = vec![3, 1, 4, 1, 5, 9, 2, 6];
    bubble_sort(&mut arr);
    assert_eq!(arr, vec![1, 1, 2, 3, 4, 5, 6, 9]);
}

#[test]
fn bubbleSort_test_duplicates() {
    let mut arr = vec![5, 2, 8, 2, 9, 1, 5, 5];
    bubble_sort(&mut arr);
    assert_eq!(arr, vec![1, 2, 2, 5, 5, 5, 8, 9]);
}

#[test]
fn bubbleSort_test_negative_numbers() {
    let mut arr = vec![-3, 5, -1, 0, -9, 2];
    bubble_sort(&mut arr);
    assert_eq!(arr, vec![-9, -3, -1, 0, 2, 5]);
}

#[test]
fn bubbleSort_test_large_numbers() {
    let mut arr = vec![1000000, -1000000, 0, 999999, -999999];
    bubble_sort(&mut arr);
    assert_eq!(arr, vec![-1000000, -999999, 0, 999999, 1000000]);
}
