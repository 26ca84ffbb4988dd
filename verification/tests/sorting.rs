use algorithm_study::sorting::{bubble_sort, insertion_sort, merge_sort, quick_sort, selection_sort};

#[test]
fn bubble_sort_orders_values() {
    let mut vec_0: Vec<i32> = Vec::new();
    let mut vec_1 = vec![1];
    let mut vec_2 = vec![3, 5, 2, 4, 1];

    bubble_sort(&mut vec_0);
    bubble_sort(&mut vec_1);
    bubble_sort(&mut vec_2);

    assert_eq!(vec_0, Vec::new());
    assert_eq!(vec_1, vec![1]);
    assert_eq!(vec_2, vec![1, 2, 3, 4, 5]);
}

#[test]
fn insertion_sort_orders_values() {
    let mut vec_0: Vec<i32> = Vec::new();
    let mut vec_1 = vec![1];
    let mut vec_2 = vec![3, 5, 2, 4, 1];

    insertion_sort(&mut vec_0);
    insertion_sort(&mut vec_1);
    insertion_sort(&mut vec_2);

    assert_eq!(vec_0, Vec::new());
    assert_eq!(vec_1, vec![1]);
    assert_eq!(vec_2, vec![1, 2, 3, 4, 5]);
}

#[test]
fn selection_sort_orders_values() {
    let mut vec_0: Vec<i32> = Vec::new();
    let mut vec_1 = vec![1];
    let mut vec_2 = vec![3, 5, 2, 4, 1];

    selection_sort(&mut vec_0);
    selection_sort(&mut vec_1);
    selection_sort(&mut vec_2);

    assert_eq!(vec_0, Vec::new());
    assert_eq!(vec_1, vec![1]);
    assert_eq!(vec_2, vec![1, 2, 3, 4, 5]);
}

#[test]
fn merge_sort_orders_values() {
    let vec_0: Vec<i32> = Vec::new();
    let vec_1 = vec![1];
    let vec_2 = vec![2, 1];
    let vec_3 = vec![3, 5, 2, 4, 1];

    assert_eq!(merge_sort(vec_0), Vec::new());
    assert_eq!(merge_sort(vec_1), vec![1]);
    assert_eq!(merge_sort(vec_2), vec![1, 2]);
    assert_eq!(merge_sort(vec_3), vec![1, 2, 3, 4, 5]);
}

#[test]
fn quick_sort_orders_values() {
    let mut vec_0: Vec<i32> = Vec::new();
    let mut vec_1 = vec![1];
    let mut vec_2 = vec![2, 1];
    let mut vec_3 = vec![3, 5, 2, 4, 1];

    quick_sort(&mut vec_0);
    quick_sort(&mut vec_1);
    quick_sort(&mut vec_2);
    quick_sort(&mut vec_3);

    assert_eq!(vec_0, Vec::new());
    assert_eq!(vec_1, vec![1]);
    assert_eq!(vec_2, vec![1, 2]);
    assert_eq!(vec_3, vec![1, 2, 3, 4, 5]);
}

#[test]
fn sorts_handle_duplicates_and_order() {
    let messy = vec![2, 2, 1, 5, -3, 5, 0, 2];
    let neat = vec![-3, 0, 1, 2, 2, 2, 5, 5];

    let mut v = messy.clone();
    bubble_sort(&mut v);
    assert_eq!(v, neat);

    let mut v = messy.clone();
    insertion_sort(&mut v);
    assert_eq!(v, neat);

    let mut v = messy.clone();
    selection_sort(&mut v);
    assert_eq!(v, neat);

    let mut v = messy.clone();
    quick_sort(&mut v);
    assert_eq!(v, neat);

    assert_eq!(merge_sort(messy), neat);
}

#[test]
fn sorts_handle_reversed_and_equal_runs() {
    let mut v = vec![9, 8, 7, 6, 5, 4, 3, 2, 1];
    quick_sort(&mut v);
    assert_eq!(v, vec![1, 2, 3, 4, 5, 6, 7, 8, 9]);

    let mut v = vec![4, 4, 4, 4];
    quick_sort(&mut v);
    assert_eq!(v, vec![4, 4, 4, 4]);

    let mut v = vec![1, 5, 2];
    quick_sort(&mut v);
    assert_eq!(v, vec![1, 2, 5]);

    let mut v = vec![4, 4, 4, 4];
    bubble_sort(&mut v);
    assert_eq!(v, vec![4, 4, 4, 4]);
}
