use hnu_algo::algorithms::divide_conquer::{find_min_max, sort};

#[test]
fn test_find_min_max_one() {
    let arr = [1];
    let (min, max) = find_min_max(&arr);
    assert_eq!(min, 0);
    assert_eq!(max, 0);
}

#[test]
fn test_find_min_max_high() {
    let arr = [1, 1, 4, 5, 1, 4, -1, 10];
    let (min, max) = find_min_max(&arr);
    assert_eq!(min, 6);
    assert_eq!(max, 7);
}

#[test]
fn find_min_max_takes_first_of_ties() {
    let arr = [1, 1, 4, 5, 1, 4];
    assert_eq!(find_min_max(&arr), (0, 3));
    let arr = [7, 7, 7];
    assert_eq!(find_min_max(&arr), (0, 0));
}

#[test]
fn test_sort_empty() {
    let arr: [i32; 0] = [];
    let sorted_arr = sort(&arr);
    assert_eq!(sorted_arr, Vec::<&i32>::new());
}

#[test]
fn test_sort_one() {
    let arr = [1];
    let sorted_arr = sort(&arr);
    assert_eq!(sorted_arr, vec![&1]);
}

#[test]
fn test_sort_increase() {
    let arr = [1, 2, 3, 4, 5];
    let sorted_arr = sort(&arr);
    assert_eq!(sorted_arr, vec![&1, &2, &3, &4, &5]);
}

#[test]
fn test_sort_decrease() {
    let arr = [5, 4, 3, 2, 1];
    let sorted_arr = sort(&arr);
    assert_eq!(sorted_arr, vec![&1, &2, &3, &4, &5]);
}

#[test]
fn sort_with_duplicates_and_negatives() {
    let arr = [1, 1, 4, 5, 1, 4, -3, 0];
    let sorted_arr: Vec<i32> = sort(&arr).into_iter().copied().collect();
    assert_eq!(sorted_arr, vec![-3, 0, 1, 1, 1, 4, 4, 5]);
}
