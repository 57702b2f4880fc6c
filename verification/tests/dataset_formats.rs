use hnu_algo::dataset::graph::{parse_google_dataset, parse_three_body_dataset, parse_twitter_dataset};
use hnu_algo::dataset::misc::parse_knapsack;
use hnu_algo::dataset::seq::parse_number_lines;
use hnu_algo::dataset::ssp::{parse_ssp_input, parse_ssp_output};
use hnu_algo::dataset::text::{parse_single_u128, parse_single_usize};

#[test]
fn number_lines() {
    assert_eq!(parse_number_lines("3\n1\n2\n"), Some(vec![3, 1, 2]));
    assert_eq!(parse_number_lines("3\r\n1\r\n2"), Some(vec![3, 1, 2]));
    assert_eq!(parse_number_lines(""), Some(vec![]));
    assert_eq!(parse_number_lines("3\n\n2\n"), None);
    assert_eq!(parse_number_lines(" 3\n"), None);
    assert_eq!(parse_number_lines("x\n"), None);
}

#[test]
fn google_lines() {
    let text = "# comment\n0\t1\n\n2\t3\r\n";
    assert_eq!(parse_google_dataset(text), Some(vec![(0, 1), (2, 3)]));
    assert_eq!(parse_google_dataset("0 1\n"), None);
    assert_eq!(parse_google_dataset("0\t1\t2\n"), None);
}

#[test]
fn twitter_lines() {
    assert_eq!(parse_twitter_dataset("5 6\n\n7 8"), Some(vec![(5, 6), (7, 8)]));
    assert_eq!(parse_twitter_dataset("5  6\n"), None);
    assert_eq!(parse_twitter_dataset("# 1 2\n"), None);
}

#[test]
fn three_body_lines() {
    let text = "Source,Target,Type\nA,B,x\n\nC,D,y\n";
    let rel = parse_three_body_dataset(text).unwrap();
    assert_eq!(rel, vec![(b"A".to_vec(), b"B".to_vec()), (b"C".to_vec(), b"D".to_vec())]);
    assert_eq!(parse_three_body_dataset("h\nA,B\n"), None);
    assert_eq!(parse_three_body_dataset(""), Some(vec![]));
}

#[test]
fn knapsack_text() {
    let (capacity, items) = parse_knapsack("2 10\n3 4\n5 6\n").unwrap();
    assert_eq!(capacity, 10);
    assert_eq!(items.len(), 2);
    assert_eq!((items[0].weight, items[0].value), (3, 4));
    assert_eq!((items[1].weight, items[1].value), (5, 6));
    assert!(parse_knapsack("2 10\n3 4\n5\n").is_none());
    assert!(parse_knapsack("").is_none());
}

#[test]
fn ssp_text() {
    let (s, edges) = parse_ssp_input("3 3 1\n1 2 5\n2 3 1\n1 3 9\n").unwrap();
    assert_eq!(s, 1);
    assert_eq!(edges, vec![vec![], vec![(2, 5), (3, 9)], vec![(3, 1)], vec![]]);
    assert!(parse_ssp_input("3 1 1\n4 2 5\n").is_none());
    assert!(parse_ssp_input("3 2 1\n1 2 5\n").is_none());
    assert_eq!(parse_ssp_output("0 5 -1\n", 3), Some(vec![0, 0, 5, u64::MAX]));
    assert_eq!(parse_ssp_output("0 5\n", 3), None);
    assert_eq!(parse_ssp_output("0 -2 1\n", 3), None);
}

#[test]
fn single_numbers() {
    assert_eq!(parse_single_usize(" 42\n"), Some(42));
    assert_eq!(parse_single_usize("4 2"), None);
    assert_eq!(parse_single_u128("340282366920938463463374607431768211455"), Some(u128::MAX));
    assert_eq!(parse_single_u128("340282366920938463463374607431768211456"), None);
}
