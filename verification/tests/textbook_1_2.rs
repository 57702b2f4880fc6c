use hnu_algo::algorithms::textbook_1_2::{gen_pre, solve, LENGTH_MAX};
use std::cmp::Ordering;

#[test]
fn table_counts_increasing_strings() {
    let pre = gen_pre();
    assert_eq!(pre.len(), LENGTH_MAX + 1);
    assert!(pre.iter().all(|row| row.len() == 27));
    assert_eq!(pre[1][26], 26);
    assert_eq!(pre[2][1], 25);
    assert_eq!(pre[2][26], 325);
    assert_eq!(pre[6][26], 230230);
    assert_eq!(pre[0][26], 0);
    assert_eq!(pre[3][0], 0);
}

#[test]
fn numbers_of_short_words() {
    let pre = gen_pre();
    assert_eq!(solve(&pre, String::from("a")), 1);
    assert_eq!(solve(&pre, String::from("z")), 26);
    assert_eq!(solve(&pre, String::from("ab")), 27);
    assert_eq!(solve(&pre, String::from("az")), 51);
    assert_eq!(solve(&pre, String::from("bc")), 52);
    assert_eq!(solve(&pre, String::from("yz")), 351);
    assert_eq!(solve(&pre, String::from("abc")), 352);
    assert_eq!(solve(&pre, String::new()), 1);
}

fn gen_list_item(string: String, list: &mut Vec<String>) {
    if string.len() == LENGTH_MAX {
        return;
    }
    let base = string.chars().last().map(|c| c as u8 - b'a' + 1).unwrap_or(0);
    for i in base + 1..=26 {
        let mut new_string = string.clone();
        new_string.push((b'a' + i - 1) as char);
        list.push(new_string.clone());
        gen_list_item(new_string, list);
    }
}

fn cmp(a: &String, b: &String) -> Ordering {
    if a.len() == b.len() {
        a.cmp(b)
    } else {
        a.len().cmp(&b.len())
    }
}

#[test]
fn numbers_follow_the_enumeration() {
    let pre = gen_pre();
    let mut list = Vec::new();
    gen_list_item(String::new(), &mut list);
    list.sort_by(cmp);
    for (i, s) in list.iter().enumerate() {
        assert_eq!(solve(&pre, s.clone()), i + 1);
    }
}
