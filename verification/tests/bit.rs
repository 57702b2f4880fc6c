use hnu_algo::ds::bit::{low_bit, BinaryIndexedTree};

#[test]
fn test_bit1() {
    let mut bit = BinaryIndexedTree::new(5);
    bit.add(1, 1);
    bit.add(2, 5);
    bit.add(3, 4);
    bit.add(4, 2);
    bit.add(5, 3);
    bit.add(1, 3);
    assert_eq!(bit.range_sum(2, 5), 14);
    bit.add(3, -1);
    bit.add(4, 2);
    assert_eq!(bit.range_sum(1, 4), 16);
}

#[test]
fn prefix_sums_of_updates() {
    let mut bit = BinaryIndexedTree::new(8);
    for i in 1..=8usize {
        bit.add(i, i as i64);
    }
    assert_eq!(bit.prefix_sum(0), 0);
    assert_eq!(bit.prefix_sum(8), 36);
    assert_eq!(bit.prefix_sum(3), 6);
    assert_eq!(bit.range_sum(4, 6), 15);
}

#[test]
fn lower_bound_finds_first_prefix_reaching_k() {
    let mut bit = BinaryIndexedTree::new(6);
    for (i, v) in [2i64, 0, 3, 1, 0, 4].iter().enumerate() {
        bit.add(i + 1, *v);
    }
    assert_eq!(bit.lower_bound(1), Some(1));
    assert_eq!(bit.lower_bound(3), Some(3));
    assert_eq!(bit.lower_bound(6), Some(4));
    assert_eq!(bit.lower_bound(7), Some(6));
    assert_eq!(bit.lower_bound(11), None);
}

#[test]
fn low_bit_is_lowest_set_bit() {
    assert_eq!(low_bit(12), 4);
    assert_eq!(low_bit(1), 1);
    assert_eq!(low_bit(96), 32);
}
