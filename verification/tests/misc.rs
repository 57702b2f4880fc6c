use hnu_algo::algorithms::misc::{cantor_expansion, inverse_cantor_expansion};
use hnu_algo::utils::count_nodes;

#[test]
fn cantor_documented_example() {
    assert_eq!(cantor_expansion(&[2, 1, 3]), 3);
    assert_eq!(inverse_cantor_expansion(3, 3), vec![2, 1, 3]);
}

#[test]
fn cantor_first_and_last_of_three() {
    assert_eq!(cantor_expansion(&[1, 2, 3]), 1);
    assert_eq!(cantor_expansion(&[3, 2, 1]), 6);
    assert_eq!(inverse_cantor_expansion(1, 3), vec![1, 2, 3]);
    assert_eq!(inverse_cantor_expansion(6, 3), vec![3, 2, 1]);
}

#[test]
fn cantor_round_trips_every_rank() {
    for n in 1..=6usize {
        let total: usize = (1..=n).product();
        for rank in 1..=total {
            let perm = inverse_cantor_expansion(rank, n);
            assert_eq!(cantor_expansion(&perm), rank, "n={n} rank={rank}");
        }
    }
}

#[test]
fn count_nodes_counts_distinct_endpoints() {
    assert_eq!(count_nodes(&vec![(0, 1), (1, 2), (5, 5)]), 4);
    assert_eq!(count_nodes(&vec![]), 0);
}

fn next_permutation(perm: &mut [usize]) -> bool {
    let n = perm.len();
    if n < 2 {
        return false;
    }
    let mut i = n - 1;
    while i > 0 && perm[i - 1] >= perm[i] {
        i -= 1;
    }
    if i == 0 {
        return false;
    }
    let mut j = n - 1;
    while perm[j] <= perm[i - 1] {
        j -= 1;
    }
    perm.swap(i - 1, j);
    perm[i..].reverse();
    true
}

#[test]
fn cantor_inverse_restores_every_permutation() {
    for n in 1..=7usize {
        let mut perm: Vec<usize> = (1..=n).collect();
        let mut index: usize = 0;
        loop {
            index += 1;
            let rank = cantor_expansion(&perm);
            assert_eq!(rank, index);
            assert_eq!(inverse_cantor_expansion(rank, n), perm);
            if !next_permutation(&mut perm) {
                break;
            }
        }
        assert_eq!(index, (1..=n).product::<usize>());
    }
}
