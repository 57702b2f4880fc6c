use hnu_algo::dataset::dp::parse_batch_scheduling;
use hnu_algo::algorithms::dp::{simple_knapsack, BatchScheduling, SimpleKnapsackItem};

fn reference_optimal(startup: usize, duration: &[usize], fee: &[usize]) -> usize {
    let n = duration.len();
    if n == 0 {
        return 0;
    }
    let mut best = usize::MAX;
    let cuts = n - 1;
    for mask in 0..(1usize << cuts) {
        let mut clock = 0usize;
        let mut total = 0usize;
        let mut start = 0usize;
        while start < n {
            clock += startup;
            let mut end = start;
            loop {
                clock += duration[end];
                end += 1;
                if end >= n {
                    break;
                }
                if (mask >> (end - 1)) & 1 != 0 {
                    break;
                }
            }
            for k in start..end {
                total += clock * fee[k];
            }
            start = end;
        }
        best = best.min(total);
    }
    best
}

fn single_batch_upper_bound(startup: usize, duration: &[usize], fee: &[usize]) -> usize {
    let sum_t: usize = duration.iter().sum();
    let sum_f: usize = fee.iter().sum();
    (startup + sum_t) * sum_f
}

#[test]
fn sample_from_statement() {
    let p = BatchScheduling::new(1, vec![1, 3, 4, 2, 1], vec![3, 2, 3, 3, 4]);
    assert_eq!(p.solve(), 153);
}

#[test]
fn single_job() {
    let p = BatchScheduling::new(5, vec![10], vec![7]);
    assert_eq!(p.solve(), 105);
}

#[test]
fn two_jobs_one_batch() {
    let p = BatchScheduling::new(2, vec![1, 2], vec![3, 4]);
    assert_eq!(p.solve(), 35);
}

#[test]
fn statement_scheme_cost_matches_reference() {
    let startup = 1usize;
    let duration = [1usize, 3, 4, 2, 1];
    let fee = [3usize, 2, 3, 3, 4];
    let mut clock = 0usize;
    let mut total = 0usize;
    clock += startup + duration[0] + duration[1];
    for k in 0..2 {
        total += clock * fee[k];
    }
    clock += startup + duration[2];
    total += clock * fee[2];
    clock += startup + duration[3] + duration[4];
    for k in 3..5 {
        total += clock * fee[k];
    }
    assert_eq!(total, 153);
    assert_eq!(reference_optimal(startup, &duration, &fee), 153);
}

#[test]
fn multiple_batches_better_than_one() {
    let startup = 5usize;
    let duration = vec![1usize, 1, 100];
    let fee = vec![50usize, 50, 1];
    let one = single_batch_upper_bound(startup, &duration, &fee);
    let p = BatchScheduling::new(startup, duration.clone(), fee.clone());
    let opt = p.solve();
    assert!(opt < one, "expected splitting to beat single batch");
    assert_eq!(opt, reference_optimal(startup, &duration, &fee));
}

#[test]
fn ordering_matters_same_aggregate_different_sequence() {
    let startup = 1usize;
    let p_short_heavy_first = BatchScheduling::new(startup, vec![1, 10], vec![10, 1]);
    let p_long_heavy_first = BatchScheduling::new(startup, vec![10, 1], vec![1, 10]);
    assert_eq!(p_short_heavy_first.solve(), 33);
    assert_eq!(p_long_heavy_first.solve(), 132);
    assert_ne!(
        p_short_heavy_first.solve(),
        p_long_heavy_first.solve(),
        "same multiset (t,w) swapped order should change optimum"
    );
}

#[test]
fn zero_startup_favors_more_batches() {
    let startup = 0usize;
    let n = 6usize;
    let duration = vec![1usize; n];
    let fee = vec![1usize; n];
    let p = BatchScheduling::new(startup, duration.clone(), fee.clone());
    let opt = p.solve();
    assert_eq!(opt, n * (n + 1) / 2);
    assert_eq!(opt, reference_optimal(startup, &duration, &fee));
}

#[test]
fn larger_n_deterministic_matches_reference() {
    let startup = 3usize;
    let n = 14usize;
    let duration: Vec<usize> = (0..n).map(|i| (i * 7 + 11) % 9 + 1).collect();
    let fee: Vec<usize> = (0..n).map(|i| (i * 5 + 13) % 12 + 1).collect();
    let p = BatchScheduling::new(startup, duration.clone(), fee.clone());
    assert_eq!(p.solve(), reference_optimal(startup, &duration, &fee));
}

#[test]
fn larger_n_fast_and_le_single_batch_bound() {
    let startup = 4usize;
    let n = 32usize;
    let duration: Vec<usize> = (0..n).map(|i| (i * 13 + 5) % 20 + 1).collect();
    let fee: Vec<usize> = (0..n).map(|i| (i * 11 + 3) % 15 + 1).collect();
    let p = BatchScheduling::new(startup, duration.clone(), fee.clone());
    let opt = p.solve();
    let naive = single_batch_upper_bound(startup, &duration, &fee);
    assert!(opt <= naive);
}

#[test]
fn zero_weights_and_mixed_durations() {
    let startup = 2usize;
    let duration = vec![0usize, 5, 0, 3];
    let fee = vec![100usize, 0, 7, 0];
    let p = BatchScheduling::new(startup, duration.clone(), fee.clone());
    assert_eq!(p.solve(), reference_optimal(startup, &duration, &fee));
}

#[test]
fn brute_matches_dp_exhaustive_grid() {
    for n in 1..=10usize {
        for s in 0..=3usize {
            let duration: Vec<usize> = (0..n).map(|i| (i * 3 + n) % 5).collect();
            let fee: Vec<usize> = (0..n).map(|i| (i + s + n) % 4).collect();
            let p = BatchScheduling::new(s, duration.clone(), fee.clone());
            assert_eq!(p.solve(), reference_optimal(s, &duration, &fee), "n={n} s={s}");
        }
    }
}

#[test]
fn empty_batch_costs_nothing() {
    let p = BatchScheduling::new(7, vec![], vec![]);
    assert_eq!(p.solve(), 0);
}

#[test]
fn knapsack_picks_best_value_within_capacity() {
    let items = vec![
        SimpleKnapsackItem { weight: 3, value: 4 },
        SimpleKnapsackItem { weight: 4, value: 5 },
        SimpleKnapsackItem { weight: 2, value: 3 },
    ];
    let r = simple_knapsack(&items, 6, false);
    let v: usize = r.iter().map(|x| x.value).sum();
    assert_eq!(v, 8);
    let r = simple_knapsack(&items, 8, true);
    assert!(r.is_empty() || r.iter().map(|x| x.weight).sum::<usize>() == 8);
    let r = simple_knapsack(&items, 1, true);
    assert!(r.is_empty());
}

#[test]
fn parse_batch_scheduling_reads_instances() {
    let (p, exp) = parse_batch_scheduling("1\n5\n1 3 4 2 1\n3 2 3 3 4\n").unwrap();
    assert_eq!(exp, 153);
    assert_eq!(p.solve(), 153);
    let (_, exp) = parse_batch_scheduling("  2 \n\n1\n 10 \n7\n99\n").unwrap();
    assert_eq!(exp, 99);
    assert_eq!(parse_batch_scheduling("+3\r\n1\n2\n4").unwrap().1, 20);
    assert!(parse_batch_scheduling("1\n2\n3\n").is_none());
    assert!(parse_batch_scheduling("1\n2\n3 x\n1 1\n").is_none());
    assert!(parse_batch_scheduling("1\n2\n3\n1 1\n").is_none());
    assert!(parse_batch_scheduling("1 2\n1\n3\n1\n").is_none());
}

#[test]
fn batch_solve_checked_agrees_and_reports_overflow() {
    let p = BatchScheduling::new(1, vec![1, 3, 4, 2, 5], vec![3, 2, 3, 3, 4]);
    assert_eq!(p.solve_checked(), Some(p.solve()));
    let big = BatchScheduling::new(0, vec![usize::MAX], vec![2]);
    assert_eq!(big.solve_checked(), None);
    let sums = BatchScheduling::new(0, vec![usize::MAX, 1], vec![0, 0]);
    assert_eq!(sums.solve_checked(), None);
    let large_start = BatchScheduling::new(usize::MAX / 4, vec![1, 1, 1], vec![1, 1, 1]);
    assert_eq!(large_start.solve_checked(), None);
    let moderate = BatchScheduling::new(1000, vec![1, 2, 3], vec![1, 1, 1]);
    assert!(moderate.solve_checked().is_some());
}
