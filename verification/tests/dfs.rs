use hnu_algo::algorithms::dfs::sfd::{max_sfd_size, pack_word, unpack_word};
use hnu_algo::algorithms::dfs::simple_knapsack::simple_knapsack_backtracking;
use hnu_algo::algorithms::dfs::vertex_cover::{VertexCoverSolution, WeightedVertexCover};
use hnu_algo::algorithms::dp::{simple_knapsack, SimpleKnapsackItem};

fn overlap_ids_naive(a: usize, b: usize, n: usize, k: usize) -> Vec<usize> {
    let xa = unpack_word(a, n, k);
    let xb = unpack_word(b, n, k);
    let mut out = Vec::with_capacity(k.saturating_sub(1));
    for r in 1..k {
        let mut sym = Vec::with_capacity(k);
        sym.extend_from_slice(&xa[r..k]);
        sym.extend_from_slice(&xb[0..r]);
        out.push(pack_word(&sym, n));
    }
    out
}

fn is_separator_free_subset(ids: &[usize], n: usize, k: usize, total: usize) -> bool {
    let mut in_s = vec![false; total];
    for &id in ids {
        in_s[id] = true;
    }
    for &x in ids {
        for &y in ids {
            for o in overlap_ids_naive(x, y, n, k) {
                if in_s[o] {
                    return false;
                }
            }
        }
    }
    true
}

fn max_sfd_bruteforce(n: usize, k: usize) -> usize {
    let total = n.pow(k as u32);
    assert!(total <= 14, "bruteforce only for tiny universes");
    let mut best = 0usize;
    for mask in 0usize..(1usize << total) {
        let mut ids = Vec::new();
        for i in 0..total {
            if (mask >> i) & 1 != 0 {
                ids.push(i);
            }
        }
        if is_separator_free_subset(&ids, n, k, total) {
            best = best.max(ids.len());
        }
    }
    best
}

#[test]
fn bruteforce_matches_implementation_small_grid() {
    for n in 1usize..=3 {
        for k in 1usize..=3 {
            let total = n.pow(k as u32);
            if total <= 14 {
                let a = max_sfd_size(n, k);
                let b = max_sfd_bruteforce(n, k);
                assert_eq!(a, b, "n={n} k={k} total={total}");
            }
        }
    }
}

#[test]
fn n3_k2_max_is_three() {
    assert_eq!(max_sfd_size(3, 2), 3);
    assert_eq!(max_sfd_bruteforce(3, 2), 3);
}

#[test]
fn k1_any_subset_is_valid_max_is_n() {
    for n in 1..=7 {
        assert_eq!(max_sfd_size(n, 1), n);
        assert_eq!(max_sfd_bruteforce(n, 1), n);
    }
}

#[test]
fn n1_alphabet_edge_cases() {
    assert_eq!(max_sfd_size(1, 1), 1);
    for k in 2..=6 {
        assert_eq!(max_sfd_size(1, k), 0);
    }
}

#[test]
fn n2_k3_bruteforce_agrees() {
    assert_eq!(max_sfd_size(2, 3), max_sfd_bruteforce(2, 3));
}

#[test]
fn overlap_known_instance_n2_k2() {
    let n = 2;
    let k = 2;
    assert_eq!(overlap_ids_naive(0, 3, n, k), vec![1]);
    assert_eq!(overlap_ids_naive(3, 0, n, k), vec![2]);
}

#[test]
fn pack_unpack_roundtrip() {
    let n: usize = 3;
    let k: usize = 4;
    for id in 0..n.pow(k as u32) {
        let w = unpack_word(id, n, k);
        assert_eq!(pack_word(&w, n), id);
    }
}

#[test]
fn n2_k2_max_is_1() {
    assert_eq!(max_sfd_size(2, 2), 1);
}

#[test]
fn singleton_always_ok() {
    assert!(max_sfd_size(3, 3) >= 1);
}

#[test]
fn empty_alphabet_or_length_gives_zero() {
    assert_eq!(max_sfd_size(0, 3), 0);
    assert_eq!(max_sfd_size(4, 0), 0);
}

#[test]
fn pack_word_reads_symbols_as_digits() {
    assert_eq!(pack_word(&[1, 0, 2], 3), 11);
    assert_eq!(unpack_word(11, 3, 3), vec![1, 0, 2]);
}

#[test]
fn matches_dp_small_random() {
    for n in 1..=12 {
        let items: Vec<_> = (0..n)
            .map(|i| SimpleKnapsackItem {
                weight: (i * 3 + 7) % 15 + 1,
                value: (i * 5 + 11) % 20 + 1,
            })
            .collect();
        for cap in 0..=50 {
            let r1 = simple_knapsack(&items, cap, false);
            let r2 = simple_knapsack_backtracking(&items, cap, false);
            let v1: usize = r1.iter().map(|x| x.value).sum();
            let v2: usize = r2.iter().map(|x| x.value).sum();
            assert_eq!(v1, v2, "n={n} cap={cap}");
        }
    }
}

#[test]
fn force_full_matches() {
    let items = vec![
        SimpleKnapsackItem { weight: 2, value: 1 },
        SimpleKnapsackItem { weight: 4, value: 999 },
        SimpleKnapsackItem { weight: 3, value: 2 },
    ];
    assert_eq!(
        simple_knapsack_backtracking(&items, 5, true),
        simple_knapsack(&items, 5, true)
    );
}

#[test]
fn solvers_agree_in_force_full_mode() {
    for n in 1..=8 {
        let items: Vec<_> = (0..n)
            .map(|i| SimpleKnapsackItem {
                weight: (i * 5 + 3) % 7 + 1,
                value: (i * 7 + 2) % 9,
            })
            .collect();
        for cap in 0..=20 {
            let r1 = simple_knapsack(&items, cap, true);
            let r2 = simple_knapsack_backtracking(&items, cap, true);
            let v1: usize = r1.iter().map(|x| x.value).sum();
            let v2: usize = r2.iter().map(|x| x.value).sum();
            assert_eq!(v1, v2, "n={n} cap={cap}");
        }
    }
}

#[test]
fn force_full_fills_even_when_the_fill_is_worth_nothing() {
    let items = vec![SimpleKnapsackItem { weight: 3, value: 0 }, SimpleKnapsackItem { weight: 4, value: 5 }];
    assert_eq!(simple_knapsack_backtracking(&items, 3, true), vec![&items[0]]);
    assert!(simple_knapsack_backtracking(&items, 2, true).is_empty());
    assert_eq!(simple_knapsack_backtracking(&items, 4, true), vec![&items[1]]);
    let single = vec![SimpleKnapsackItem { weight: 5, value: 0 }];
    assert_eq!(simple_knapsack_backtracking(&single, 5, true), vec![&single[0]]);
    assert_eq!(simple_knapsack(&single, 5, true), vec![&single[0]]);
}

fn min_vertex_cover_bruteforce(n: usize, edges: &[(usize, usize)], weight: &[u64]) -> u128 {
    assert_eq!(weight.len(), n);
    assert!(n <= 20, "bruteforce n too large");
    let mut best = u128::MAX;
    for mask in 0usize..(1usize << n) {
        let mut ok = true;
        for &(u, v) in edges {
            if (mask >> u) & 1 == 0 && (mask >> v) & 1 == 0 {
                ok = false;
                break;
            }
        }
        if !ok {
            continue;
        }
        let mut sum = 0u128;
        for i in 0..n {
            if (mask >> i) & 1 != 0 {
                sum += u128::from(weight[i]);
            }
        }
        best = best.min(sum);
    }
    best
}

fn assert_is_vertex_cover(n: usize, edges: &[(usize, usize)], vertices: &[usize]) {
    let mut in_cov = vec![false; n];
    for &v in vertices {
        assert!(v < n);
        in_cov[v] = true;
    }
    for &(u, v) in edges {
        assert!(in_cov[u] || in_cov[v], "edge ({u},{v}) not covered by {:?}", vertices);
    }
}

fn assert_solution_consistent(n: usize, edges: &[(usize, usize)], weight: &[u64], sol: &VertexCoverSolution) {
    assert_is_vertex_cover(n, edges, &sol.vertices);
    let sum: u128 = sol.vertices.iter().map(|&i| u128::from(weight[i])).sum();
    assert_eq!(sol.total_weight, sum);
}

#[test]
fn single_edge_picks_cheaper_endpoint() {
    let n = 2;
    let edges = vec![(0, 1)];
    let w = vec![4, 7];
    let g = WeightedVertexCover::new(n, edges.clone(), w.clone());
    let sol = g.min_weight_vertex_cover_branch_bound();
    assert_eq!(sol.total_weight, 4);
    assert_eq!(sol.vertices, vec![0]);
    assert_solution_consistent(n, &edges, &w, &sol);
}

#[test]
fn triangle() {
    let n = 3;
    let edges = vec![(0, 1), (1, 2), (0, 2)];
    let w = vec![1, 1, 1];
    let g = WeightedVertexCover::new(n, edges.clone(), w.clone());
    let sol = g.min_weight_vertex_cover_branch_bound();
    assert_eq!(sol.total_weight, 2);
    assert_eq!(sol.vertices.len(), 2);
    assert_solution_consistent(n, &edges, &w, &sol);
}

#[test]
fn no_edges() {
    let g = WeightedVertexCover::new(3, vec![], vec![5, 6, 7]);
    let sol = g.min_weight_vertex_cover_branch_bound();
    assert_eq!(sol.total_weight, 0);
    assert!(sol.vertices.is_empty());
}

#[test]
fn complete_graph_uniform_weight() {
    let n = 6;
    let mut edges = Vec::new();
    for u in 0..n {
        for v in (u + 1)..n {
            edges.push((u, v));
        }
    }
    let w = vec![1u64; n];
    let g = WeightedVertexCover::new(n, edges.clone(), w.clone());
    let sol = g.min_weight_vertex_cover_branch_bound();
    assert_eq!(sol.total_weight, 5);
    assert_solution_consistent(n, &edges, &w, &sol);
}

#[test]
fn star_prefers_leaves_when_cheaper() {
    let n = 8;
    let edges: Vec<_> = (1..n).map(|i| (0, i)).collect();
    let mut w = vec![1u64; n];
    w[0] = 100;
    let g = WeightedVertexCover::new(n, edges.clone(), w.clone());
    let sol = g.min_weight_vertex_cover_branch_bound();
    assert_eq!(sol.total_weight, 7);
    assert_solution_consistent(n, &edges, &w, &sol);
}

#[test]
fn star_prefers_center_when_cheaper() {
    let n = 7;
    let edges: Vec<_> = (1..n).map(|i| (0, i)).collect();
    let mut w = vec![1u64; n];
    w[0] = 3;
    let g = WeightedVertexCover::new(n, edges.clone(), w.clone());
    let sol = g.min_weight_vertex_cover_branch_bound();
    assert_eq!(sol.total_weight, 3);
    assert_solution_consistent(n, &edges, &w, &sol);
}

#[test]
fn odd_cycle_c7_uniform() {
    let n = 7;
    let edges: Vec<_> = (0..n).map(|i| (i, (i + 1) % n)).collect();
    let w = vec![1u64; n];
    let brute = min_vertex_cover_bruteforce(n, &edges, &w);
    let g = WeightedVertexCover::new(n, edges.clone(), w.clone());
    let sol = g.min_weight_vertex_cover_branch_bound();
    assert_eq!(sol.total_weight, brute);
    assert_eq!(sol.total_weight, 4);
    assert_solution_consistent(n, &edges, &w, &sol);
}

#[test]
fn grid_2x3_dense_weights() {
    let n = 6;
    let edges = vec![(0, 1), (1, 2), (3, 4), (4, 5), (0, 3), (1, 4), (2, 5)];
    let w = vec![4, 9, 2, 7, 3, 8];
    let brute = min_vertex_cover_bruteforce(n, &edges, &w);
    let g = WeightedVertexCover::new(n, edges.clone(), w.clone());
    let sol = g.min_weight_vertex_cover_branch_bound();
    assert_eq!(sol.total_weight, brute);
    assert_solution_consistent(n, &edges, &w, &sol);
}

#[test]
fn random_small_graphs_match_bruteforce() {
    let mut state = 0x9E37_79B9_7F4A_7C15_u64;
    for _ in 0..80 {
        state = state.wrapping_mul(6364136223846793005).wrapping_add(1);
        let n = 2 + (state % 11) as usize;
        let p_edge = ((state >> 8) % 100) as usize;
        let mut edges = Vec::new();
        for u in 0..n {
            for v in (u + 1)..n {
                state = state.wrapping_mul(6364136223846793005).wrapping_add(1);
                if (state % 100) < p_edge as u64 {
                    edges.push((u, v));
                }
            }
        }
        let mut weight = vec![0u64; n];
        for i in 0..n {
            state = state.wrapping_mul(6364136223846793005).wrapping_add(1);
            weight[i] = 1 + (state % 30) as u64;
        }
        let brute = min_vertex_cover_bruteforce(n, &edges, &weight);
        let g = WeightedVertexCover::new(n, edges.clone(), weight.clone());
        let sol = g.min_weight_vertex_cover_branch_bound();
        assert_eq!(sol.total_weight, brute, "n={n} p={p_edge} |E|={} w={weight:?}", edges.len());
        assert_solution_consistent(n, &edges, &weight, &sol);
    }
}

#[test]
fn matches_bruteforce_small_instances() {
    let cases: Vec<(usize, Vec<(usize, usize)>, Vec<u64>)> = vec![
        (1, vec![], vec![9]),
        (2, vec![(0, 1)], vec![3, 5]),
        (4, vec![(0, 1), (1, 2), (2, 3)], vec![2, 4, 1, 3]),
        (4, vec![(0, 1), (0, 2), (1, 3), (2, 3)], vec![5, 2, 2, 5]),
    ];
    for (n, edges, w) in cases {
        let g = WeightedVertexCover::new(n, edges.clone(), w.clone());
        let sol = g.min_weight_vertex_cover_branch_bound();
        let brute = min_vertex_cover_bruteforce(n, &edges, &w);
        assert_eq!(sol.total_weight, brute, "n={n} e={edges:?}");
        if !edges.is_empty() || !sol.vertices.is_empty() {
            assert_solution_consistent(n, &edges, &w, &sol);
        } else {
            assert_eq!(sol.total_weight, 0);
            assert!(sol.vertices.is_empty());
        }
    }
}
