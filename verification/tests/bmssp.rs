use hnu_algo::algorithms::bmssp::const_graph::ConstGraph;
use hnu_algo::algorithms::bmssp::path_dist::PathDist;
use hnu_algo::algorithms::bmssp::BMSSP;
use hnu_algo::algorithms::ssp::dijkstra;

#[test]
fn find_pivots_large_visit_set_returns_whole_frontier_as_pivots() {
    let cg = ConstGraph::new(vec![vec![(1, 1), (2, 1), (3, 1)], vec![], vec![], vec![]]);
    let mut m = BMSSP::new(cg, 0, 1, 1, 2);
    let s = [0u32];
    let (p, w) = m.find_pivots(&s, PathDist::scalar_upper(100));
    assert_eq!(p, vec![0u32]);
    assert!(w.len() >= 4);
}

#[test]
fn find_pivots_one_bf_round_chains_relaxations() {
    let cg = ConstGraph::new(vec![vec![(1, 10), (2, 1)], vec![], vec![(1, 1)]]);
    let mut m = BMSSP::new(cg, 0, 1, 1, 2);
    let s = [0u32];
    let _ = m.find_pivots(&s, PathDist::scalar_upper(100));
    assert_eq!(m.dist(1).dis(), 10);
}

#[test]
fn find_pivots_small_visit_set_picks_large_trees() {
    let cg = ConstGraph::new(vec![vec![(1, 1)], vec![(2, 1)], vec![]]);
    let mut m = BMSSP::new(cg, 0, 2, 1, 1);
    let (p, w) = m.find_pivots(&[0u32], PathDist::scalar_upper(100));
    assert_eq!(w, vec![0, 1, 2]);
    assert_eq!(p, vec![0]);
    assert_eq!(m.fetch_result(), vec![0, 1, 2]);
}

#[test]
fn base_case_takes_k_plus_one_and_cuts_the_largest() {
    let cg = ConstGraph::new(vec![vec![(1, 2), (2, 5)], vec![(2, 1)], vec![]]);
    let mut m = BMSSP::new(cg, 0, 1, 1, 1);
    let r = m.base_case(0, PathDist::scalar_upper(100));
    assert_eq!(r.complete, vec![0]);
    assert_eq!(r.new_boundary.dis(), 2);
}

#[test]
fn base_case_single_vertex_keeps_the_bound() {
    let cg = ConstGraph::new(vec![vec![]]);
    let mut m = BMSSP::new(cg, 0, 1, 1, 1);
    let b = PathDist::scalar_upper(1_000_000);
    let r = m.base_case(0, b);
    assert_eq!(r.new_boundary, b);
    assert_eq!(r.complete, vec![0]);
}

#[test]
fn relax_from_lists_improvements() {
    let cg = ConstGraph::new(vec![vec![(1, 4), (2, 1)], vec![], vec![]]);
    let mut m = BMSSP::new(cg, 0, 1, 1, 1);
    let imp = m.relax_from(0);
    let targets: Vec<u32> = imp.iter().map(|&(v, _)| v).collect();
    assert_eq!(targets, vec![1, 2]);
    assert_eq!(m.fetch_result(), vec![0, 4, 1]);
    assert!(m.relax_from(0).len() == 2);
}

#[test]
fn const_graph_round_trips_its_adjacency() {
    let adj = vec![vec![(1, 3)], vec![(0, 2), (2, 7)], vec![]];
    let g = ConstGraph::new(adj.clone());
    assert_eq!(g.to_adj_list(), adj);
    assert_eq!(g.const_n(), 3);
    assert_eq!(g.orig_n(), 3);
    assert_eq!(g.orig_to_const(2), Some(2));
    assert_eq!(g.const_to_orig(5), None);
}

#[test]
fn transformation_preserves_shortest_paths_on_representatives() {
    let g = vec![
        vec![(1, 2), (2, 5)],
        vec![(2, 1), (3, 4)],
        vec![(3, 1)],
        vec![],
    ];

    let cg = ConstGraph::from_general_graph(&g);
    let s = 0usize;
    let s2 = cg.orig_to_const(s).unwrap();

    let d1 = dijkstra(&g, s);
    let adj_list = cg.to_adj_list();
    let d2 = dijkstra(&adj_list, s2);

    for v in 0..g.len() {
        let rv = cg.orig_to_const(v).unwrap();
        assert_eq!(d2[rv], d1[v], "mismatch on vertex {v}");
    }
}

fn bmssp_from_general_graph(g: Vec<Vec<(usize, usize)>>, source_orig: usize) -> (BMSSP, ConstGraph, u32) {
    let cg = ConstGraph::from_general_graph(&g);
    let source_const = cg
        .orig_to_const(source_orig)
        .expect("source must have a representative in const graph") as u32;
    // With at most two vertices, log2 n <= 1, so k = t = 1 and there is one level.
    (BMSSP::new(cg.clone(), source_const as usize, 1, 1, 1), cg, source_const)
}

#[test]
fn base_case_single_vertex_returns_boundary_b_and_complete_singleton() {
    let (mut m, _cg, s) = bmssp_from_general_graph(vec![vec![]], 0);
    let b = PathDist::scalar_upper(1_000_000);
    let r = m.base_case(s, b);
    assert_eq!(r.new_boundary, b);
    assert_eq!(r.complete, vec![s]);
}

#[test]
fn base_case_unreachable_pop_exhaustion_returns_u0_and_b() {
    let (mut m, _cg, s) = bmssp_from_general_graph(vec![vec![], vec![(1, 1)]], 0);
    let b = PathDist::scalar_upper(1_000_000);
    let r = m.base_case(s, b);
    assert_eq!(r.new_boundary, b);
    assert_eq!(r.complete, vec![s]);
}

#[test]
fn general_graph_rings_and_cross_edges() {
    // 0 -> 1 (weights 7 and 3), 1 -> 0 (weight 2), 2 isolated.
    let g = vec![vec![(1, 7), (1, 3)], vec![(0, 2)], vec![]];
    let cg = ConstGraph::from_general_graph(&g);
    // Ring of 0: (0,1); ring of 1: (1,0); ring of 2: (2,2).
    assert_eq!(cg.const_n(), 3);
    assert_eq!(cg.orig_n(), 3);
    assert_eq!(cg.orig_to_const(0), Some(0));
    assert_eq!(cg.orig_to_const(1), Some(1));
    assert_eq!(cg.orig_to_const(2), Some(2));
    assert_eq!(cg.orig_to_const(3), None);
    assert_eq!(cg.const_to_orig(2), Some(2));
    assert_eq!(cg.to_adj_list(), vec![vec![(1, 3)], vec![(0, 2)], vec![]]);
}

#[test]
fn general_graph_ring_order_follows_neighbours() {
    // 0 -> 2 (5), 1 -> 0 (4): the ring of 0 holds (0,1) then (0,2).
    let g = vec![vec![(2, 5)], vec![(0, 4)], vec![]];
    let cg = ConstGraph::from_general_graph(&g);
    assert_eq!(cg.const_n(), 4);
    assert_eq!(cg.orig_to_const(1), Some(2));
    assert_eq!(cg.orig_to_const(2), Some(3));
    assert_eq!(cg.const_to_orig(1), Some(0));
    assert_eq!(
        cg.to_adj_list(),
        vec![vec![(1, 0)], vec![(0, 0), (3, 5)], vec![(0, 4)], vec![]]
    );
}

#[test]
fn general_graph_degrees_are_at_most_two() {
    let g = vec![
        vec![(1, 3), (2, 1), (3, 7), (3, 2), (0, 5)],
        vec![(0, 1), (2, 2)],
        vec![(3, 4), (1, 1)],
        vec![(0, 9)],
        vec![],
    ];
    let cg = ConstGraph::from_general_graph(&g);
    let adj = cg.to_adj_list();
    let mut indeg = vec![0usize; adj.len()];
    for row in &adj {
        assert!(row.len() <= 2);
        for &(v, _) in row {
            indeg[v] += 1;
        }
    }
    assert!(indeg.iter().all(|&d| d <= 2));
    for x in 0..adj.len() {
        let owner = cg.const_to_orig(x).unwrap();
        assert!(owner < g.len());
    }
}

#[test]
fn general_graph_distances_match_with_loops_and_parallel_edges() {
    let g = vec![
        vec![(1, 3), (2, 1), (3, 7), (3, 2), (0, 5)],
        vec![(0, 1), (2, 2)],
        vec![(3, 4), (1, 1)],
        vec![(0, 9)],
        vec![],
    ];
    let cg = ConstGraph::from_general_graph(&g);
    let adj = cg.to_adj_list();
    for s in 0..g.len() {
        let d1 = dijkstra(&g, s);
        let d2 = dijkstra(&adj, cg.orig_to_const(s).unwrap());
        for v in 0..g.len() {
            assert_eq!(d2[cg.orig_to_const(v).unwrap()], d1[v]);
        }
    }
}

#[test]
fn test_bmssp_simple() {
    let g = vec![vec![(1, 4), (2, 1)], vec![], vec![(1, 2)]];
    let cg = ConstGraph::from_general_graph(&g);
    let source = cg.orig_to_const(0).unwrap();
    // Six vertices: log2 6 = 2.58, so k = 1, t = 1 and three levels.
    let mut bmssp = BMSSP::new(cg.clone(), source, 1, 1, 3);
    bmssp.solve();
    let dist = bmssp.fetch_result();
    let mut actual = vec![u64::MAX; g.len()];
    for v in 0..g.len() {
        let rv = cg.orig_to_const(v).unwrap();
        actual[v] = dist[rv];
    }
    actual[0] = 0;
    assert_eq!(actual, vec![0, 3, 1]);
}

#[test]
fn bmssp_matches_dijkstra_on_representatives() {
    let g = vec![
        vec![(1, 3), (2, 1), (3, 7), (3, 2), (0, 5)],
        vec![(0, 1), (2, 2), (4, 6)],
        vec![(3, 4), (1, 1)],
        vec![(0, 9), (4, 1)],
        vec![],
    ];
    let cg = ConstGraph::from_general_graph(&g);
    for s in 0..g.len() {
        let source = cg.orig_to_const(s).unwrap();
        for &(k, t, top) in &[(1usize, 1usize, 4usize), (2, 2, 2), (1, 2, 3)] {
            let mut m = BMSSP::new(cg.clone(), source, k, t, top);
            assert!(m.solve());
            let dist = m.fetch_result();
            let expected = dijkstra(&g, s);
            for v in 0..g.len() {
                assert_eq!(dist[cg.orig_to_const(v).unwrap()], expected[v], "s={s} v={v} k={k} t={t}");
            }
        }
    }
}
