use hnu_algo::algorithms::ssp::{dijkstra, spfa};

fn sample_graph() -> Vec<Vec<(usize, usize)>> {
    vec![vec![(1, 2), (2, 5)], vec![(2, 1), (3, 4)], vec![(3, 1)], vec![]]
}

#[test]
fn unreachable_nodes_are_max() {
    let graph = vec![vec![(1, 1)], vec![], vec![]];
    let d1 = dijkstra(&graph, 0);
    let d2 = spfa(&graph, 0);
    assert_eq!(d1, vec![0, 1, u64::MAX]);
    assert_eq!(d2, vec![0, 1, u64::MAX]);
}

#[test]
fn out_of_range_source_and_empty_graph() {
    let graph = sample_graph();
    assert_eq!(dijkstra(&graph, 10), vec![u64::MAX; graph.len()]);
    assert_eq!(spfa(&graph, 10), vec![u64::MAX; graph.len()]);

    let empty: Vec<Vec<(usize, usize)>> = vec![];
    assert!(dijkstra(&empty, 0).is_empty());
    assert!(spfa(&empty, 0).is_empty());
}

#[test]
fn sample_graph_distances() {
    let graph = sample_graph();
    assert_eq!(dijkstra(&graph, 0), vec![0, 2, 3, 4]);
    assert_eq!(spfa(&graph, 0), vec![0, 2, 3, 4]);
}

#[test]
fn dijkstra_and_spfa_agree_on_a_small_family() {
    for n in 1..8usize {
        let graph: Vec<Vec<(usize, usize)>> = (0..n)
            .map(|u| (0..n).filter(|v| (u * 3 + v * 5) % 4 == 1).map(|v| (v, (u + 2 * v) % 7)).collect())
            .collect();
        for s in 0..n {
            assert_eq!(dijkstra(&graph, s), spfa(&graph, s), "n={n} s={s}");
        }
    }
}
