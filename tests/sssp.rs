use templates::sssp::dijkstra_sssp;

#[test]
fn sssp_test_qpow() {
    let graph = vec![
        vec![],
        vec![(3, 2), (4, 3)],
        vec![(1, 2), (4, 1)],
        vec![(1, 2), (4, 100)],
        vec![(3, 1), (2, 1)],
    ];
    let dis = dijkstra_sssp(graph, 1);
    assert_eq!(dis, vec![9223372036854775807_i64, 0, 4, 2, 3]);
}

#[test]
fn sssp_single_node() {
    let dis = dijkstra_sssp(vec![vec![]], 0);
    assert_eq!(dis, vec![0]);
}

#[test]
fn sssp_prefers_cheaper_longer_path() {
    let graph = vec![vec![(1, 10), (2, 1)], vec![], vec![(1, 2)], vec![(0, 1)]];
    let dis = dijkstra_sssp(graph, 0);
    assert_eq!(dis, vec![0, 3, 1, i64::MAX]);
}

#[test]
fn sssp_zero_weights_and_self_loops() {
    let graph = vec![vec![(0, 0), (1, 0)], vec![(1, 5), (2, 0)], vec![(0, 7)]];
    let dis = dijkstra_sssp(graph, 0);
    assert_eq!(dis, vec![0, 0, 0]);
}
