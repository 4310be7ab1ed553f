use issundb_core::csr::{CsrSnapshot, EdgeRow};
use issundb_core::depth_first::detect_cycle;
use issundb_core::graph::Graph;
use issundb_core::louvain::LouvainLevel;
use issundb_core::scc::strongly_connected_components;
use issundb_core::schema::{GroupedDegreeSpec, NodeId};
use issundb_core::store::Store;
use issundb_core::tables::Props;
use issundb_core::traversal::hop_distances;
use issundb_core::value::PropValue;

fn none() -> Props {
    Props::new()
}

fn graph(n: usize, edges: &[(usize, usize)]) -> (Graph, Vec<NodeId>) {
    let mut g = Graph::open(Store::new());
    let ids: Vec<NodeId> = (0..n).map(|_| g.add_node("N", &none()).unwrap()).collect();
    for &(a, b) in edges {
        g.add_edge(ids[a], ids[b], "E", &none()).unwrap();
    }
    (g, ids)
}

#[test]
fn all_simple_paths_are_found() {
    let (mut g, n) = graph(4, &[(0, 1), (1, 2), (2, 1), (0, 2), (2, 3), (1, 3)]);
    let mut paths = g.all_paths(n[0], n[3]);
    paths.sort();
    assert_eq!(
        paths,
        vec![
            vec![n[0], n[1], n[2], n[3]],
            vec![n[0], n[1], n[3]],
            vec![n[0], n[2], n[1], n[3]],
            vec![n[0], n[2], n[3]],
        ]
    );
    assert_eq!(g.longest_path(n[0], n[3]).unwrap().len(), 4);
    assert_eq!(g.longest_path(n[3], n[0]), None);
    assert_eq!(g.shortest_path(n[0], n[3]).unwrap().len(), 3);
    assert_eq!(g.all_shortest_paths(n[0], n[3]).len(), 2);
    assert_eq!(g.shortest_path(n[3], n[0]), None);
    assert_eq!(g.shortest_path(n[1], n[1]), Some(vec![n[1]]));
}

#[test]
fn a_search_reaches_what_the_hops_allow() {
    let (mut g, n) = graph(5, &[(0, 1), (1, 2), (2, 3), (0, 3), (3, 4)]);
    assert_eq!(g.bfs(n[0], 0), vec![n[0]]);
    let mut near = g.bfs(n[0], 1);
    near.sort();
    assert_eq!(near, vec![n[0], n[1], n[3]]);
    let mut reached = g.dfs(n[0], 2);
    reached.sort();
    assert_eq!(reached, n);
}

#[test]
fn a_cycle_is_detected() {
    let (mut g, n) = graph(3, &[(0, 1), (1, 2), (0, 2)]);
    assert!(!g.detect_cycle());
    g.add_edge(n[2], n[0], "E", &none()).unwrap();
    assert!(g.detect_cycle());
    let (mut looped, _) = graph(1, &[(0, 0)]);
    assert!(looped.detect_cycle());
}

#[test]
fn grouped_counts_follow_the_filter() {
    let mut g = Graph::open(Store::new());
    let mut tagged = Props::new();
    tagged.set("tag", PropValue::Bool(true));
    let a = g.add_node("A", &none()).unwrap();
    let b = g.add_node("B", &tagged).unwrap();
    let c = g.add_node("B", &none()).unwrap();
    for (s, d) in [(a, b), (a, c), (a, c), (c, b), (b, a)] {
        g.add_edge(s, d, "E", &none()).unwrap();
    }
    let mut spec = GroupedDegreeSpec {
        rel_type: Some("E"),
        group_is_dst: false,
        group_label: None,
        counted_label: Some("B"),
        counted_allow: None,
        counted_nonnull_prop: None,
    };
    assert_eq!(g.grouped_edge_counts(&spec), vec![(a, 3), (c, 1)]);
    spec.counted_nonnull_prop = Some("tag");
    assert_eq!(g.grouped_edge_counts(&spec), vec![(a, 1), (c, 1)]);
    spec.group_is_dst = true;
    spec.counted_nonnull_prop = None;
    assert_eq!(g.grouped_edge_counts(&spec), vec![(a, 1), (b, 1)]);
    let allow = [b];
    spec.counted_allow = Some(&allow);
    assert_eq!(g.grouped_edge_counts(&spec), vec![(a, 1)]);
}

#[test]
fn distances_are_counted() {
    let (mut g, n) = graph(4, &[(0, 1), (0, 2), (1, 3), (2, 3)]);
    assert_eq!(g.distance_counts(), vec![vec![1, 2, 1], vec![1, 1], vec![1, 1], vec![1]]);
    let dag = g.shortest_paths_from(n[0]).unwrap();
    assert_eq!(dag.levels, vec![0, 1, 1, 2]);
    assert_eq!(dag.sigma, vec![1, 1, 1, 2]);
    assert_eq!(dag.pred[3], vec![1, 2]);
    assert!(g.shortest_paths_from(9).is_none());
}

#[test]
fn a_clique_and_a_tail_propagate_to_one_label() {
    let (mut g, n) = graph(4, &[(0, 1), (1, 2), (2, 0), (2, 3)]);
    let labels = g.label_propagation(10);
    for id in &n {
        assert_eq!(labels[id], n[0]);
    }
    let untouched = g.label_propagation(0);
    for id in &n {
        assert_eq!(untouched[id], *id);
    }
}

#[test]
fn the_counted_shortest_paths_are_the_listed_ones() {
    let (mut g, n) = graph(6, &[(0, 1), (0, 2), (0, 2), (1, 3), (2, 3), (2, 4), (3, 5), (4, 5)]);
    let dag = g.shortest_paths_from(n[0]).unwrap();
    for (d, id) in n.iter().enumerate().skip(1) {
        assert_eq!(dag.sigma[d] as usize, g.all_shortest_paths(n[0], *id).len(), "{id}");
    }
    assert_eq!(dag.sigma[5], 3);
}

#[test]
fn of_equally_short_paths_the_earliest_edge_decides() {
    let (mut g, n) = graph(4, &[(0, 1), (0, 2), (2, 3), (1, 3)]);
    assert_eq!(g.shortest_path(n[0], n[3]), Some(vec![n[0], n[2], n[3]]));
    g.rebuild_csr();
    assert_eq!(g.shortest_path(n[0], n[3]), Some(vec![n[0], n[2], n[3]]));
    let mut all = g.all_shortest_paths(n[0], n[3]);
    all.sort();
    assert_eq!(all, vec![vec![n[0], n[1], n[3]], vec![n[0], n[2], n[3]]]);
}

fn snapshot(n: usize, edges: &[(u64, u64)]) -> CsrSnapshot {
    let ids: Vec<u64> = (0..n).map(|d| d as u64 + 10).collect();
    let rows: Vec<EdgeRow> = edges
        .iter()
        .enumerate()
        .map(|(i, &(a, b))| EdgeRow { id: i as u64, src: a + 10, dst: b + 10, edge_type: 1 })
        .collect();
    CsrSnapshot::build(&ids, &rows)
}

#[test]
fn a_search_records_nothing_beyond_its_stop() {
    let far = u32::MAX;
    let one = snapshot(2, &[(0, 1)]);
    assert_eq!(one.row_ptr, vec![0, 1, 1]);
    assert_eq!(one.col_idx, vec![1]);
    assert_eq!(hop_distances(&one, 0, Some(0)), vec![0, far]);
    assert_eq!(hop_distances(&one, 0, Some(1)), vec![0, 1]);
    assert_eq!(hop_distances(&one, 0, None), vec![0, 1]);
    assert_eq!(hop_distances(&one, 1, Some(0)), vec![far, 0]);

    let row = snapshot(6, &[(0, 1), (0, 2), (1, 3), (2, 3), (3, 4), (4, 5), (5, 0)]);
    assert_eq!(hop_distances(&row, 0, None), vec![0, 1, 1, 2, 3, 4]);
    assert_eq!(hop_distances(&row, 0, Some(0)), vec![0, far, far, far, far, far]);
    assert_eq!(hop_distances(&row, 0, Some(1)), vec![0, 1, 1, far, far, far]);
    assert_eq!(hop_distances(&row, 0, Some(3)), vec![0, 1, 1, 2, far, far]);
    assert_eq!(hop_distances(&row, 0, Some(5)), vec![0, 1, 1, 2, 3, 4]);
}

#[test]
fn components_are_numbered_as_the_search_finishes_them() {
    let (mut g, n) = graph(3, &[]);
    let alone = g.strongly_connected_components();
    assert_eq!((alone[&n[0]], alone[&n[1]], alone[&n[2]]), (0, 1, 2));

    let (mut g, n) = graph(4, &[(0, 2), (0, 1), (3, 1)]);
    let forked = g.strongly_connected_components();
    assert_eq!(
        (forked[&n[0]], forked[&n[1]], forked[&n[2]], forked[&n[3]]),
        (2, 1, 0, 3)
    );

    let (mut g, n) = graph(5, &[(0, 1), (1, 2), (2, 0), (1, 3), (4, 3)]);
    let ring = g.strongly_connected_components();
    assert_eq!(ring[&n[3]], 0);
    assert_eq!((ring[&n[0]], ring[&n[1]], ring[&n[2]]), (1, 1, 1));
    assert_eq!(ring[&n[4]], 2);
}

#[test]
fn long_chains_are_searched_without_deep_calls() {
    let n: usize = 60_000;
    let chain: Vec<(u64, u64)> = (1..n as u64).map(|v| (v - 1, v)).collect();
    let open = snapshot(n, &chain);
    assert!(!detect_cycle(&open));
    let parts = strongly_connected_components(&open);
    assert_eq!((parts[0], parts[n - 1]), (n as u64 - 1, 0));
    let mut ring = chain;
    ring.push((n as u64 - 1, 0));
    let closed = snapshot(n, &ring);
    assert!(detect_cycle(&closed));
    assert!(strongly_connected_components(&closed).iter().all(|&c| c == 0));
}

#[test]
fn a_group_for_which_nothing_counts_is_left_out() {
    let mut g = Graph::open(Store::new());
    let mut valued = Props::new();
    valued.set("k", PropValue::Int(1));
    let a = g.add_node("P", &none()).unwrap();
    let b = g.add_node("P", &valued).unwrap();
    g.add_edge(a, b, "F", &none()).unwrap();
    g.add_edge(b, a, "F", &none()).unwrap();
    let mut spec = GroupedDegreeSpec {
        rel_type: Some("F"),
        group_is_dst: false,
        group_label: None,
        counted_label: None,
        counted_allow: None,
        counted_nonnull_prop: Some("k"),
    };
    assert_eq!(g.grouped_edge_counts(&spec), vec![(a, 1)]);
    spec.group_is_dst = true;
    assert_eq!(g.grouped_edge_counts(&spec), vec![(a, 1)]);
    spec.counted_nonnull_prop = Some("absent");
    assert!(g.grouped_edge_counts(&spec).is_empty());
    spec.counted_nonnull_prop = None;
    assert_eq!(g.grouped_edge_counts(&spec), vec![(a, 1), (b, 1)]);
}

#[test]
fn groups_become_nodes_with_ascending_rows() {
    let snap = snapshot(4, &[(0, 3), (0, 1), (2, 1), (0, 2)]);
    let level = LouvainLevel::from_snapshot(&snap);
    assert_eq!(level.links[0], vec![(1, 1), (2, 1), (3, 1)]);
    let (coarse, group) = level.coarsen(&vec![3, 0, 3, 1]);
    assert_eq!(group, vec![0, 1, 0, 2]);
    assert_eq!(coarse.links, vec![vec![(1, 2), (2, 1)], vec![(0, 2)], vec![(0, 1)]]);
    assert_eq!(coarse.self_weight, vec![2, 0, 0]);
    assert_eq!(coarse.degree, vec![5, 2, 1]);
    assert_eq!(coarse.total, 8);
}
