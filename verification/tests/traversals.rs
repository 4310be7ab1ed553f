use issundb_core::graph::Graph;
use issundb_core::store::Store;
use issundb_core::tables::Props;

fn open() -> Graph {
    Graph::open(Store::new())
}

fn none() -> Props {
    Props::new()
}

#[test]
fn typed_expand_sees_writes_without_a_snapshot_refresh() {
    let mut g = open();
    let a = g.add_node("person", &none()).unwrap();
    let b = g.add_node("person", &none()).unwrap();
    let e = g.add_edge(a, b, "knows", &none()).unwrap();

    let out = g.expand_bulk(&[a], Some("knows"), false);
    assert_eq!(out, vec![(a, e, b)]);

    let incoming = g.expand_bulk(&[b], Some("knows"), true);
    assert_eq!(incoming, vec![(b, e, a)]);
}

#[test]
fn typed_expand_unknown_type_is_empty() {
    let mut g = open();
    let a = g.add_node("person", &none()).unwrap();
    let b = g.add_node("person", &none()).unwrap();
    g.add_edge(a, b, "knows", &none()).unwrap();

    let out = g.expand_bulk(&[a], Some("likes"), false);
    assert!(out.is_empty());
}

#[test]
fn typed_expand_reads_the_csr_when_fresh() {
    let mut g = open();
    let a = g.add_node("person", &none()).unwrap();
    let b = g.add_node("person", &none()).unwrap();
    let e_ab = g.add_edge(a, b, "knows", &none()).unwrap();
    let e_ab2 = g.add_edge(a, b, "knows", &none()).unwrap();
    let e_aa = g.add_edge(a, a, "knows", &none()).unwrap();
    g.add_edge(a, b, "likes", &none()).unwrap();
    g.rebuild_csr();

    let out = g.expand_bulk(&[a], Some("knows"), false);
    assert_eq!(out, vec![(a, e_ab, b), (a, e_ab2, b), (a, e_aa, a)]);

    let incoming = g.expand_bulk(&[b], Some("knows"), true);
    assert_eq!(incoming, vec![(b, e_ab, a), (b, e_ab2, a)]);
}

#[test]
fn bulk_typed_expand_over_a_stale_snapshot_refreshes_it() {
    let mut g = open();
    let mut nodes = Vec::new();
    for _ in 0..66 {
        nodes.push(g.add_node("person", &none()).unwrap());
    }
    let mut expected = Vec::new();
    for w in nodes.windows(2) {
        let e = g.add_edge(w[0], w[1], "knows", &none()).unwrap();
        expected.push((w[0], e, w[1]));
    }
    assert!(g.snapshot_is_stale());

    let out = g.expand_bulk(&nodes, Some("knows"), false);
    assert_eq!(out, expected);
    assert!(
        !g.snapshot_is_stale(),
        "a bulk typed expansion refreshes the snapshot"
    );
}

#[test]
fn stale_point_expand_skips_the_snapshot_rebuild() {
    let mut g = open();
    let a = g.add_node("person", &none()).unwrap();
    let b = g.add_node("person", &none()).unwrap();
    let e = g.add_edge(a, b, "knows", &none()).unwrap();
    assert!(g.snapshot_is_stale());

    let out = g.expand_bulk(&[a], Some("knows"), false);
    assert_eq!(out, vec![(a, e, b)]);
    assert!(g.snapshot_is_stale());
}

#[test]
fn a_traversal_after_a_bulk_expansion_refresh_sees_every_write() {
    let mut g = open();
    let mut nodes = Vec::new();
    for _ in 0..66 {
        nodes.push(g.add_node("person", &none()).unwrap());
    }
    for w in nodes.windows(2) {
        g.add_edge(w[0], w[1], "knows", &none()).unwrap();
    }

    g.expand_bulk(&nodes, Some("knows"), false);
    assert!(!g.snapshot_is_stale());

    let reached = g.dfs(nodes[0], 1);
    assert_eq!(reached, vec![nodes[0], nodes[1]]);
}

#[test]
fn untyped_expand_preserves_parallel_edges_and_multiple_types() {
    let mut g = open();
    let a = g.add_node("person", &none()).unwrap();
    let b = g.add_node("person", &none()).unwrap();
    let e_ab = g.add_edge(a, b, "knows", &none()).unwrap();
    let e_ab2 = g.add_edge(a, b, "knows", &none()).unwrap();
    let e_likes = g.add_edge(a, b, "likes", &none()).unwrap();
    g.rebuild_csr();

    let out = g.expand_bulk(&[a], None, false);
    assert_eq!(out, vec![(a, e_ab, b), (a, e_ab2, b), (a, e_likes, b)]);
}

#[test]
fn bfs_unknown_start_is_empty() {
    let mut g = open();
    let a = g.add_node("person", &none()).unwrap();
    let b = g.add_node("person", &none()).unwrap();
    g.add_edge(a, b, "knows", &none()).unwrap();
    g.rebuild_csr();

    let out = g.bfs(999_999, 2);
    assert!(out.is_empty());
}

#[test]
fn multi_source_bfs_caps_the_frontier_and_reports_truncation() {
    let mut g = open();
    let hub = g.add_node("N", &none()).unwrap();
    let leaves: Vec<_> = (0..4).map(|_| g.add_node("N", &none()).unwrap()).collect();
    for &leaf in &leaves {
        g.add_edge(hub, leaf, "E", &none()).unwrap();
    }
    g.rebuild_csr();

    let (nodes, truncated) = g.bfs_multi_source(&[hub], 1, Some(3));
    assert_eq!(nodes, vec![hub, leaves[0], leaves[1]]);
    assert!(truncated, "two reachable leaves were cut off");

    let (all, truncated) = g.bfs_multi_source(&[hub], 1, Some(5));
    assert_eq!(all.len(), 5);
    assert!(!truncated);
}

#[test]
fn multi_source_bfs_counts_a_duplicate_seed_once() {
    let mut g = open();
    let a = g.add_node("N", &none()).unwrap();
    let b = g.add_node("N", &none()).unwrap();
    g.add_edge(a, b, "E", &none()).unwrap();
    g.rebuild_csr();

    let (nodes, truncated) = g.bfs_multi_source(&[a, a, a], 1, Some(2));
    assert_eq!(nodes, vec![a, b]);
    assert!(!truncated);
}

#[test]
fn typed_expand_sees_writes_without_matrix_refresh() {
    let mut g = open();
    let a = g.add_node("person", &none()).unwrap();
    let b = g.add_node("person", &none()).unwrap();
    let e = g.add_edge(a, b, "knows", &none()).unwrap();

    let out = g.expand_bulk(&[a], Some("knows"), false);
    assert_eq!(out, vec![(a, e, b)]);

    let incoming = g.expand_bulk(&[b], Some("knows"), true);
    assert_eq!(incoming, vec![(b, e, a)]);
}

#[test]
fn hybrid_consumers_stay_fresh_after_a_snapshot_only_refresh() {
    let mut g = open();
    let mut nodes = Vec::new();
    for _ in 0..66 {
        nodes.push(g.add_node("person", &none()).unwrap());
    }
    for w in nodes.windows(2) {
        g.add_edge(w[0], w[1], "knows", &none()).unwrap();
    }

    g.expand_bulk(&nodes, Some("knows"), false);
    assert!(!g.snapshot_is_stale());

    let reached = g.dfs(nodes[0], 1);
    assert_eq!(reached, vec![nodes[0], nodes[1]]);
}

#[test]
fn bfs_graphblas_unknown_start_is_empty() {
    let mut g = open();
    let a = g.add_node("person", &none()).unwrap();
    let b = g.add_node("person", &none()).unwrap();
    g.add_edge(a, b, "knows", &none()).unwrap();
    g.rebuild_csr();

    let out = g.bfs(999_999, 2);
    assert!(out.is_empty());
}
