use issundb_core::error::Error;
use issundb_core::graph::Graph;
use issundb_core::schema::{DegreeDirection, GroupedDegreeSpec, NodeId, PathCountSpec, TriangleCountSpec};
use issundb_core::store::Store;
use issundb_core::tables::Props;
use issundb_core::value::PropValue;
use std::collections::{BTreeMap, HashMap};

fn open() -> Graph {
    Graph::open(Store::new())
}

fn props(entries: Vec<(&str, PropValue)>) -> Props {
    let mut out = Props::new();
    for (name, value) in entries {
        out.set(name, value);
    }
    out
}

fn reopen(g: &Graph) -> Graph {
    Graph::open(g.store.copy())
}

fn canonical_partition(cc: &HashMap<NodeId, u64>) -> BTreeMap<NodeId, NodeId> {
    let mut groups: HashMap<u64, Vec<NodeId>> = HashMap::new();
    for (&node, &comp) in cc {
        groups.entry(comp).or_default().push(node);
    }
    let mut out = BTreeMap::new();
    for members in groups.into_values() {
        let rep = *members.iter().min().unwrap();
        for n in members {
            out.insert(n, rep);
        }
    }
    out
}

fn triangle_and_chain() -> (Graph, Vec<NodeId>) {
    let mut g = open();
    let ids: Vec<NodeId> = (0..6)
        .map(|i| g.add_node("Person", &props(vec![("n", PropValue::Int(i))])).unwrap())
        .collect();
    for &(s, d) in &[(0, 1), (1, 2), (2, 0), (3, 4), (4, 5)] {
        g.add_edge(ids[s], ids[d], "FOLLOWS", &props(vec![])).unwrap();
    }
    (reopen(&g), ids)
}

fn one_hop() -> PathCountSpec<'static> {
    PathCountSpec {
        rel_types: vec![Some("FOLLOWS")],
        labels: vec![Some("Person"), Some("Person")],
        vertex_allow: Vec::new(),
    }
}

fn two_hop() -> PathCountSpec<'static> {
    PathCountSpec {
        rel_types: vec![Some("FOLLOWS"), Some("FOLLOWS")],
        labels: vec![Some("Person"); 3],
        vertex_allow: Vec::new(),
    }
}

fn ring_and_chord() -> (Graph, Vec<NodeId>) {
    let mut g = open();
    let ids: Vec<NodeId> = (0..80)
        .map(|i| g.add_node("Person", &props(vec![("n", PropValue::Int(i))])).unwrap())
        .collect();
    for i in 0..ids.len() {
        g.add_edge(ids[i], ids[(i + 1) % ids.len()], "FOLLOWS", &props(vec![])).unwrap();
    }
    g.add_edge(ids[0], ids[40], "LIKES", &props(vec![])).unwrap();
    g.bfs(ids[0], 2);
    (g, ids)
}

#[test]
fn count_kernels_serve_from_the_snapshot_without_materializing_matrices() {
    let (seeded, _ids) = triangle_and_chain();
    assert_eq!(reopen(&seeded).count_linear_paths(&one_hop()), 5);
    assert_eq!(reopen(&seeded).count_linear_paths(&two_hop()), 4);
    let triangles = TriangleCountSpec {
        rel_types: [Some("FOLLOWS"); 3],
        labels: [Some("Person"); 3],
    };
    assert_eq!(reopen(&seeded).count_triangle_cycles(&triangles), 3);
    let grouped = GroupedDegreeSpec {
        rel_type: Some("FOLLOWS"),
        group_is_dst: false,
        group_label: Some("Person"),
        counted_label: Some("Person"),
        counted_allow: None,
        counted_nonnull_prop: None,
    };
    let counts = reopen(&seeded).grouped_edge_counts(&grouped);
    assert_eq!(counts.len(), 5);
    assert!(counts.iter().all(|&(_, c)| c == 1));
}

#[test]
fn count_kernels_observe_writes_made_after_the_first_count() {
    let (mut g, ids) = triangle_and_chain();
    assert_eq!(g.count_linear_paths(&one_hop()), 5);
    assert_eq!(g.count_linear_paths(&two_hop()), 4);

    g.add_edge(ids[5], ids[3], "FOLLOWS", &props(vec![])).unwrap();

    assert_eq!(
        g.count_linear_paths(&one_hop()),
        6,
        "the one-hop count must include the edge added after the first count"
    );
    assert_eq!(g.count_linear_paths(&two_hop()), 6, "5->3 adds 4->5->3 and 5->3->4");
}

#[test]
fn count_kernels_are_correct_after_a_node_deletion() {
    let (mut g, ids) = triangle_and_chain();
    assert_eq!(g.count_linear_paths(&one_hop()), 5);

    g.delete_node(ids[5]);

    assert_eq!(g.count_linear_paths(&one_hop()), 4);
    assert_eq!(
        g.count_linear_paths(&two_hop()),
        3,
        "only the triangle's three two-hop paths remain"
    );
}

#[test]
fn incremental_matrices_match_full_rebuild() {
    let mut g = open();
    let ids: Vec<NodeId> = (0..20)
        .map(|i| g.add_node("N", &props(vec![("v", PropValue::Int(i))])).unwrap())
        .collect();
    let mut base_edges = Vec::new();
    for i in 0..20 {
        base_edges.push(g.add_edge(ids[i], ids[(i + 1) % 20], "R", &props(vec![])).unwrap());
    }
    g.rebuild_csr();

    g.add_edge(ids[0], ids[5], "R", &props(vec![])).unwrap();
    g.add_edge(ids[3], ids[10], "R", &props(vec![])).unwrap();
    let par_a = g.add_edge(ids[2], ids[4], "R", &props(vec![])).unwrap();
    g.add_edge(ids[2], ids[4], "R", &props(vec![])).unwrap();
    let n20 = g.add_node("N", &props(vec![("v", PropValue::Int(20))])).unwrap();
    let n21 = g.add_node("N", &props(vec![("v", PropValue::Int(21))])).unwrap();
    g.add_edge(n20, n21, "R", &props(vec![])).unwrap();
    g.add_edge(ids[1], n20, "R", &props(vec![])).unwrap();
    g.delete_edge(base_edges[7]);
    g.delete_edge(par_a);

    g.ensure_snapshot_fresh();
    let refreshed = (
        g.snapshot.col_idx.clone(),
        g.snapshot.in_col_idx.clone(),
        g.snapshot.dense_to_id.clone(),
    );
    g.rebuild_csr();
    assert_eq!(refreshed.0, g.snapshot.col_idx, "adjacency element sets differ");
    assert_eq!(refreshed.1, g.snapshot.in_col_idx, "adjacency_t element sets differ");
    assert_eq!(refreshed.2, g.snapshot.dense_to_id, "dense-index mapping differs");
}

#[test]
fn node_deletion_forces_full_rebuild_and_matches() {
    let mut g = open();
    let ids: Vec<NodeId> = (0..10)
        .map(|i| g.add_node("N", &props(vec![("v", PropValue::Int(i))])).unwrap())
        .collect();
    for i in 0..10 {
        g.add_edge(ids[i], ids[(i + 1) % 10], "R", &props(vec![])).unwrap();
    }
    g.rebuild_csr();

    g.delete_node(ids[3]);
    g.add_edge(ids[5], ids[7], "R", &props(vec![])).unwrap();

    g.ensure_snapshot_fresh();
    let refreshed = (
        g.snapshot.col_idx.clone(),
        g.snapshot.in_col_idx.clone(),
        g.snapshot.dense_to_id.clone(),
    );
    g.rebuild_csr();
    assert_eq!(refreshed.0, g.snapshot.col_idx, "adjacency element sets differ");
    assert_eq!(refreshed.1, g.snapshot.in_col_idx, "adjacency_t element sets differ");
    assert_eq!(refreshed.2, g.snapshot.dense_to_id, "dense-index mapping differs");
}

#[test]
fn incremental_consumers_match_full_rebuild() {
    let mut g = open();
    let ids: Vec<NodeId> = (0..15)
        .map(|i| g.add_node("N", &props(vec![("v", PropValue::Int(i))])).unwrap())
        .collect();
    for i in 0..15 {
        g.add_edge(ids[i], ids[(i + 1) % 15], "R", &props(vec![])).unwrap();
    }
    g.rebuild_csr();

    g.add_edge(ids[0], ids[7], "R", &props(vec![])).unwrap();
    let n15 = g.add_node("N", &props(vec![("v", PropValue::Int(15))])).unwrap();
    g.add_edge(ids[2], n15, "R", &props(vec![])).unwrap();
    g.add_edge(n15, ids[5], "R", &props(vec![])).unwrap();

    let bfs_incr = {
        let mut v = g.bfs(ids[0], 3);
        v.sort_unstable();
        v
    };
    let deg_incr = g.degree_centrality(DegreeDirection::Both);
    let cc_incr = canonical_partition(&g.connected_components());

    g.rebuild_csr();
    let bfs_full = {
        let mut v = g.bfs(ids[0], 3);
        v.sort_unstable();
        v
    };
    let deg_full = g.degree_centrality(DegreeDirection::Both);
    let cc_full = canonical_partition(&g.connected_components());

    assert_eq!(bfs_incr, bfs_full, "bfs: incremental vs full rebuild");
    assert_eq!(deg_incr, deg_full, "degree: incremental vs full rebuild");
    assert_eq!(cc_incr, cc_full, "components: incremental vs full rebuild");
}

#[test]
fn matrix_view_consumers_reflect_writes_without_rebuild() {
    let mut g = open();
    let a = g.add_node("N", &props(vec![])).unwrap();
    let b = g.add_node("N", &props(vec![])).unwrap();
    g.rebuild_csr();
    assert!(
        !g.bfs(a, 5).contains(&b),
        "b is unreachable before the edge exists"
    );

    g.add_edge(a, b, "R", &props(vec![])).unwrap();
    assert!(
        g.bfs(a, 1).contains(&b),
        "b reachable from a after the edge, without a rebuild"
    );

    let c = g.add_node("N", &props(vec![])).unwrap();
    g.add_edge(b, c, "R", &props(vec![])).unwrap();
    assert!(
        g.bfs(a, 2).contains(&c),
        "new node c reachable two hops from a, without a rebuild"
    );
}

#[test]
fn csr_consumers_reflect_writes_without_rebuild() {
    let mut g = open();
    let a = g.add_node("N", &props(vec![])).unwrap();
    let b = g.add_node("N", &props(vec![])).unwrap();
    let c = g.add_node("N", &props(vec![])).unwrap();
    g.add_edge(a, b, "R", &props(vec![])).unwrap();
    g.rebuild_csr();
    assert!(
        g.all_paths(a, c).is_empty(),
        "no path a..c before the edge exists"
    );

    g.add_edge(b, c, "R", &props(vec![])).unwrap();
    assert!(
        !g.all_paths(a, c).is_empty(),
        "path a->b->c reflected without an explicit rebuild"
    );
}

fn assert_publishes(g: &mut Graph, name: &str, write: impl FnOnce(&mut Graph)) {
    g.rebuild_csr();
    assert!(!g.snapshot_is_stale(), "{name}: a fresh rebuild must report current");
    write(g);
    assert!(g.snapshot_is_stale(), "{name} committed without publishing the write generation");
}

#[test]
fn every_committing_mutation_publishes_the_write() {
    let mut g = open();
    let a = g.add_node("P", &props(vec![("n", PropValue::Int(1))])).unwrap();
    let b = g.add_node("P", &props(vec![("n", PropValue::Int(2))])).unwrap();
    let weight = |w: f64| props(vec![("weight", PropValue::Float(w.to_bits()))]);
    let edge = g.add_edge(a, b, "T", &weight(1.0)).unwrap();
    let victim_node = g.add_node("P", &props(vec![])).unwrap();
    let victim_edge = g.add_edge(a, b, "T", &props(vec![])).unwrap();
    let label_target = g.add_node("P", &props(vec![])).unwrap();

    assert_publishes(&mut g, "add_node", |g| {
        g.add_node("P", &props(vec![])).unwrap();
    });
    assert_publishes(&mut g, "add_node_multi", |g| {
        g.add_node_multi(&["P", "Q"], &props(vec![])).unwrap();
    });
    assert_publishes(&mut g, "add_edge", |g| {
        g.add_edge(a, b, "T", &props(vec![])).unwrap();
    });
    assert_publishes(&mut g, "update_node", |g| {
        g.update_node(a, &props(vec![("n", PropValue::Int(9))])).unwrap();
    });
    assert_publishes(&mut g, "update_edge", |g| {
        g.update_edge(edge, &weight(2.0)).unwrap();
    });
    assert_publishes(&mut g, "add_label", |g| {
        g.add_label(label_target, "R").unwrap();
    });
    assert_publishes(&mut g, "remove_label", |g| {
        g.remove_label(label_target, "R");
    });
    assert_publishes(&mut g, "delete_edge", |g| {
        g.delete_edge(victim_edge);
    });
    assert_publishes(&mut g, "delete_node", |g| {
        g.delete_node(victim_node);
    });
    assert_publishes(&mut g, "update", |g| {
        g.update(|txn| {
            txn.add_node("P", &props(vec![]))?;
            Ok(())
        })
        .unwrap();
    });
}

#[test]
fn a_mutation_free_update_publishes_nothing() {
    let mut g = open();
    g.add_node("P", &props(vec![])).unwrap();
    g.rebuild_csr();

    g.update(|txn| {
        assert!(txn.get_node(1).is_none());
        Ok(())
    })
    .unwrap();

    assert!(!g.snapshot_is_stale(), "a read-only update must leave the caches current");
}

#[test]
fn a_refused_transaction_leaves_the_graph_as_it_was() {
    let mut g = open();
    g.add_node("P", &props(vec![])).unwrap();
    g.rebuild_csr();
    let outcome = g.update(|txn| {
        txn.add_node("P", &props(vec![]))?;
        txn.add_edge(0, 7, "T", &props(vec![]))?;
        Ok(())
    });
    assert!(matches!(outcome, Err(Error::NodeNotFound(7))));
    assert!(!g.snapshot_is_stale());
    assert_eq!(g.all_nodes(), vec![0]);
}

#[test]
fn open_defers_the_csr_and_matrix_build() {
    let (seeded, _ids) = ring_and_chord();
    let g = reopen(&seeded);
    assert_eq!(g.snapshot.dense_to_id.len(), 0, "open must not build the CSR snapshot");
    assert!(
        g.snapshot_is_stale(),
        "the unbuilt snapshot must report stale so a consumer rebuilds it"
    );
}

#[test]
fn reopened_graph_serves_every_consumer_class() {
    let (seeded, ids) = ring_and_chord();
    let wide = reopen(&seeded).expand_bulk(&ids, Some("FOLLOWS"), false);
    assert_eq!(wide.len(), 80, "every ring edge must expand");
    let narrow = reopen(&seeded).expand_bulk(&ids[..4], Some("FOLLOWS"), false);
    assert_eq!(narrow.len(), 4);
    assert_eq!(reopen(&seeded).bfs(ids[0], 1).len(), 3, "start plus both one-hop neighbors");
    assert_eq!(reopen(&seeded).dfs(ids[0], 1).len(), 3);
    let spec = PathCountSpec {
        rel_types: vec![Some("FOLLOWS")],
        labels: vec![Some("Person"), Some("Person")],
        vertex_allow: Vec::new(),
    };
    assert_eq!(reopen(&seeded).count_linear_paths(&spec), 80);
    assert_eq!(reopen(&seeded).out_neighbors(ids[0]).len(), 2);
}

#[test]
fn first_algorithm_materializes_what_open_skipped() {
    let (seeded, ids) = ring_and_chord();
    let mut g = reopen(&seeded);
    assert!(g.snapshot_is_stale());
    assert_eq!(g.bfs(ids[0], 1).len(), 3);
    assert!(!g.snapshot_is_stale());
}

#[test]
fn empty_database_opens_lazily_and_reads_empty() {
    let mut g = reopen(&open());
    assert!(g.snapshot_is_stale());
    assert!(g.all_nodes().is_empty());
    assert!(g.connected_components().is_empty());
}

#[test]
fn definitions_publish_no_write_and_keep_the_snapshot() {
    let mut g = Graph::open(Store::new());
    let a = g.add_node("L", &Props::new()).unwrap();
    g.add_edge(a, a, "R", &Props::new()).unwrap();
    g.rebuild_csr();
    let (written, shown) = (g.write_gen, g.snapshot_gen);
    g.create_node_property_index("L", "k").unwrap();
    g.create_node_unique_constraint("L", "k").unwrap();
    assert!(g.create_node_required_constraint("L", "k").is_err());
    g.create_edge_property_index("R", "k").unwrap();
    g.create_edge_unique_constraint("R", "k").unwrap();
    assert!(g.create_edge_required_constraint("R", "k").is_err());
    g.drop_node_property_index("L", "k");
    g.drop_node_unique_constraint("L", "k");
    g.drop_node_required_constraint("L", "k");
    g.drop_edge_property_index("R", "k");
    g.drop_edge_unique_constraint("R", "k");
    g.drop_edge_required_constraint("R", "k");
    assert_eq!((g.write_gen, g.snapshot_gen), (written, shown));
    assert!(!g.snapshot_is_stale());
    assert_eq!(g.snapshot.col_idx, vec![0]);
}
