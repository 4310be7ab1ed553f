use issundb_core::analytics::reach_totals;
use issundb_core::graph::Graph;
use issundb_core::schema::{DegreeDirection, NodeId};
use issundb_core::store::Store;
use issundb_core::tables::Props;
use std::collections::{HashMap, HashSet};

fn open() -> Graph {
    Graph::open(Store::new())
}

fn none() -> Props {
    Props::new()
}

fn add_clique(g: &mut Graph, nodes: &[NodeId]) {
    for i in 0..nodes.len() {
        for j in (i + 1)..nodes.len() {
            g.add_edge(nodes[i], nodes[j], "E", &none()).unwrap();
        }
    }
}

fn partition(labels: &HashMap<NodeId, u64>) -> Vec<Vec<NodeId>> {
    let mut groups: HashMap<u64, Vec<NodeId>> = HashMap::new();
    for (&id, &label) in labels {
        groups.entry(label).or_default().push(id);
    }
    let mut parts: Vec<Vec<NodeId>> = groups
        .into_values()
        .map(|mut part| {
            part.sort_unstable();
            part
        })
        .collect();
    parts.sort();
    parts
}

fn closeness(g: &mut Graph) -> HashMap<NodeId, f64> {
    let ids = g.all_nodes();
    let counts = g.distance_counts();
    let mut scores = HashMap::new();
    for (i, id) in ids.iter().enumerate() {
        let (reached, total) = reach_totals(&counts[i]);
        let score = if reached == 0 {
            0.0
        } else {
            let r = reached as f64;
            (r / total as f64) * (r / (ids.len() as f64 - 1.0))
        };
        scores.insert(*id, score);
    }
    scores
}

fn clustering(g: &mut Graph) -> HashMap<NodeId, f64> {
    let ids = g.all_nodes();
    let counts = g.clustering_counts();
    let mut scores = HashMap::new();
    for (i, id) in ids.iter().enumerate() {
        let (links, k) = counts[i];
        let score = if k < 2 { 0.0 } else { links as f64 / (k as f64 * (k as f64 - 1.0)) };
        scores.insert(*id, score);
    }
    scores
}

fn betweenness(g: &mut Graph) -> HashMap<NodeId, f64> {
    let ids = g.all_nodes();
    let mut scores: HashMap<NodeId, f64> = ids.iter().map(|id| (*id, 0.0)).collect();
    for source in &ids {
        let dag = g.shortest_paths_from(*source).unwrap();
        let mut delta = vec![0.0; ids.len()];
        for level in dag.order.iter().rev() {
            for &w in level {
                let w = w as usize;
                for &v in &dag.pred[w] {
                    let share = dag.sigma[v as usize] as f64 / dag.sigma[w] as f64;
                    delta[v as usize] += share * (1.0 + delta[w]);
                }
                if ids[w] != *source {
                    *scores.get_mut(&ids[w]).unwrap() += delta[w];
                }
            }
        }
    }
    scores
}

#[test]
fn label_propagation_resolves_disjoint_cliques_to_components() {
    let mut g = open();
    let mut triangles = Vec::new();
    for _ in 0..3 {
        let nodes: Vec<NodeId> = (0..3).map(|_| g.add_node("N", &none()).unwrap()).collect();
        add_clique(&mut g, &nodes);
        triangles.push(nodes);
    }
    g.rebuild_csr();

    let labels = g.label_propagation(100);
    assert_eq!(
        partition(&labels),
        partition(&g.connected_components()),
        "community partition must match the connected components"
    );

    let distinct: HashSet<u64> = labels.values().copied().collect();
    assert_eq!(distinct.len(), 3, "expected one community per triangle");
    for tri in &triangles {
        let label = labels[&tri[0]];
        assert!(
            tri.iter().all(|n| labels[n] == label),
            "a triangle was split across communities"
        );
    }
}

#[test]
fn label_propagation_is_deterministic() {
    let mut g = open();
    let nodes: Vec<NodeId> = (0..6).map(|_| g.add_node("N", &none()).unwrap()).collect();
    add_clique(&mut g, &nodes[0..3]);
    add_clique(&mut g, &nodes[3..6]);
    g.add_edge(nodes[2], nodes[3], "E", &none()).unwrap();
    g.rebuild_csr();

    let first = g.label_propagation(100);
    let second = g.label_propagation(100);
    assert_eq!(first, second, "label propagation must be run-to-run stable");
}

#[test]
fn connected_component_ids_are_the_smallest_member() {
    let mut g = open();
    let nodes: Vec<NodeId> = (0..5).map(|_| g.add_node("N", &none()).unwrap()).collect();
    g.add_edge(nodes[2], nodes[1], "E", &none()).unwrap();
    g.add_edge(nodes[1], nodes[0], "E", &none()).unwrap();
    g.add_edge(nodes[4], nodes[3], "E", &none()).unwrap();
    g.rebuild_csr();

    let components = g.connected_components();
    for node in &nodes[0..3] {
        assert_eq!(components[node], nodes[0], "keyed by its least member");
    }
    for node in &nodes[3..5] {
        assert_eq!(components[node], nodes[3]);
    }
}

#[test]
fn connected_component_ids_survive_a_node_deletion() {
    let mut g = open();
    let nodes: Vec<NodeId> = (0..4).map(|_| g.add_node("N", &none()).unwrap()).collect();
    g.add_edge(nodes[1], nodes[2], "E", &none()).unwrap();
    g.add_edge(nodes[2], nodes[3], "E", &none()).unwrap();
    g.delete_node(nodes[0]);
    g.rebuild_csr();

    let components = g.connected_components();
    assert_eq!(components.len(), 3, "only the deleted node is gone");
    for node in &nodes[1..4] {
        assert_eq!(
            components[node], nodes[1],
            "the surviving component is keyed by node {}, not by dense index 0",
            nodes[1]
        );
    }
}

#[test]
fn degree_centrality_counts_distinct_neighbors() {
    let mut g = open();
    let a = g.add_node("N", &none()).unwrap();
    let b = g.add_node("N", &none()).unwrap();
    g.add_edge(a, b, "E", &none()).unwrap();
    g.add_edge(a, b, "E", &none()).unwrap();
    g.add_edge(a, b, "OTHER", &none()).unwrap();
    g.add_edge(b, a, "E", &none()).unwrap();
    g.rebuild_csr();

    let out = g.degree_centrality(DegreeDirection::Out);
    assert_eq!(out[&a], 1, "three parallel edges are one distinct neighbor");
    let both = g.degree_centrality(DegreeDirection::Both);
    assert_eq!(both[&a], 2, "one distinct neighbor in each direction");
}

#[test]
fn degree_centrality_counts_a_self_loop_in_both_directions() {
    let mut g = open();
    let a = g.add_node("N", &none()).unwrap();
    g.add_edge(a, a, "E", &none()).unwrap();
    g.rebuild_csr();

    assert_eq!(g.degree_centrality(DegreeDirection::Out)[&a], 1);
    assert_eq!(g.degree_centrality(DegreeDirection::In)[&a], 1);
    assert_eq!(g.degree_centrality(DegreeDirection::Both)[&a], 2);
}

#[test]
fn betweenness_ignores_parallel_edges() {
    let build = |parallel: bool| {
        let mut g = open();
        let nodes: Vec<NodeId> = (0..4).map(|_| g.add_node("N", &none()).unwrap()).collect();
        g.add_edge(nodes[0], nodes[1], "E", &none()).unwrap();
        if parallel {
            g.add_edge(nodes[0], nodes[1], "E", &none()).unwrap();
        }
        g.add_edge(nodes[0], nodes[2], "E", &none()).unwrap();
        g.add_edge(nodes[1], nodes[3], "E", &none()).unwrap();
        g.add_edge(nodes[2], nodes[3], "E", &none()).unwrap();
        g.rebuild_csr();
        let scores = betweenness(&mut g);
        nodes.iter().map(|n| scores[n]).collect::<Vec<f64>>()
    };

    let simple = build(false);
    assert_eq!(
        simple,
        vec![0.0, 0.5, 0.5, 0.0],
        "the two routes split the dependency evenly"
    );

    let multi = build(true);
    assert_eq!(
        multi, simple,
        "a parallel edge is not a second shortest path"
    );
}

#[test]
fn closeness_scales_by_the_fraction_of_the_graph_reached() {
    let mut g = open();
    let nodes: Vec<NodeId> = (0..3).map(|_| g.add_node("N", &none()).unwrap()).collect();
    g.add_edge(nodes[0], nodes[1], "E", &none()).unwrap();
    g.add_edge(nodes[1], nodes[2], "E", &none()).unwrap();

    let scores = closeness(&mut g);
    assert!((scores[&nodes[0]] - 2.0 / 3.0).abs() < 1e-12);
    assert!((scores[&nodes[1]] - 0.5).abs() < 1e-12);
    assert_eq!(scores[&nodes[2]], 0.0);
}

#[test]
fn closeness_ignores_parallel_edges() {
    let mut g = open();
    let nodes: Vec<NodeId> = (0..3).map(|_| g.add_node("N", &none()).unwrap()).collect();
    g.add_edge(nodes[0], nodes[1], "E", &none()).unwrap();
    g.add_edge(nodes[1], nodes[2], "E", &none()).unwrap();
    let before = closeness(&mut g);

    g.add_edge(nodes[0], nodes[1], "E", &none()).unwrap();
    assert_eq!(closeness(&mut g), before);
}

#[test]
fn clustering_coefficient_reads_the_graph_as_undirected() {
    let mut g = open();
    let tri: Vec<NodeId> = (0..3).map(|_| g.add_node("N", &none()).unwrap()).collect();
    g.add_edge(tri[0], tri[1], "E", &none()).unwrap();
    g.add_edge(tri[1], tri[2], "E", &none()).unwrap();
    g.add_edge(tri[2], tri[0], "E", &none()).unwrap();

    let scores = clustering(&mut g);
    for node in &tri {
        assert!((scores[node] - 1.0).abs() < 1e-12, "{}", scores[node]);
    }

    let mut star = open();
    let hub = star.add_node("N", &none()).unwrap();
    let spokes: Vec<NodeId> = (0..3).map(|_| star.add_node("N", &none()).unwrap()).collect();
    for spoke in &spokes {
        star.add_edge(hub, *spoke, "E", &none()).unwrap();
    }
    assert_eq!(clustering(&mut star)[&hub], 0.0);
}

#[test]
fn clustering_coefficient_stays_bounded_under_parallel_edges() {
    let mut g = open();
    let tri: Vec<NodeId> = (0..3).map(|_| g.add_node("N", &none()).unwrap()).collect();
    g.add_edge(tri[0], tri[1], "E", &none()).unwrap();
    g.add_edge(tri[1], tri[2], "E", &none()).unwrap();
    g.add_edge(tri[2], tri[0], "E", &none()).unwrap();
    g.add_edge(tri[0], tri[1], "E", &none()).unwrap();
    g.add_edge(tri[1], tri[0], "E", &none()).unwrap();
    g.add_edge(tri[1], tri[2], "E", &none()).unwrap();

    for (node, score) in clustering(&mut g) {
        assert!((score - 1.0).abs() < 1e-12, "node {node} scored {score}");
    }
}

#[test]
fn louvain_separates_cliques_joined_by_single_edges() {
    let mut g = open();
    let groups: Vec<Vec<NodeId>> = (0..3)
        .map(|_| (0..5).map(|_| g.add_node("N", &none()).unwrap()).collect())
        .collect();
    for group in &groups {
        add_clique(&mut g, group);
    }
    g.add_edge(groups[0][0], groups[1][0], "E", &none()).unwrap();
    g.add_edge(groups[1][0], groups[2][0], "E", &none()).unwrap();

    let mut expected: Vec<Vec<NodeId>> = groups
        .iter()
        .map(|group| {
            let mut sorted = group.clone();
            sorted.sort_unstable();
            sorted
        })
        .collect();
    expected.sort();
    assert_eq!(partition(&g.louvain()), expected);
}

#[test]
fn louvain_never_merges_disconnected_components() {
    let mut g = open();
    let nodes: Vec<NodeId> = (0..12).map(|_| g.add_node("N", &none()).unwrap()).collect();
    for (a, b) in [(0, 1), (1, 2), (2, 3), (3, 0), (0, 2), (4, 5)] {
        g.add_edge(nodes[a], nodes[b], "E", &none()).unwrap();
    }
    for (a, b) in [(6, 7), (7, 8), (8, 9), (9, 10), (10, 11), (11, 6)] {
        g.add_edge(nodes[a], nodes[b], "E", &none()).unwrap();
    }

    let communities = g.louvain();
    let components = g.connected_components();
    for (a, b) in communities.keys().flat_map(|&a| {
        communities
            .keys()
            .filter(move |&&b| b > a)
            .map(move |&b| (a, b))
    }) {
        if communities[&a] == communities[&b] {
            assert_eq!(
                components[&a], components[&b],
                "{a} and {b} share a community across components"
            );
        }
    }
}

#[test]
fn louvain_names_a_community_after_its_smallest_member() {
    let mut g = open();
    let nodes: Vec<NodeId> = (0..6).map(|_| g.add_node("N", &none()).unwrap()).collect();
    add_clique(&mut g, &nodes[..3]);
    add_clique(&mut g, &nodes[3..]);

    let communities = g.louvain();
    assert_eq!(communities.len(), nodes.len());
    for part in partition(&communities) {
        let smallest = *part.iter().min().unwrap();
        for node in &part {
            assert_eq!(communities[node], smallest);
        }
    }
}

#[test]
fn louvain_is_reproducible() {
    let mut g = open();
    let nodes: Vec<NodeId> = (0..10).map(|_| g.add_node("N", &none()).unwrap()).collect();
    add_clique(&mut g, &nodes[..4]);
    add_clique(&mut g, &nodes[4..]);
    g.add_edge(nodes[0], nodes[4], "E", &none()).unwrap();

    let first = g.louvain();
    for _ in 0..4 {
        assert_eq!(g.louvain(), first);
    }
}

#[test]
fn louvain_leaves_isolated_nodes_alone() {
    let mut g = open();
    let nodes: Vec<NodeId> = (0..4).map(|_| g.add_node("N", &none()).unwrap()).collect();

    let communities = g.louvain();
    for node in &nodes {
        assert_eq!(communities[node], *node);
    }
}

#[test]
fn clustering_coefficient_excludes_self_loops() {
    let mut g = open();
    let nodes: Vec<NodeId> = (0..2).map(|_| g.add_node("N", &none()).unwrap()).collect();
    g.add_edge(nodes[0], nodes[0], "E", &none()).unwrap();
    g.add_edge(nodes[0], nodes[1], "E", &none()).unwrap();

    assert_eq!(clustering(&mut g)[&nodes[0]], 0.0);
}

#[test]
fn a_pair_with_nothing_in_common_scores_positive_zero() {
    let mut g = open();
    let a = g.add_node("N", &none()).unwrap();
    let b = g.add_node("N", &none()).unwrap();
    let na = g.add_node("N", &none()).unwrap();
    let nb = g.add_node("N", &none()).unwrap();
    g.add_edge(a, na, "E", &none()).unwrap();
    g.add_edge(b, nb, "E", &none()).unwrap();

    let counts = g.link_counts(a, b).unwrap();
    let shared = counts.shared.len();
    let adamic_adar =
        counts.degrees.iter().filter(|&&d| d > 1).fold(0.0, |sum, &d| sum + 1.0 / (d as f64).ln());
    let allocation = counts.degrees.iter().fold(0.0, |sum, &d| sum + 1.0 / d as f64);
    let jaccard = shared as f64 / (counts.left + counts.right - shared) as f64;
    for score in [adamic_adar, allocation, jaccard, shared as f64] {
        assert_eq!(score, 0.0);
        assert!(score.is_sign_positive());
    }
}

#[test]
fn a_pair_with_nothing_in_common_shares_no_neighbor() {
    let mut g = open();
    let a = g.add_node("N", &none()).unwrap();
    let b = g.add_node("N", &none()).unwrap();
    let na = g.add_node("N", &none()).unwrap();
    let nb = g.add_node("N", &none()).unwrap();
    g.add_edge(a, na, "E", &none()).unwrap();
    g.add_edge(b, nb, "E", &none()).unwrap();

    let counts = g.link_counts(a, b).unwrap();
    assert_eq!((counts.left, counts.right), (1, 1));
    assert!(counts.shared.is_empty());
    assert!(counts.degrees.is_empty());
    assert!(g.link_counts(a, 99).is_none());
}

#[test]
fn shared_neighbors_come_with_their_degrees() {
    let mut g = open();
    let ids: Vec<NodeId> = (0..4).map(|_| g.add_node("N", &none()).unwrap()).collect();
    g.add_edge(ids[0], ids[2], "E", &none()).unwrap();
    g.add_edge(ids[2], ids[1], "E", &none()).unwrap();
    g.add_edge(ids[2], ids[3], "E", &none()).unwrap();
    g.add_edge(ids[0], ids[0], "E", &none()).unwrap();

    let counts = g.link_counts(ids[0], ids[1]).unwrap();
    assert_eq!((counts.left, counts.right), (1, 1));
    assert_eq!(counts.shared, vec![2]);
    assert_eq!(counts.degrees, vec![3]);
}

#[test]
fn a_directed_cycle_is_one_strong_component_and_a_tail_is_not() {
    let mut g = open();
    let ids: Vec<NodeId> = (0..5).map(|_| g.add_node("N", &none()).unwrap()).collect();
    for (a, b) in [(0, 1), (1, 2), (2, 0), (2, 3), (3, 4)] {
        g.add_edge(ids[a], ids[b], "E", &none()).unwrap();
    }
    let found = g.strongly_connected_components();
    let parts = partition(&found);
    assert_eq!(parts, vec![vec![ids[0], ids[1], ids[2]], vec![ids[3]], vec![ids[4]]]);
}
