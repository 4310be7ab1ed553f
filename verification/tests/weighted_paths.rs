use issundb_core::cost::Cost;
use issundb_core::error::Error;
use issundb_core::graph::Graph;
use issundb_core::schema::NodeId;
use issundb_core::store::Store;
use issundb_core::tables::Props;
use issundb_core::value::PropValue;

fn open() -> Graph {
    Graph::open(Store::new())
}

fn props(entries: Vec<(&str, PropValue)>) -> Props {
    let mut out = Props::new();
    for (name, value) in entries {
        out.set(name, value);
    }
    out
}

fn none() -> Props {
    Props::new()
}

#[derive(Clone, Copy, Debug, PartialEq)]
struct Real(f64);

impl Cost for Real {
    fn le(self, other: Self) -> bool {
        self.0 <= other.0
    }

    fn plus(self, weight: Self) -> Self {
        Real(self.0 + weight.0)
    }

    fn bounded(self) -> bool {
        self.0 < f64::INFINITY
    }

    fn near(self, other: Self) -> bool {
        self.0 == other.0 || (self.0 - other.0).abs() < 1e-9 * other.0.abs().max(1.0)
    }

    fn zero() -> Self {
        Real(0.0)
    }

    fn unit() -> Self {
        Real(1.0)
    }

    fn exact() -> bool {
        false
    }

    fn zero_cost() -> Self {
        Real(0.0)
    }

    fn unit_cost() -> Self {
        Real(1.0)
    }

    fn less(&self, other: &Self) -> bool {
        self.0 < other.0
    }

    fn added(&self, weight: &Self) -> Self {
        Real(self.0 + weight.0)
    }

    fn is_bounded(&self) -> bool {
        self.0 < f64::INFINITY
    }

    fn is_near(&self, other: &Self) -> bool {
        self.0 == other.0 || (self.0 - other.0).abs() < 1e-9 * other.0.abs().max(1.0)
    }

    fn law_order(_a: Self, _b: Self, _c: Self) {}

    fn law_plus(_a: Self, _b: Self, _weight: Self) {}

    fn law_bounded(_a: Self, _b: Self) {}

    fn law_exact(_a: Self, _b: Self, _c: Self) {}
}

#[derive(Debug)]
struct Path {
    nodes: Vec<NodeId>,
    total_weight: f64,
}

fn number(x: f64) -> PropValue {
    PropValue::Float(x.to_bits())
}

fn weights(g: &mut Graph, names: &[&str]) -> Vec<Real> {
    g.slot_numbers(names)
        .into_iter()
        .map(|bits| Real(bits.map_or(1.0, f64::from_bits)))
        .collect()
}

fn try_dijkstra(g: &mut Graph, src: NodeId, dst: NodeId) -> Result<Option<Path>, Error> {
    let weights = weights(g, &["weight", "cost", "capacity", "cap"]);
    let found = g.shortest_path_dijkstra(&weights, src, dst)?;
    Ok(found.map(|p| Path { nodes: p.nodes, total_weight: p.total_weight.0 }))
}

fn dijkstra(g: &mut Graph, src: NodeId, dst: NodeId) -> Option<Path> {
    try_dijkstra(g, src, dst).unwrap()
}

#[test]
fn dijkstra_takes_the_cheapest_parallel_edge() {
    let mut g = open();
    let a = g.add_node("N", &none()).unwrap();
    let b = g.add_node("N", &none()).unwrap();
    g.add_edge(a, b, "E", &props(vec![("weight", number(7.0))])).unwrap();
    g.add_edge(a, b, "E", &props(vec![("weight", number(2.0))])).unwrap();
    g.rebuild_csr();

    let path = dijkstra(&mut g, a, b).unwrap();
    assert_eq!(path.nodes, vec![a, b]);
    assert_eq!(path.total_weight, 2.0);
}

#[test]
fn dijkstra_handles_a_negative_weight() {
    let mut g = open();
    let a = g.add_node("N", &none()).unwrap();
    let b = g.add_node("N", &none()).unwrap();
    let c = g.add_node("N", &none()).unwrap();
    g.add_edge(a, b, "E", &props(vec![("weight", number(5.0))])).unwrap();
    g.add_edge(b, c, "E", &props(vec![("weight", number(-4.0))])).unwrap();
    g.add_edge(a, c, "E", &props(vec![("weight", number(2.0))])).unwrap();
    g.rebuild_csr();

    let path = dijkstra(&mut g, a, c).unwrap();
    assert_eq!(path.nodes, vec![a, b, c]);
    assert_eq!(path.total_weight, 1.0);
}

#[test]
fn dijkstra_reports_a_negative_cycle() {
    let mut g = open();
    let s = g.add_node("N", &none()).unwrap();
    let a = g.add_node("N", &none()).unwrap();
    let b = g.add_node("N", &none()).unwrap();
    g.add_edge(s, a, "E", &props(vec![("weight", number(1.0))])).unwrap();
    g.add_edge(a, b, "E", &props(vec![("weight", number(1.0))])).unwrap();
    g.add_edge(b, a, "E", &props(vec![("weight", number(-2.0))])).unwrap();
    g.rebuild_csr();

    let err = try_dijkstra(&mut g, s, b).unwrap_err();
    assert!(
        matches!(err, Error::InvalidArgument(ref m) if m.contains("negative-weight cycle")),
        "expected a negative-cycle report, got {err:?}"
    );
}

#[test]
fn dijkstra_terminates_on_a_zero_weight_cycle() {
    let mut g = open();
    let a = g.add_node("N", &none()).unwrap();
    let b = g.add_node("N", &none()).unwrap();
    let s = g.add_node("N", &none()).unwrap();
    g.add_edge(a, b, "E", &props(vec![("weight", number(0.0))])).unwrap();
    g.add_edge(b, a, "E", &props(vec![("weight", number(0.0))])).unwrap();
    g.add_edge(s, a, "E", &props(vec![("weight", number(1.0))])).unwrap();
    g.rebuild_csr();

    let found = dijkstra(&mut g, s, b);
    if let Some(path) = found {
        assert_eq!(path.total_weight, 1.0);
        assert_eq!(path.nodes.first(), Some(&s));
        assert_eq!(path.nodes.last(), Some(&b));
    }
}

#[test]
fn dijkstra_reconstructs_with_large_weights() {
    let mut g = open();
    let nodes: Vec<_> = (0..6).map(|_| g.add_node("N", &none()).unwrap()).collect();
    for w in nodes.windows(2) {
        g.add_edge(
            w[0],
            w[1],
            "E",
            &props(vec![("weight", number(1_300_000_000.1))]),
        ).unwrap();
    }
    g.rebuild_csr();

    let path = dijkstra(&mut g, nodes[0], nodes[5])
        .expect("a finite distance must reconstruct to a path");
    assert_eq!(path.nodes, nodes);
}

#[test]
fn dijkstra_defaults_an_unweighted_edge_to_one() {
    let mut g = open();
    let a = g.add_node("N", &none()).unwrap();
    let b = g.add_node("N", &none()).unwrap();
    let c = g.add_node("N", &none()).unwrap();
    g.add_edge(a, b, "E", &none()).unwrap();
    g.add_edge(b, c, "E", &props(vec![("cost", number(3.0))])).unwrap();
    g.rebuild_csr();

    let path = dijkstra(&mut g, a, c).unwrap();
    assert_eq!(path.total_weight, 4.0);
}

#[test]
fn all_shortest_paths_ignores_parallel_edges() {
    let mut g = open();
    let nodes: Vec<_> = (0..4).map(|_| g.add_node("N", &none()).unwrap()).collect();
    g.add_edge(nodes[0], nodes[1], "E", &none()).unwrap();
    g.add_edge(nodes[1], nodes[3], "E", &none()).unwrap();
    g.add_edge(nodes[1], nodes[3], "E", &none()).unwrap();
    g.add_edge(nodes[0], nodes[2], "E", &none()).unwrap();
    g.add_edge(nodes[2], nodes[3], "E", &none()).unwrap();
    g.rebuild_csr();

    let paths = g.all_shortest_paths(nodes[0], nodes[3]);
    assert_eq!(
        paths.len(),
        2,
        "two distinct shortest paths, not one per edge: {paths:?}"
    );
}

#[test]
fn all_shortest_paths_dedups_a_predecessor_split_across_types() {
    let mut g = open();
    let nodes: Vec<_> = (0..4).map(|_| g.add_node("N", &none()).unwrap()).collect();
    g.add_edge(nodes[0], nodes[1], "E", &none()).unwrap();
    g.add_edge(nodes[0], nodes[2], "E", &none()).unwrap();
    g.add_edge(nodes[1], nodes[3], "A", &none()).unwrap();
    g.add_edge(nodes[2], nodes[3], "B", &none()).unwrap();
    g.add_edge(nodes[1], nodes[3], "C", &none()).unwrap();
    g.rebuild_csr();

    let paths = g.all_shortest_paths(nodes[0], nodes[3]);
    assert_eq!(paths.len(), 2, "one path per distinct route: {paths:?}");
}

#[test]
fn update_edge_weight_refreshes_dijkstra() {
    let mut g = open();
    let a = g.add_node("N", &props(vec![])).unwrap();
    let b = g.add_node("N", &props(vec![])).unwrap();
    let c = g.add_node("N", &props(vec![])).unwrap();
    let direct = g.add_edge(a, b, "R", &props(vec![("weight", number(1.0))])).unwrap();
    g.add_edge(a, c, "R", &props(vec![("weight", number(5.0))])).unwrap();
    g.add_edge(c, b, "R", &props(vec![("weight", number(5.0))])).unwrap();
    g.rebuild_csr();
    assert_eq!(
        dijkstra(&mut g, a, b)
            .unwrap()
            .total_weight,
        1.0
    );

    g.update_edge(direct, &props(vec![("weight", number(100.0))])).unwrap();
    let p = dijkstra(&mut g, a, b)
        .expect("a path a->b still exists after update_edge");
    assert_eq!(p.total_weight, 10.0, "update_edge weight must be honored");
    assert_eq!(p.nodes, vec![a, c, b]);
}

#[test]
fn a_weighted_consumer_upgrades_matrices_materialized_for_an_adjacency_one() {
    let mut g = open();
    let a = g.add_node("N", &props(vec![])).unwrap();
    let b = g.add_node("N", &props(vec![])).unwrap();
    let c = g.add_node("N", &props(vec![])).unwrap();
    g.add_edge(a, b, "R", &props(vec![("weight", number(100.0))])).unwrap();
    g.add_edge(a, c, "R", &props(vec![("weight", number(1.0))])).unwrap();
    g.add_edge(c, b, "R", &props(vec![("weight", number(1.0))])).unwrap();

    assert!(!g.bfs(a, 2).is_empty());

    let p = dijkstra(&mut g, a, b)
        .expect("a path a->b exists");
    assert_eq!(p.total_weight, 2.0, "the weights must be the stored ones");
    assert_eq!(p.nodes, vec![a, c, b]);

    assert!(!g.bfs(a, 2).is_empty());
    g.add_edge(b, c, "R", &props(vec![("weight", number(1.0))])).unwrap();
    assert!(!g.bfs(a, 2).is_empty());
}

#[test]
fn dijkstra_parallel_edges_use_min_weight() {
    let mut g = open();
    let a = g.add_node("N", &props(vec![])).unwrap();
    let b = g.add_node("N", &props(vec![])).unwrap();
    g.add_edge(a, b, "R", &props(vec![("weight", number(2.0))])).unwrap();
    g.add_edge(a, b, "R", &props(vec![("weight", number(3.0))])).unwrap();
    g.rebuild_csr();

    let p = dijkstra(&mut g, a, b)
        .expect("parallel edges must still yield a path");
    assert_eq!(p.total_weight, 2.0, "parallel edges take the min weight");
}

#[test]
fn the_cheapest_paths_come_in_order() {
    let mut g = open();
    let n: Vec<NodeId> = (0..4).map(|_| g.add_node("N", &none()).unwrap()).collect();
    for (a, b, w) in [(0, 1, 1.0), (1, 3, 1.0), (0, 2, 1.5), (2, 3, 1.0), (0, 3, 4.0)] {
        g.add_edge(n[a], n[b], "R", &props(vec![("w", number(w))])).unwrap();
    }
    let w = weights(&mut g, &["w"]);
    let paths = g.shortest_path_top_k(&w, n[0], n[3], 5);
    let found: Vec<(Vec<NodeId>, f64)> =
        paths.into_iter().map(|p| (p.nodes, p.total_weight.0)).collect();
    assert_eq!(
        found,
        vec![
            (vec![n[0], n[1], n[3]], 2.0),
            (vec![n[0], n[2], n[3]], 2.5),
            (vec![n[0], n[3]], 4.0),
        ]
    );
    assert!(g.shortest_path_top_k(&w, n[0], n[3], 0).is_empty());
    assert!(g.shortest_path_top_k(&w, n[3], n[0], 2).is_empty());
}

#[test]
fn a_spanning_forest_takes_the_lightest_or_heaviest_edges() {
    let mut g = open();
    let n: Vec<NodeId> = (0..4).map(|_| g.add_node("N", &none()).unwrap()).collect();
    let ab = g.add_edge(n[0], n[1], "R", &props(vec![("w", number(1.0))])).unwrap();
    let bc = g.add_edge(n[1], n[2], "R", &props(vec![("w", number(2.0))])).unwrap();
    let ca = g.add_edge(n[2], n[0], "R", &props(vec![("w", number(3.0))])).unwrap();
    g.add_edge(n[3], n[3], "R", &none()).unwrap();
    let w = weights(&mut g, &["w"]);
    assert_eq!(g.spanning_forest(&w, false), vec![ab, bc]);
    assert_eq!(g.spanning_forest(&w, true), vec![ca, bc]);
}

#[test]
fn the_flow_is_bounded_by_the_narrowest_cut() {
    let mut g = open();
    let n: Vec<NodeId> = (0..4).map(|_| g.add_node("N", &none()).unwrap()).collect();
    for (a, b, c) in [(0, 1, 3), (0, 2, 2), (1, 2, 5), (1, 3, 2), (2, 3, 3)] {
        g.add_edge(n[a], n[b], "R", &props(vec![("cap", PropValue::Int(c))])).unwrap();
    }
    let caps: Vec<u64> = g
        .slot_numbers(&["cap"])
        .into_iter()
        .map(|bits| bits.map_or(0, |b| f64::from_bits(b) as u64))
        .collect();
    assert_eq!(g.maximum_flow(&caps, n[0], n[3]), 5);
    assert_eq!(g.maximum_flow(&caps, n[3], n[0]), 0);
    assert_eq!(g.maximum_flow(&caps, n[0], n[0]), 0);
}

#[test]
fn negative_weights_still_give_the_cheapest_paths() {
    let mut g = open();
    let n: Vec<NodeId> = (0..4).map(|_| g.add_node("N", &none()).unwrap()).collect();
    for (a, b, w) in [(0, 1, 4.0), (0, 2, 1.0), (1, 2, -5.0), (2, 3, 2.0), (1, 3, 3.0)] {
        g.add_edge(n[a], n[b], "R", &props(vec![("w", number(w))])).unwrap();
    }
    let w = weights(&mut g, &["w"]);
    let found: Vec<(Vec<NodeId>, f64)> = g
        .shortest_path_top_k(&w, n[0], n[3], 9)
        .into_iter()
        .map(|p| (p.nodes, p.total_weight.0))
        .collect();
    assert_eq!(
        found,
        vec![
            (vec![n[0], n[1], n[2], n[3]], 1.0),
            (vec![n[0], n[2], n[3]], 3.0),
            (vec![n[0], n[1], n[3]], 7.0),
        ]
    );
    let two = g.shortest_path_top_k(&w, n[0], n[3], 2);
    assert_eq!(two.len(), 2);
}

#[test]
fn a_negative_cycle_on_the_way_leaves_the_simple_paths() {
    let mut g = open();
    let n: Vec<NodeId> = (0..4).map(|_| g.add_node("N", &none()).unwrap()).collect();
    for (a, b, w) in [(0, 3, 1.0), (0, 1, 5.0), (1, 2, 1.0), (2, 1, -2.0), (2, 3, 1.0)] {
        g.add_edge(n[a], n[b], "R", &props(vec![("w", number(w))])).unwrap();
    }
    let w = weights(&mut g, &["w"]);
    let found: Vec<(Vec<NodeId>, f64)> = g
        .shortest_path_top_k(&w, n[0], n[3], 3)
        .into_iter()
        .map(|p| (p.nodes, p.total_weight.0))
        .collect();
    assert_eq!(
        found,
        vec![(vec![n[0], n[3]], 1.0), (vec![n[0], n[1], n[2], n[3]], 7.0)]
    );
    let first = g.shortest_path_top_k(&w, n[0], n[3], 1);
    assert_eq!(first.len(), 1);
    assert_eq!(first[0].nodes, vec![n[0], n[3]]);
    assert!(g.shortest_path_top_k(&w, n[3], n[0], 3).is_empty());
}

#[test]
fn a_cycle_of_no_weight_does_not_disturb_the_cheapest_paths() {
    let mut g = open();
    let n: Vec<NodeId> = (0..4).map(|_| g.add_node("N", &none()).unwrap()).collect();
    for (a, b, w) in [(0, 1, 2.0), (1, 2, -1.0), (2, 1, 1.0), (2, 3, 1.0)] {
        g.add_edge(n[a], n[b], "R", &props(vec![("w", number(w))])).unwrap();
    }
    let w = weights(&mut g, &["w"]);
    let paths = g.shortest_path_top_k(&w, n[0], n[3], 3);
    assert_eq!(paths.len(), 1);
    assert_eq!(paths[0].nodes, vec![n[0], n[1], n[2], n[3]]);
    assert_eq!(paths[0].total_weight.0, 2.0);
}

#[test]
fn a_path_costs_what_its_root_and_its_spur_cost() {
    let mut g = open();
    let n: Vec<NodeId> = (0..4).map(|_| g.add_node("N", &none()).unwrap()).collect();
    for (a, b, w) in [(0, 1, 0.1), (1, 2, 0.2), (2, 3, 0.3), (1, 3, 0.7)] {
        g.add_edge(n[a], n[b], "R", &props(vec![("w", number(w))])).unwrap();
    }
    let w = weights(&mut g, &["w"]);
    let paths = g.shortest_path_top_k(&w, n[0], n[3], 2);
    assert_eq!(paths[0].nodes, vec![n[0], n[1], n[2], n[3]]);
    assert_eq!(paths[0].total_weight.0, (0.1 + 0.2) + 0.3);
    assert_eq!(paths[1].nodes, vec![n[0], n[1], n[3]]);
    assert_eq!(paths[1].total_weight.0, 0.1 + 0.7);
}

#[test]
fn edges_of_no_weight_hide_no_path() {
    let mut g = open();
    let n: Vec<NodeId> = (0..4).map(|_| g.add_node("N", &none()).unwrap()).collect();
    for (a, b, w) in [(0, 1, 0.0), (1, 2, 0.0), (2, 3, 1.0), (0, 3, 1.5)] {
        g.add_edge(n[a], n[b], "R", &props(vec![("weight", number(w))])).unwrap();
    }
    let p = dijkstra(&mut g, n[0], n[3]).expect("the free edges lead on");
    assert_eq!(p.nodes, vec![n[0], n[1], n[2], n[3]]);
    assert_eq!(p.total_weight, 1.0);
    let whole: Vec<u64> = vec![0, 0, 2, 3];
    g.ensure_snapshot_fresh();
    let slots: Vec<u64> = g
        .snapshot
        .edge_id
        .iter()
        .map(|&e| whole[g.store.edges.keys.iter().position(|&k| k == e).unwrap()])
        .collect();
    let exact = g.shortest_path_dijkstra(&slots, n[0], n[3]).unwrap().unwrap();
    assert_eq!(exact.nodes, vec![n[0], n[1], n[2], n[3]]);
    assert_eq!(exact.total_weight, 2);
}

#[test]
fn a_negative_cycle_off_the_way_does_not_matter() {
    let mut g = open();
    let n: Vec<NodeId> = (0..4).map(|_| g.add_node("N", &none()).unwrap()).collect();
    for (a, b, w) in [(0, 3, 1.0), (0, 1, 5.0), (1, 2, 1.0), (2, 1, -2.0)] {
        g.add_edge(n[a], n[b], "R", &props(vec![("w", number(w))])).unwrap();
    }
    let w = weights(&mut g, &["w"]);
    for k in [1, 3] {
        let paths = g.shortest_path_top_k(&w, n[0], n[3], k);
        assert_eq!(paths.len(), 1);
        assert_eq!(paths[0].nodes, vec![n[0], n[3]]);
        assert_eq!(paths[0].total_weight.0, 1.0);
    }
    let round = g.shortest_path_top_k(&w, n[0], n[2], 1);
    assert_eq!(round[0].nodes, vec![n[0], n[1], n[2]]);
    assert_eq!(round[0].total_weight.0, 6.0);
}

#[test]
fn a_cycle_of_no_weight_hides_no_cheapest_path() {
    let mut g = open();
    let a = g.add_node("N", &none()).unwrap();
    let b = g.add_node("N", &none()).unwrap();
    let s = g.add_node("N", &none()).unwrap();
    g.add_edge(a, b, "E", &props(vec![("weight", number(0.0))])).unwrap();
    g.add_edge(b, a, "E", &props(vec![("weight", number(0.0))])).unwrap();
    g.add_edge(s, a, "E", &props(vec![("weight", number(1.0))])).unwrap();
    let path = dijkstra(&mut g, s, b).expect("the search came to it");
    assert_eq!(path.nodes, vec![s, a, b]);
    assert_eq!(path.total_weight, 1.0);

    let mut h = open();
    let n: Vec<NodeId> = (0..4).map(|_| h.add_node("N", &none()).unwrap()).collect();
    for (x, y, w) in [(0, 1, 0.0), (1, 0, 0.0), (2, 0, 3.0), (3, 2, -1.0)] {
        h.add_edge(n[x], n[y], "E", &props(vec![("weight", number(w))])).unwrap();
    }
    let path = dijkstra(&mut h, n[3], n[1]).expect("the rounds came to it");
    assert_eq!(path.nodes, vec![n[3], n[2], n[0], n[1]]);
    assert_eq!(path.total_weight, 2.0);
}
