use issundb_core::graph::Graph;
use issundb_core::schema::{NeighborCountSpec, NodeId};
use issundb_core::store::Store;
use issundb_core::tables::Props;
use issundb_core::value::PropValue;

fn open() -> Graph {
    Graph::open(Store::new())
}

fn props(entries: Vec<(&str, PropValue)>) -> Props {
    let mut out = Props::new();
    for (name, value) in entries {
        out.set(name, value);
    }
    out
}

fn text(s: &str) -> PropValue {
    PropValue::Str(s.to_string())
}

fn fixture() -> (Graph, Vec<NodeId>) {
    let mut g = open();
    let a = g.add_node("Person", &props(vec![("tag", text("a"))])).unwrap();
    let b = g.add_node("Person", &props(vec![("tag", text("b"))])).unwrap();
    let c = g.add_node("Person", &props(vec![])).unwrap();
    let d = g.add_node("Robot", &props(vec![("tag", text("d"))])).unwrap();
    for (s, t) in [(a, b), (a, b), (a, c), (a, a), (b, c)] {
        g.add_edge(s, t, "FOLLOWS", &props(vec![])).unwrap();
    }
    g.add_edge(a, d, "FOLLOWS", &props(vec![])).unwrap();
    g.add_edge(a, b, "BLOCKS", &props(vec![])).unwrap();
    g.rebuild_csr();
    (g, vec![a, b, c, d])
}

fn spec<'a>(
    rel_type: Option<&'a str>,
    incoming: bool,
    labels: &'a [&'a str],
    nonnull: Option<&'a str>,
) -> NeighborCountSpec<'a> {
    NeighborCountSpec {
        rel_type,
        incoming,
        neighbor_labels: labels,
        neighbor_allow: None,
        neighbor_nonnull_prop: nonnull,
    }
}

#[test]
fn a_nonnull_count_over_few_neighbors_does_not_build_the_columns() {
    let (mut g, ids) = fixture();
    let (a, b) = (ids[0], ids[1]);
    let counts = g.typed_neighbor_counts(
            &[a, b],
            &spec(Some("FOLLOWS"), false, &["Person"], Some("tag")),
        );
    assert_eq!(counts, vec![(4, 3), (1, 0)]);
}

#[test]
fn presence_is_resolved_per_visited_neighbor() {
    let (mut g, ids) = fixture();
    let a = ids[0];

    let counts = g.typed_neighbor_counts(
            &[a],
            &spec(Some("FOLLOWS"), false, &["Person"], Some("tag")),
        );
    assert_eq!(
        counts,
        vec![(4, 3)],
        "the neighbor with no `tag` must not be counted"
    );
}

#[test]
fn allow_set_intersects_with_the_labels() {
    let (mut g, ids) = fixture();
    let (a, b, c, d) = (ids[0], ids[1], ids[2], ids[3]);

    let allow = [b, c];
    let narrowed = NeighborCountSpec {
        rel_type: Some("FOLLOWS"),
        incoming: false,
        neighbor_labels: &[],
        neighbor_allow: Some(&allow),
        neighbor_nonnull_prop: None,
    };
    assert_eq!(
        g.typed_neighbor_counts(&[a], &narrowed),
        vec![(3, 3)]
    );

    let allow_d = [d];
    let with_label = NeighborCountSpec {
        rel_type: Some("FOLLOWS"),
        incoming: false,
        neighbor_labels: &["Person"],
        neighbor_allow: Some(&allow_d),
        neighbor_nonnull_prop: None,
    };
    assert_eq!(
        g.typed_neighbor_counts(&[a], &with_label),
        vec![(0, 0)]
    );

    let empty = NeighborCountSpec {
        rel_type: Some("FOLLOWS"),
        incoming: false,
        neighbor_labels: &[],
        neighbor_allow: Some(&[]),
        neighbor_nonnull_prop: None,
    };
    assert_eq!(g.typed_neighbor_counts(&[a], &empty), vec![(0, 0)]);
    let unknown = [b, d + 9999];
    let with_unknown = NeighborCountSpec {
        rel_type: Some("FOLLOWS"),
        incoming: false,
        neighbor_labels: &[],
        neighbor_allow: Some(&unknown),
        neighbor_nonnull_prop: None,
    };
    assert_eq!(
        g.typed_neighbor_counts(&[a], &with_unknown),
        vec![(2, 2)]
    );

    let allow_bc = [b, c];
    let tagged = NeighborCountSpec {
        rel_type: Some("FOLLOWS"),
        incoming: false,
        neighbor_labels: &[],
        neighbor_allow: Some(&allow_bc),
        neighbor_nonnull_prop: Some("tag"),
    };
    assert_eq!(
        g.typed_neighbor_counts(&[a], &tagged),
        vec![(3, 2)]
    );
}

#[test]
fn adjacency_span_bounds_the_visited_edges() {
    let (mut g, ids) = fixture();
    let (a, b, d) = (ids[0], ids[1], ids[3]);

    assert_eq!(g.adjacency_span(&[a], false), 6);
    assert_eq!(g.adjacency_span(&[a, b], false), 7);
    assert_eq!(g.adjacency_span(&[a], true), 1);
    assert_eq!(g.adjacency_span(&[b], true), 3);
    assert_eq!(g.adjacency_span(&[d], true), 1);

    let typed = g.typed_neighbor_counts(&[a, b], &spec(Some("FOLLOWS"), false, &[], None));
    let counted: u64 = typed.iter().map(|(q, _)| q).sum();
    assert!(counted <= g.adjacency_span(&[a, b], false));

    assert_eq!(g.adjacency_span(&[d + 9999], false), 0);
    assert_eq!(g.adjacency_span(&[], false), 0);
}

#[test]
fn counts_each_edge_in_both_directions() {
    let (mut g, ids) = fixture();
    let (a, b, c, d) = (ids[0], ids[1], ids[2], ids[3]);

    let out = g.typed_neighbor_counts(&[a, b, c, d], &spec(Some("FOLLOWS"), false, &[], None));
    assert_eq!(out, vec![(5, 5), (1, 1), (0, 0), (0, 0)]);

    let inc = g.typed_neighbor_counts(&[a, b, c, d], &spec(Some("FOLLOWS"), true, &[], None));
    assert_eq!(inc, vec![(1, 1), (2, 2), (2, 2), (1, 1)]);

    let any = g.typed_neighbor_counts(&[a], &spec(None, false, &[], None));
    assert_eq!(any, vec![(6, 6)]);
}

#[test]
fn labels_and_types_narrow_the_count() {
    let (mut g, ids) = fixture();
    let (a, b) = (ids[0], ids[1]);
    g.add_label(b, "Vip").unwrap();
    g.rebuild_csr();

    let person = g.typed_neighbor_counts(&[a], &spec(Some("FOLLOWS"), false, &["Person"], None));
    assert_eq!(person, vec![(4, 4)]);

    let vip = g.typed_neighbor_counts(
            &[a],
            &spec(Some("FOLLOWS"), false, &["Person", "Vip"], None),
        );
    assert_eq!(vip, vec![(2, 2)]);

    for unknown in [
        spec(Some("NOPE"), false, &[], None),
        spec(Some("FOLLOWS"), false, &["Nope"], None),
    ] {
        assert_eq!(
            g.typed_neighbor_counts(&[a], &unknown),
            vec![(0, 0)]
        );
    }
}

#[test]
fn nonnull_property_narrows_only_the_counted_total() {
    let (mut g, ids) = fixture();
    let (a, b) = (ids[0], ids[1]);

    let tagged = g.typed_neighbor_counts(
            &[a],
            &spec(Some("FOLLOWS"), false, &["Person"], Some("tag")),
        );
    assert_eq!(tagged, vec![(4, 3)]);

    let untagged = g.typed_neighbor_counts(&[b], &spec(Some("FOLLOWS"), false, &[], Some("tag")));
    assert_eq!(untagged, vec![(1, 0)]);

    let absent = g.typed_neighbor_counts(&[a], &spec(Some("FOLLOWS"), false, &[], Some("nope")));
    assert_eq!(absent, vec![(5, 0)]);
}

#[test]
fn nonnull_filter_agrees_when_the_mask_is_skipped() {
    let mut g = open();
    let ids: Vec<NodeId> = (0..4)
        .map(|i| g.add_node("P", &props(vec![("k", PropValue::Int(i))])).unwrap())
        .collect();
    for &(s, d) in &[(0, 1), (0, 2), (0, 3), (1, 2)] {
        g.add_edge(ids[s], ids[d], "F", &props(vec![])).unwrap();
    }
    g.rebuild_csr();

    let unfiltered = g.typed_neighbor_counts(&ids, &spec(Some("F"), false, &[], None));
    let all_present = g.typed_neighbor_counts(&ids, &spec(Some("F"), false, &[], Some("k")));
    assert_eq!(
        unfiltered, all_present,
        "an all-present column filters nothing"
    );
    assert_eq!(unfiltered[0], (3, 3), "the first node has three neighbors");

    g.update_node(ids[2], &props(vec![])).unwrap();
    g.rebuild_csr();
    let with_null = g.typed_neighbor_counts(&ids, &spec(Some("F"), false, &[], Some("k")));
    assert_eq!(
        with_null[0],
        (3, 2),
        "the neighbor that lost `k` no longer counts"
    );
    assert_eq!(
        g.typed_neighbor_counts(&ids, &spec(Some("F"), false, &[], None)),
        unfiltered
    );
}

#[test]
fn preserves_input_order_and_tolerates_unknown_sources() {
    let (mut g, ids) = fixture();
    let (a, b) = (ids[0], ids[1]);
    let missing = ids[3] + 9999;

    let out = g.typed_neighbor_counts(
            &[b, missing, a, b],
            &spec(Some("FOLLOWS"), false, &[], None),
        );
    assert_eq!(out, vec![(1, 1), (0, 0), (5, 5), (1, 1)]);

    assert!(
        g.typed_neighbor_counts(&[], &spec(None, false, &[], None))
            .is_empty()
    );
}

struct Draws(u64);

impl Draws {
    fn below(&mut self, n: usize) -> usize {
        self.0 = self.0.wrapping_mul(6364136223846793005).wrapping_add(1442695040888963407);
        ((self.0 >> 33) as usize) % n
    }
}

fn agrees_with_an_expansion(
    n_nodes: usize,
    edges: &[(usize, usize)],
    has_tag: &[bool],
    is_vip: &[bool],
) {
    let mut g = open();
    let mut ids: Vec<NodeId> = Vec::new();
    for i in 0..n_nodes {
        let own = if has_tag[i] {
            props(vec![("tag", PropValue::Int(i as i64))])
        } else {
            props(vec![])
        };
        ids.push(if is_vip[i] {
            g.add_node_multi(&["Person", "Vip"], &own).unwrap()
        } else {
            g.add_node("Person", &own).unwrap()
        });
    }
    for &(s, d) in edges {
        if s < n_nodes && d < n_nodes {
            g.add_edge(ids[s], ids[d], "F", &props(vec![])).unwrap();
        }
    }
    g.rebuild_csr();

    for incoming in [false, true] {
        for labels in [&[][..], &["Vip"][..]] {
            for nonnull in [None, Some("tag")] {
                let spec = NeighborCountSpec {
                    rel_type: Some("F"),
                    incoming,
                    neighbor_labels: labels,
                    neighbor_allow: None,
                    neighbor_nonnull_prop: nonnull,
                };
                let got = g.typed_neighbor_counts(&ids, &spec);
                for (i, &src) in ids.iter().enumerate() {
                    let neighbors = if incoming { g.in_neighbors(src) } else { g.out_neighbors(src) };
                    let mut qualifying = 0u64;
                    let mut counted = 0u64;
                    for nb in neighbors {
                        let idx = ids.iter().position(|x| *x == nb.node).unwrap();
                        if !labels.is_empty() && !is_vip[idx] {
                            continue;
                        }
                        qualifying += 1;
                        if nonnull.is_none() || has_tag[idx] {
                            counted += 1;
                        }
                    }
                    assert_eq!(
                        got[i],
                        (qualifying, counted),
                        "source {i}, incoming={incoming}, labels={labels:?}, nonnull={nonnull:?}"
                    );
                }
            }
        }
    }
}

#[test]
fn matches_a_materialized_expansion() {
    let mut draws = Draws(7);
    for _ in 0..32 {
        let n_nodes = 1 + draws.below(6);
        let n_edges = draws.below(24);
        let edges: Vec<(usize, usize)> =
            (0..n_edges).map(|_| (draws.below(6), draws.below(6))).collect();
        let has_tag: Vec<bool> = (0..6).map(|_| draws.below(2) == 1).collect();
        let is_vip: Vec<bool> = (0..6).map(|_| draws.below(2) == 1).collect();
        agrees_with_an_expansion(n_nodes, &edges, &has_tag, &is_vip);
    }
}
