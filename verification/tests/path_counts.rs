use issundb_core::graph::Graph;
use issundb_core::schema::{NodeId, PathCountSpec};
use issundb_core::store::Store;
use issundb_core::tables::Props;
use issundb_core::value::PropValue;

fn open() -> Graph {
    Graph::open(Store::new())
}

fn props(entries: Vec<(&str, PropValue)>) -> Props {
    let mut out = Props::new();
    for (name, value) in entries {
        out.set(name, value);
    }
    out
}

fn spec(
    rels: &[Option<&'static str>],
    labels: &[Option<&'static str>],
) -> PathCountSpec<'static> {
    PathCountSpec {
        rel_types: rels.to_vec(),
        labels: labels.to_vec(),
        vertex_allow: Vec::new(),
    }
}

#[test]
fn two_hop_allow_set_restricts_middle_and_dest() {
    let mut g = open();
    let p: Vec<_> = (0..5)
        .map(|i| {
            g.add_node("Person", &props(vec![("age", PropValue::Int(20 + i * 10))])).unwrap()
        })
        .collect();
    let edges = [(0, 1), (0, 2), (1, 2), (1, 3), (2, 3), (2, 4), (3, 4)];
    for &(s, d) in &edges {
        g.add_edge(p[s], p[d], "FOLLOWS", &props(vec![])).unwrap();
    }

    let mid = [p[1], p[2]];
    let dst = [p[3], p[4]];
    let mut expected = 0u64;
    for &(_s1, d1) in &edges {
        if !mid.contains(&p[d1]) {
            continue;
        }
        for &(s2, d2) in &edges {
            if p[s2] == p[d1] && dst.contains(&p[d2]) {
                expected += 1;
            }
        }
    }
    assert!(expected > 0, "test graph must have qualifying paths");

    let filtered = PathCountSpec {
        rel_types: vec![Some("FOLLOWS"), Some("FOLLOWS")],
        labels: vec![Some("Person"), Some("Person"), Some("Person")],
        vertex_allow: vec![None, Some(mid.to_vec()), Some(dst.to_vec())],
    };
    assert_eq!(g.count_linear_paths(&filtered), expected);

    let unfiltered = g.count_linear_paths(&spec(
            &[Some("FOLLOWS"), Some("FOLLOWS")],
            &[Some("Person"); 3],
        ));
    assert!(unfiltered > expected);
}

#[test]
fn one_hop_counts_typed_edges() {
    let mut g = open();
    let a = g.add_node("Person", &props(vec![])).unwrap();
    let b = g.add_node("Person", &props(vec![])).unwrap();
    let c = g.add_node("Person", &props(vec![])).unwrap();
    g.add_edge(a, b, "KNOWS", &props(vec![])).unwrap();
    g.add_edge(a, c, "KNOWS", &props(vec![])).unwrap();

    let n = g.count_linear_paths(&spec(&[Some("KNOWS")], &[Some("Person"), Some("Person")]));
    assert_eq!(n, 2);
}

#[test]
fn one_hop_label_filter_excludes_endpoint() {
    let mut g = open();
    let a = g.add_node("Person", &props(vec![])).unwrap();
    let b = g.add_node("Person", &props(vec![])).unwrap();
    let c = g.add_node("City", &props(vec![])).unwrap();
    g.add_edge(a, b, "KNOWS", &props(vec![])).unwrap();
    g.add_edge(a, c, "KNOWS", &props(vec![])).unwrap();

    let n = g.count_linear_paths(&spec(&[Some("KNOWS")], &[Some("Person"), Some("Person")]));
    assert_eq!(n, 1);
}

#[test]
fn two_hop_distinct_nodes_count_once() {
    let mut g = open();
    let a = g.add_node("Person", &props(vec![])).unwrap();
    let b = g.add_node("Person", &props(vec![])).unwrap();
    let c = g.add_node("Person", &props(vec![])).unwrap();
    g.add_edge(a, b, "KNOWS", &props(vec![])).unwrap();
    g.add_edge(b, c, "KNOWS", &props(vec![])).unwrap();

    let n = g.count_linear_paths(&spec(
            &[Some("KNOWS"), Some("KNOWS")],
            &[Some("Person"), Some("Person"), Some("Person")],
        ));
    assert_eq!(n, 1);
}

#[test]
fn two_hop_parallel_edges_multiply() {
    let mut g = open();
    let a = g.add_node("Person", &props(vec![])).unwrap();
    let b = g.add_node("Person", &props(vec![])).unwrap();
    let c = g.add_node("Person", &props(vec![])).unwrap();
    g.add_edge(a, b, "KNOWS", &props(vec![])).unwrap();
    g.add_edge(a, b, "KNOWS", &props(vec![])).unwrap();
    g.add_edge(b, c, "KNOWS", &props(vec![])).unwrap();

    let n = g.count_linear_paths(&spec(
            &[Some("KNOWS"), Some("KNOWS")],
            &[Some("Person"), Some("Person"), Some("Person")],
        ));
    assert_eq!(n, 2);
}

#[test]
fn two_hop_self_loop_respects_relationship_uniqueness() {
    let mut g = open();
    let x = g.add_node("Person", &props(vec![])).unwrap();
    let y = g.add_node("Person", &props(vec![])).unwrap();
    g.add_edge(x, x, "KNOWS", &props(vec![])).unwrap();
    g.add_edge(x, y, "KNOWS", &props(vec![])).unwrap();

    let n = g.count_linear_paths(&spec(
            &[Some("KNOWS"), Some("KNOWS")],
            &[Some("Person"), Some("Person"), Some("Person")],
        ));
    assert_eq!(n, 1);
}

#[test]
fn two_hop_parallel_self_loops_each_remove_one_assignment() {
    let mut g = open();
    let w = g.add_node("Person", &props(vec![])).unwrap();
    let x = g.add_node("Person", &props(vec![])).unwrap();
    let y = g.add_node("Person", &props(vec![])).unwrap();
    g.add_edge(w, x, "KNOWS", &props(vec![])).unwrap();
    g.add_edge(x, x, "KNOWS", &props(vec![])).unwrap();
    g.add_edge(x, x, "KNOWS", &props(vec![])).unwrap();
    g.add_edge(x, y, "KNOWS", &props(vec![])).unwrap();

    let n = g.count_linear_paths(&spec(&[Some("KNOWS"), Some("KNOWS")], &[Some("Person"); 3]));
    assert_eq!(n, 7);
}

#[test]
fn two_hop_self_loop_of_one_type_does_not_correct_a_mixed_type_pattern() {
    let mut g = open();
    let w = g.add_node("Person", &props(vec![])).unwrap();
    let x = g.add_node("Person", &props(vec![])).unwrap();
    let y = g.add_node("Person", &props(vec![])).unwrap();
    g.add_edge(w, x, "KNOWS", &props(vec![])).unwrap();
    g.add_edge(x, x, "KNOWS", &props(vec![])).unwrap();
    g.add_edge(x, y, "LIKES", &props(vec![])).unwrap();

    let n = g.count_linear_paths(&spec(&[Some("KNOWS"), Some("LIKES")], &[Some("Person"); 3]));
    assert_eq!(n, 2);
}

#[test]
fn two_hop_count_matches_brute_force_over_mixed_graph() {
    let mut g = open();
    let people: Vec<_> = (0..6)
        .map(|_| g.add_node("Person", &props(vec![])).unwrap())
        .collect();
    let city = g.add_node("City", &props(vec![])).unwrap();

    let spec_edges: &[(usize, usize, &str)] = &[
        (0, 1, "KNOWS"),
        (0, 1, "KNOWS"),
        (1, 1, "KNOWS"),
        (1, 1, "KNOWS"),
        (1, 2, "KNOWS"),
        (1, 2, "LIKES"),
        (2, 3, "KNOWS"),
        (2, 2, "LIKES"),
        (3, 4, "KNOWS"),
        (4, 5, "KNOWS"),
        (5, 0, "KNOWS"),
        (1, 6, "KNOWS"),
        (6, 2, "KNOWS"),
    ];
    let all: Vec<_> = people
        .iter()
        .copied()
        .chain(std::iter::once(city))
        .collect();
    let mut edges = Vec::new();
    for &(s, d, t) in spec_edges {
        let id = g.add_edge(all[s], all[d], t, &props(vec![])).unwrap();
        edges.push((all[s], all[d], t, id));
    }

    let is_person = |n| n != city;
    for (t1, t2) in [
        (Some("KNOWS"), Some("KNOWS")),
        (Some("KNOWS"), Some("LIKES")),
        (Some("LIKES"), Some("KNOWS")),
        (None, None),
    ] {
        let mut expected = 0u64;
        for &(s1, d1, ty1, e1) in &edges {
            if t1.is_some_and(|t| t != ty1) || !is_person(s1) || !is_person(d1) {
                continue;
            }
            for &(s2, d2, ty2, e2) in &edges {
                if t2.is_some_and(|t| t != ty2) || !is_person(d2) {
                    continue;
                }
                if s2 == d1 && e2 != e1 {
                    expected += 1;
                }
            }
        }
        let got = g.count_linear_paths(&spec(&[t1, t2], &[Some("Person"); 3]));
        assert_eq!(
            got, expected,
            "kernel disagreed with brute force for hops ({t1:?}, {t2:?})"
        );
    }
}

#[test]
fn unknown_relationship_type_counts_zero() {
    let mut g = open();
    let a = g.add_node("Person", &props(vec![])).unwrap();
    let b = g.add_node("Person", &props(vec![])).unwrap();
    g.add_edge(a, b, "KNOWS", &props(vec![])).unwrap();

    let n = g.count_linear_paths(&spec(&[Some("LIKES")], &[Some("Person"), Some("Person")]));
    assert_eq!(n, 0);
}

#[test]
fn two_hop_count_is_thread_count_invariant() {
    let mut g = open();
    let ids: Vec<NodeId> = (0..9)
        .map(|i| {
            if i == 8 {
                g.add_node("Robot", &props(vec![("n", PropValue::Int(i))])).unwrap()
            } else {
                g.add_node("Person", &props(vec![("n", PropValue::Int(i))])).unwrap()
            }
        })
        .collect();
    for &(a, b) in &[
        (0, 1),
        (1, 2),
        (2, 3),
        (0, 2),
        (0, 2),
        (3, 3),
        (3, 4),
        (4, 5),
        (5, 6),
        (6, 7),
        (7, 8),
        (8, 0),
    ] {
        g.add_edge(ids[a], ids[b], "F", &props(vec![])).unwrap();
    }
    g.add_edge(ids[1], ids[2], "B", &props(vec![])).unwrap();
    g.rebuild_csr();

    let specs = [
        PathCountSpec {
            rel_types: vec![Some("F"), Some("F")],
            labels: vec![None, None, None],
            vertex_allow: Vec::new(),
        },
        PathCountSpec {
            rel_types: vec![Some("F"), Some("F")],
            labels: vec![Some("Person"); 3],
            vertex_allow: Vec::new(),
        },
        PathCountSpec {
            rel_types: vec![Some("B"), Some("F")],
            labels: vec![None, None, None],
            vertex_allow: Vec::new(),
        },
        PathCountSpec {
            rel_types: vec![None, None],
            labels: vec![None, Some("Person"), None],
            vertex_allow: Vec::new(),
        },
    ];

    for spec in &specs {
        g.set_thread_count(1);
        let serial = g.count_linear_paths(spec);
        for threads in [2usize, 3, 5, 16] {
            g.set_thread_count(threads);
            let parallel = g.count_linear_paths(spec);
            assert_eq!(
                serial, parallel,
                "two-hop count changed at {threads} threads (serial {serial})"
            );
        }
        g.set_thread_count(1);
        assert!(
            serial > 0,
            "fixture must produce paths for a meaningful check"
        );
    }
}

#[test]
fn same_label_variables_do_not_share_a_mutated_mask() {
    let mut g = open();
    let ids: Vec<NodeId> = (0..4)
        .map(|i| g.add_node("P", &props(vec![("k", PropValue::Int(i))])).unwrap())
        .collect();
    for &(a, b) in &[(0, 1), (1, 2), (2, 3), (0, 2)] {
        g.add_edge(ids[a], ids[b], "F", &props(vec![])).unwrap();
    }
    g.rebuild_csr();

    let base = PathCountSpec {
        rel_types: vec![Some("F"), Some("F")],
        labels: vec![Some("P"); 3],
        vertex_allow: Vec::new(),
    };
    assert_eq!(g.count_linear_paths(&base), 3);

    let middle_only = PathCountSpec {
        rel_types: vec![Some("F"), Some("F")],
        labels: vec![Some("P"); 3],
        vertex_allow: vec![None, Some(vec![ids[2]]), None],
    };
    assert_eq!(
        g.count_linear_paths(&middle_only),
        2,
        "an allow-set on the middle variable must not constrain the others"
    );

    let per_variable = PathCountSpec {
        rel_types: vec![Some("F"), Some("F")],
        labels: vec![Some("P"); 3],
        vertex_allow: vec![
            Some(vec![ids[0]]),
            Some(vec![ids[1], ids[2]]),
            Some(vec![ids[2]]),
        ],
    };
    assert_eq!(g.count_linear_paths(&per_variable), 1);
}
