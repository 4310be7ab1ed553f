use issundb_core::graph::Graph;
use issundb_core::schema::TriangleCountSpec;
use issundb_core::store::Store;
use issundb_core::tables::Props;
use issundb_core::value::PropValue;

fn open() -> Graph {
    Graph::open(Store::new())
}

fn props(entries: Vec<(&str, PropValue)>) -> Props {
    let mut out = Props::new();
    for (name, value) in entries {
        out.set(name, value);
    }
    out
}

fn spec_all<'a>(rel: &'a str, label: &'a str) -> TriangleCountSpec<'a> {
    TriangleCountSpec { rel_types: [Some(rel); 3], labels: [Some(label); 3] }
}

#[test]
fn single_cycle_counts_one_per_rotation() {
    let mut g = open();
    let a = g.add_node("Person", &props(vec![])).unwrap();
    let b = g.add_node("Person", &props(vec![])).unwrap();
    let c = g.add_node("Person", &props(vec![])).unwrap();
    g.add_edge(a, b, "KNOWS", &props(vec![])).unwrap();
    g.add_edge(b, c, "KNOWS", &props(vec![])).unwrap();
    g.add_edge(c, a, "KNOWS", &props(vec![])).unwrap();

    let n = g.count_triangle_cycles(&spec_all("KNOWS", "Person"));
    assert_eq!(n, 3);
}

#[test]
fn non_cyclic_orientation_does_not_count() {
    let mut g = open();
    let a = g.add_node("Person", &props(vec![])).unwrap();
    let b = g.add_node("Person", &props(vec![])).unwrap();
    let c = g.add_node("Person", &props(vec![])).unwrap();
    g.add_edge(a, b, "KNOWS", &props(vec![])).unwrap();
    g.add_edge(b, c, "KNOWS", &props(vec![])).unwrap();
    g.add_edge(a, c, "KNOWS", &props(vec![])).unwrap();

    let n = g.count_triangle_cycles(&spec_all("KNOWS", "Person"));
    assert_eq!(n, 0);
}

#[test]
fn parallel_edges_multiply() {
    let mut g = open();
    let a = g.add_node("Person", &props(vec![])).unwrap();
    let b = g.add_node("Person", &props(vec![])).unwrap();
    let c = g.add_node("Person", &props(vec![])).unwrap();
    g.add_edge(a, b, "KNOWS", &props(vec![])).unwrap();
    g.add_edge(a, b, "KNOWS", &props(vec![])).unwrap();
    g.add_edge(b, c, "KNOWS", &props(vec![])).unwrap();
    g.add_edge(c, a, "KNOWS", &props(vec![])).unwrap();

    let n = g.count_triangle_cycles(&spec_all("KNOWS", "Person"));
    assert_eq!(n, 6);
}

#[test]
fn per_hop_types_are_positional() {
    let mut g = open();
    let a = g.add_node("Person", &props(vec![])).unwrap();
    let b = g.add_node("Person", &props(vec![])).unwrap();
    let c = g.add_node("Person", &props(vec![])).unwrap();
    g.add_edge(a, b, "KNOWS", &props(vec![])).unwrap();
    g.add_edge(b, c, "KNOWS", &props(vec![])).unwrap();
    g.add_edge(c, a, "LIKES", &props(vec![])).unwrap();

    let homogeneous = g.count_triangle_cycles(&spec_all("KNOWS", "Person"));
    assert_eq!(homogeneous, 0);

    let mixed = g.count_triangle_cycles(&TriangleCountSpec {
            rel_types: [Some("KNOWS"), Some("KNOWS"), Some("LIKES")],
            labels: [Some("Person"); 3],
        });
    assert_eq!(mixed, 1);
}

#[test]
fn untyped_hops_match_any_type() {
    let mut g = open();
    let a = g.add_node("Person", &props(vec![])).unwrap();
    let b = g.add_node("Person", &props(vec![])).unwrap();
    let c = g.add_node("Person", &props(vec![])).unwrap();
    g.add_edge(a, b, "KNOWS", &props(vec![])).unwrap();
    g.add_edge(b, c, "LIKES", &props(vec![])).unwrap();
    g.add_edge(c, a, "FOLLOWS", &props(vec![])).unwrap();

    let n = g.count_triangle_cycles(&TriangleCountSpec {
            rel_types: [None; 3],
            labels: [Some("Person"); 3],
        });
    assert_eq!(n, 3);
}

#[test]
fn label_filter_applies_per_variable() {
    let mut g = open();
    let a = g.add_node("Person", &props(vec![])).unwrap();
    let b = g.add_node("Person", &props(vec![])).unwrap();
    let c = g.add_node("Robot", &props(vec![])).unwrap();
    g.add_edge(a, b, "KNOWS", &props(vec![])).unwrap();
    g.add_edge(b, c, "KNOWS", &props(vec![])).unwrap();
    g.add_edge(c, a, "KNOWS", &props(vec![])).unwrap();

    let strict = g.count_triangle_cycles(&spec_all("KNOWS", "Person"));
    assert_eq!(strict, 0);

    g.add_label(c, "Person").unwrap();
    let after = g.count_triangle_cycles(&spec_all("KNOWS", "Person"));
    assert_eq!(after, 3);

    let unlabeled = g.count_triangle_cycles(&TriangleCountSpec {
            rel_types: [Some("KNOWS"); 3],
            labels: [None; 3],
        });
    assert_eq!(unlabeled, 3);
}

#[test]
fn self_loop_assignments_respect_relationship_uniqueness() {
    let mut g = open();
    let a = g.add_node("Person", &props(vec![])).unwrap();
    g.add_edge(a, a, "KNOWS", &props(vec![])).unwrap();
    g.add_edge(a, a, "KNOWS", &props(vec![])).unwrap();

    let two = g.count_triangle_cycles(&spec_all("KNOWS", "Person"));
    assert_eq!(two, 0);

    g.add_edge(a, a, "KNOWS", &props(vec![])).unwrap();
    let three = g.count_triangle_cycles(&spec_all("KNOWS", "Person"));
    assert_eq!(three, 6);
}

#[test]
fn self_loop_with_two_cycle_counts_each_position() {
    let mut g = open();
    let x = g.add_node("Person", &props(vec![])).unwrap();
    let y = g.add_node("Person", &props(vec![])).unwrap();
    g.add_edge(x, x, "KNOWS", &props(vec![])).unwrap();
    g.add_edge(x, y, "KNOWS", &props(vec![])).unwrap();
    g.add_edge(y, x, "KNOWS", &props(vec![])).unwrap();

    let n = g.count_triangle_cycles(&spec_all("KNOWS", "Person"));
    assert_eq!(n, 3);
}

#[test]
fn unknown_type_or_label_counts_zero() {
    let mut g = open();
    let a = g.add_node("Person", &props(vec![])).unwrap();
    let b = g.add_node("Person", &props(vec![])).unwrap();
    let c = g.add_node("Person", &props(vec![])).unwrap();
    g.add_edge(a, b, "KNOWS", &props(vec![])).unwrap();
    g.add_edge(b, c, "KNOWS", &props(vec![])).unwrap();
    g.add_edge(c, a, "KNOWS", &props(vec![])).unwrap();

    assert_eq!(
        g.count_triangle_cycles(&spec_all("NOPE", "Person")),
        0
    );
    assert_eq!(
        g.count_triangle_cycles(&spec_all("KNOWS", "Ghost")),
        0
    );
}

#[test]
fn count_is_fresh_after_writes() {
    let mut g = open();
    let a = g.add_node("Person", &props(vec![])).unwrap();
    let b = g.add_node("Person", &props(vec![])).unwrap();
    let c = g.add_node("Person", &props(vec![])).unwrap();
    g.add_edge(a, b, "KNOWS", &props(vec![])).unwrap();
    g.add_edge(b, c, "KNOWS", &props(vec![])).unwrap();

    let before = g.count_triangle_cycles(&spec_all("KNOWS", "Person"));
    assert_eq!(before, 0);

    g.add_edge(c, a, "KNOWS", &props(vec![])).unwrap();
    let after = g.count_triangle_cycles(&spec_all("KNOWS", "Person"));
    assert_eq!(after, 3);
}

#[test]
fn empty_graph_counts_zero() {
    let mut g = open();
    assert_eq!(
        g.count_triangle_cycles(&spec_all("KNOWS", "Person")),
        0
    );
}
