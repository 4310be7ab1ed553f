use issundb_core::graph::Graph;
use issundb_core::store::Store;
use issundb_core::tables::Props;
use issundb_core::value::PropValue;

fn open() -> Graph {
    Graph::open(Store::new())
}

fn props(entries: Vec<(&str, PropValue)>) -> Props {
    let mut out = Props::new();
    for (name, value) in entries {
        out.set(name, value);
    }
    out
}

fn text(s: &str) -> PropValue {
    PropValue::Str(s.to_string())
}

#[test]
fn multi_label_add_and_query() {
    let mut g = open();
    let id = g.add_node_multi(&["A", "B", "C"], &props(vec![("x", PropValue::Int(1))])).unwrap();

    let mut labels = g.node_labels(id);
    labels.sort();
    assert_eq!(labels, vec!["A", "B", "C"]);

    assert_eq!(g.nodes_by_label("A"), vec![id]);
    assert_eq!(g.nodes_by_label("B"), vec![id]);
    assert_eq!(g.nodes_by_label("C"), vec![id]);
    assert_eq!(g.node_count_by_label("B"), 1);
}

#[test]
fn multi_label_empty_creates_unlabeled_node() {
    let mut g = open();
    let id = g.add_node_multi(&[], &props(vec![("x", PropValue::Int(1))])).unwrap();
    assert!(g.node_labels(id).is_empty());
    assert!(g.get_node(id).unwrap().labels.is_empty());
}

#[test]
fn multi_label_dedups() {
    let mut g = open();
    let id = g.add_node_multi(&["A", "A", "B"], &props(vec![])).unwrap();
    assert_eq!(g.get_node(id).unwrap().labels.len(), 2);
}

#[test]
fn add_label_is_idempotent_and_additive() {
    let mut g = open();
    let id = g.add_node("A", &props(vec![("x", PropValue::Int(1))])).unwrap();

    g.add_label(id, "B").unwrap();
    g.add_label(id, "B").unwrap();

    let mut labels = g.node_labels(id);
    labels.sort();
    assert_eq!(labels, vec!["A", "B"]);
    assert_eq!(g.nodes_by_label("B"), vec![id]);
    assert_eq!(g.node_count_by_label("B"), 1);
}

#[test]
fn remove_label_drops_one_keeps_rest() {
    let mut g = open();
    let id = g.add_node_multi(&["A", "B"], &props(vec![])).unwrap();

    g.remove_label(id, "A");

    assert_eq!(g.node_labels(id), vec!["B"]);
    assert!(g.nodes_by_label("A").is_empty());
    assert_eq!(g.nodes_by_label("B"), vec![id]);
    assert_eq!(g.node_count_by_label("A"), 0);
}

#[test]
fn remove_label_missing_is_noop() {
    let mut g = open();
    let id = g.add_node("A", &props(vec![])).unwrap();
    g.remove_label(id, "Nonexistent");
    g.remove_label(id, "B");
    assert_eq!(g.node_labels(id), vec!["A"]);
}

#[test]
fn label_mutation_updates_property_index() {
    let mut g = open();
    let id = g.add_node("A", &props(vec![("age", PropValue::Int(30))])).unwrap();

    g.add_label(id, "B").unwrap();
    assert_eq!(
        g.nodes_by_property("B", "age", &PropValue::Int(30)),
        vec![id]
    );

    g.remove_label(id, "B");
    assert!(
        g.nodes_by_property("B", "age", &PropValue::Int(30))
            .is_empty()
    );
    assert_eq!(
        g.nodes_by_property("A", "age", &PropValue::Int(30)),
        vec![id]
    );
}

#[test]
fn delete_multi_label_node_clears_all_indexes() {
    let mut g = open();
    let id = g.add_node_multi(&["A", "B"], &props(vec![])).unwrap();
    g.delete_node(id);
    assert!(g.nodes_by_label("A").is_empty());
    assert!(g.nodes_by_label("B").is_empty());
    assert_eq!(g.node_count_by_label("A"), 0);
    assert_eq!(g.node_count_by_label("B"), 0);
}

#[test]
fn auto_index_on_insert() {
    let mut g = open();

    let node_id = g.add_node("Person", &props(vec![("name", text("Alice")), ("age", PropValue::Int(30))])).unwrap();

    let hits = g.nodes_by_property("Person", "age", &PropValue::Int(30));
    assert_eq!(hits, vec![node_id]);

    assert!(g.has_node_property_index("Person", "age"));
    assert!(g.has_node_property_index("Person", "name"));
}

#[test]
fn auto_index_on_update() {
    let mut g = open();

    let node_id = g.add_node("Person", &props(vec![("name", text("Bob")), ("age", PropValue::Int(25))])).unwrap();

    g.update_node(node_id, &props(vec![("name", text("Bob")), ("age", PropValue::Int(26))])).unwrap();

    let old_hits = g.nodes_by_property("Person", "age", &PropValue::Int(25));
    assert!(old_hits.is_empty());

    let new_hits = g.nodes_by_property("Person", "age", &PropValue::Int(26));
    assert_eq!(new_hits, vec![node_id]);
}

#[test]
fn auto_index_on_delete() {
    let mut g = open();

    let node_id = g.add_node("Person", &props(vec![("name", text("Carol")), ("age", PropValue::Int(40))])).unwrap();

    g.delete_node(node_id);

    let hits = g.nodes_by_property("Person", "age", &PropValue::Int(40));
    assert!(hits.is_empty());
}
