use issundb_core::error::Error;
use issundb_core::graph::Graph;
use issundb_core::keys::{
    composite_key, fts_doc_key, fts_posting_val, fts_postings_key, fts_stats_n_key,
    fts_stats_sum_dl_key, node_prop_index_key, parse_fts_doc_val, parse_fts_posting_val,
};
use issundb_core::store::Store;
use issundb_core::tables::Props;
use issundb_core::value::{encode_property_value, float_bits, identity_bytes, PropValue};

fn open() -> Graph {
    Graph::open(Store::new())
}

fn props(entries: Vec<(&str, PropValue)>) -> Props {
    let mut out = Props::new();
    for (name, value) in entries {
        out.set(name, value);
    }
    out
}

fn text(s: &str) -> PropValue {
    PropValue::Str(s.to_string())
}

fn float(x: f64) -> PropValue {
    PropValue::Float(x.to_bits())
}

fn encoded(v: &PropValue) -> Vec<u8> {
    encode_property_value(v).unwrap()
}

#[test]
fn encodings_sort_as_the_values_do() {
    let ascending = [
        float(f64::NEG_INFINITY),
        PropValue::Int(i64::MIN),
        float(-2.5),
        PropValue::Int(-2),
        PropValue::Int(0),
        float(0.5),
        PropValue::Int(1),
        PropValue::Int((1 << 53) + 1),
        PropValue::UInt(u64::MAX),
        float(f64::INFINITY),
    ];
    for pair in ascending.windows(2) {
        assert!(encoded(&pair[0]) < encoded(&pair[1]), "{pair:?}");
    }
    assert!(encoded(&text("a")) < encoded(&text("a\u{0}")));
    assert!(encoded(&text("a\u{0}")) < encoded(&text("ab")));
}

#[test]
fn integers_round_to_the_nearest_float() {
    for i in [0, 1, -1, 30, i64::MAX, i64::MIN, (1 << 53) + 1, (1 << 53) + 3, -(1 << 54) - 2] {
        assert_eq!(float_bits(i), (i as f64).to_bits(), "{i}");
    }
}

#[test]
fn equal_values_have_equal_identities() {
    assert_eq!(identity_bytes(&PropValue::Int(30)), identity_bytes(&float(30.0)));
    assert_ne!(identity_bytes(&PropValue::Int(30)), identity_bytes(&text("30")));
    assert_ne!(
        identity_bytes(&text(&"x".repeat(600))),
        identity_bytes(&text(&"x".repeat(601)))
    );
}

#[test]
fn keys_are_big_endian() {
    assert_eq!(composite_key(1, 2), [0, 0, 0, 1, 0, 0, 0, 0, 0, 0, 0, 2]);
    assert_eq!(
        node_prop_index_key(1, 2, &[9, 8], 3),
        vec![0, 0, 0, 1, 0, 0, 0, 2, 9, 8, 0, 0, 0, 0, 0, 0, 0, 3]
    );
    assert_eq!(fts_doc_key(1, 2, 3), [0, 0, 0, 1, 0, 0, 0, 2, 0, 0, 0, 0, 0, 0, 0, 3]);
    assert_eq!(fts_postings_key(1, 2, "ab"), vec![0, 0, 0, 1, 0, 0, 0, 2, b'a', b'b']);
    assert_eq!(fts_stats_n_key(12, 0), "fts_stats:node:l:12:p:0:N");
    assert_eq!(fts_stats_sum_dl_key(0, 345), "fts_stats:node:l:0:p:345:sum_dl");
}

#[test]
fn what_was_written_is_read_back() {
    let val = fts_posting_val(7, 5);
    assert_eq!(parse_fts_posting_val(&val), Ok((7, 5)));
    assert!(matches!(parse_fts_posting_val(&val[1..]), Err(Error::Corrupt(_))));
    assert_eq!(parse_fts_doc_val(&[0, 0, 1, 2]), Ok(258));
    assert!(matches!(parse_fts_doc_val(&[0, 0, 1]), Err(Error::Corrupt(_))));
}

#[test]
fn an_added_node_is_found_and_a_deleted_one_is_not() {
    let mut g = open();
    let id = g.add_node("L", &props(vec![("k", PropValue::Int(5)), ("s", text("x"))])).unwrap();
    assert_eq!(g.nodes_by_property("L", "k", &float(5.0)), vec![id]);
    assert_eq!(g.nodes_by_property("L", "s", &text("x")), vec![id]);
    g.update_node(id, &props(vec![("k", PropValue::Int(6))])).unwrap();
    assert!(g.nodes_by_property("L", "k", &PropValue::Int(5)).is_empty());
    assert!(g.nodes_by_property("L", "s", &text("x")).is_empty());
    assert_eq!(g.nodes_by_property("L", "k", &PropValue::Int(6)), vec![id]);
    g.delete_node(id);
    assert!(g.nodes_by_property("L", "k", &PropValue::Int(6)).is_empty());
    assert!(g.get_node(id).is_none());
}

#[test]
fn ids_are_not_given_twice() {
    let mut g = open();
    let a = g.add_node("L", &props(vec![])).unwrap();
    let e = g.add_edge(a, a, "R", &props(vec![])).unwrap();
    g.delete_node(a);
    assert!(g.get_edge(e).is_none());
    let b = g.add_node("L", &props(vec![])).unwrap();
    assert!(b > a);
    assert!(g.add_edge(b, b, "R", &props(vec![])).unwrap() > e);
}

#[test]
fn no_write_breaks_a_constraint() {
    let mut g = open();
    g.create_node_unique_constraint("L", "k").unwrap();
    g.create_node_required_constraint("L", "r").unwrap();
    let row = |k: i64, r: i64| props(vec![("k", PropValue::Int(k)), ("r", PropValue::Int(r))]);
    let a = g.add_node("L", &row(1, 1)).unwrap();
    let b = g.add_node("L", &row(2, 1)).unwrap();
    assert_eq!(
        g.add_node("L", &row(1, 1)),
        Err(Error::UniqueConstraintViolation {
            scope: "L".to_string(),
            property: "k".to_string(),
            value: PropValue::Int(1),
        })
    );
    assert_eq!(
        g.add_node("L", &props(vec![("k", PropValue::Int(3))])),
        Err(Error::RequiredConstraintViolation {
            scope: "L".to_string(),
            property: "r".to_string(),
        })
    );
    assert!(g.update_node(b, &row(1, 1)).is_err());
    g.update_node(b, &row(2, 9)).unwrap();
    let c = g.add_node("M", &row(1, 1)).unwrap();
    assert!(g.add_label(c, "L").is_err());
    assert_eq!(g.node_labels(c), vec!["M"]);
    g.delete_node(a);
    g.add_label(c, "L").unwrap();
    assert_eq!(g.nodes_by_label("L"), vec![b, c]);
}

#[test]
fn a_missing_item_is_reported() {
    let mut g = open();
    assert_eq!(g.update_node(4, &props(vec![])), Err(Error::NodeNotFound(4)));
    assert_eq!(g.add_label(4, "L"), Err(Error::NodeNotFound(4)));
    assert_eq!(g.update_edge(4, &props(vec![])), Err(Error::EdgeNotFound(4)));
    assert_eq!(g.node_prop_json_column(&[4], "k"), Err(Error::NodeNotFound(4)));
    assert_eq!(g.edge_prop_json_column(&[4], "k"), Err(Error::EdgeNotFound(4)));
}

#[test]
fn both_ends_see_an_edge() {
    let mut g = open();
    let a = g.add_node("L", &props(vec![])).unwrap();
    let b = g.add_node("L", &props(vec![])).unwrap();
    let ab = g.add_edge(a, b, "R", &props(vec![])).unwrap();
    let aa = g.add_edge(a, a, "S", &props(vec![])).unwrap();
    let out: Vec<(u64, u64)> = g.out_neighbors(a).iter().map(|e| (e.node, e.edge)).collect();
    assert_eq!(out, vec![(b, ab), (a, aa)]);
    let into: Vec<(u64, u64)> = g.in_neighbors(b).iter().map(|e| (e.node, e.edge)).collect();
    assert_eq!(into, vec![(a, ab)]);
    assert_eq!(g.edge_count_by_type("R"), 1);
    assert_eq!(g.edges_by_type("S"), vec![aa]);
    assert_eq!(g.edge_type_name(0), Some("R".to_string()));
    assert_eq!(g.edge_type_name(9), None);
    assert_eq!(g.label_name(0), Some("L".to_string()));
}

#[test]
fn definitions_are_listed_in_the_order_of_their_names() {
    let mut g = open();
    g.create_node_property_index("L", "b").unwrap();
    g.create_node_unique_constraint("L", "a").unwrap();
    g.create_node_required_constraint("M", "a").unwrap();
    assert_eq!(
        g.list_node_indexes_and_constraints(),
        vec![
            ("L".to_string(), "b".to_string(), 0),
            ("L".to_string(), "a".to_string(), 1),
            ("M".to_string(), "a".to_string(), 2),
        ]
    );
    g.drop_node_unique_constraint("L", "a");
    g.drop_node_property_index("M", "a");
    assert_eq!(g.list_node_indexes_and_constraints().len(), 2);
    g.create_edge_property_index("R", "a").unwrap();
    assert_eq!(
        g.list_edge_indexes_and_constraints(),
        vec![("R".to_string(), "a".to_string(), 0)]
    );
}

#[test]
fn columns_hold_one_value_per_node() {
    let mut g = open();
    let a = g.add_node("L", &props(vec![("k", PropValue::Int(1))])).unwrap();
    let b = g.add_node("L", &props(vec![("k", PropValue::Null)])).unwrap();
    let c = g.add_node("L", &props(vec![("k", PropValue::Int(1)), ("m", text("x"))])).unwrap();
    let d = g.add_node("L", &props(vec![])).unwrap();
    assert_eq!(g.node_prop_json(a, "k"), Some(PropValue::Int(1)));
    assert_eq!(
        g.node_prop_json_column(&[d, c, a], "k"),
        Ok(vec![PropValue::Null, PropValue::Int(1), PropValue::Int(1)])
    );
    assert_eq!(
        g.node_props_json_table(&[c], &["m", "k"]),
        Ok(vec![vec![text("x"), PropValue::Int(1)]])
    );
    assert_eq!(
        g.node_prop_group_codes(&[a, b, c, d], "k"),
        Ok((vec![0, 1, 0, 1], vec![PropValue::Int(1), PropValue::Null]))
    );
}

#[test]
fn neighbors_come_by_type_then_by_node() {
    let mut g = open();
    let ids: Vec<u64> = (0..4).map(|_| g.add_node("L", &props(vec![])).unwrap()).collect();
    let far = g.add_edge(ids[0], ids[3], "R", &props(vec![])).unwrap();
    let other = g.add_edge(ids[0], ids[1], "S", &props(vec![])).unwrap();
    let near = g.add_edge(ids[0], ids[2], "R", &props(vec![])).unwrap();
    let again = g.add_edge(ids[0], ids[2], "R", &props(vec![])).unwrap();
    let listed: Vec<u64> = g.out_neighbors(ids[0]).iter().map(|n| n.edge).collect();
    assert_eq!(listed, vec![near, again, far, other]);
}

#[test]
fn an_expansion_comes_by_edge_whatever_the_snapshot() {
    let mut g = open();
    let ids: Vec<u64> = (0..4).map(|_| g.add_node("L", &props(vec![])).unwrap()).collect();
    let far = g.add_edge(ids[0], ids[3], "R", &props(vec![])).unwrap();
    let other = g.add_edge(ids[0], ids[1], "S", &props(vec![])).unwrap();
    let near = g.add_edge(ids[0], ids[2], "R", &props(vec![])).unwrap();
    let again = g.add_edge(ids[0], ids[2], "R", &props(vec![])).unwrap();
    let typed = vec![(ids[0], far, ids[3]), (ids[0], near, ids[2]), (ids[0], again, ids[2])];
    let all = vec![
        (ids[0], far, ids[3]),
        (ids[0], other, ids[1]),
        (ids[0], near, ids[2]),
        (ids[0], again, ids[2]),
    ];
    let back = vec![
        (ids[3], far, ids[0]),
        (ids[2], near, ids[0]),
        (ids[2], again, ids[0]),
    ];
    assert_eq!(g.expand_bulk(&[ids[0]], Some("R"), false), typed);
    assert_eq!(g.expand_bulk(&[ids[0]], None, false), all);
    assert_eq!(g.expand_bulk(&[ids[3], ids[2]], None, true), back);
    g.rebuild_csr();
    assert_eq!(g.expand_bulk(&[ids[0]], Some("R"), false), typed);
    assert_eq!(g.expand_bulk(&[ids[0]], None, false), all);
    assert_eq!(g.expand_bulk(&[ids[3], ids[2]], None, true), back);
    assert!(g.expand_bulk(&[ids[0]], Some("T"), false).is_empty());
}
