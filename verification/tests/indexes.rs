use issundb_core::error::Error;
use issundb_core::graph::Graph;
use issundb_core::schema::EdgeId;
use issundb_core::store::Store;
use issundb_core::tables::Props;
use issundb_core::value::PropValue;

fn open() -> Graph {
    Graph::open(Store::new())
}

fn props(entries: Vec<(&str, PropValue)>) -> Props {
    let mut out = Props::new();
    for (name, value) in entries {
        out.set(name, value);
    }
    out
}

fn none() -> Props {
    Props::new()
}

fn text(s: &str) -> PropValue {
    PropValue::Str(s.to_string())
}

#[test]
fn label_scan_cache_serves_repeats_and_tracks_writes() {
    let mut g = open();
    let a = g.add_node("Person", &props(vec![])).unwrap();
    let b = g.add_node("Person", &props(vec![])).unwrap();
    let c = g.add_node("Other", &props(vec![])).unwrap();

    assert_eq!(*g.nodes_by_label_arc("Person"), vec![a, b]);
    let scans = g.scans.by_label.len();
    let second = g.nodes_by_label_arc("Person").clone();
    assert_eq!(
        g.scans.by_label.len(),
        scans,
        "a repeat with no intervening write must serve the kept scan"
    );
    assert_eq!(g.nodes_by_label("Person"), second);

    g.add_label(c, "Person").unwrap();
    assert_eq!(*g.nodes_by_label_arc("Person"), vec![a, b, c]);

    g.remove_label(c, "Person");
    assert_eq!(*g.nodes_by_label_arc("Person"), vec![a, b]);

    g.delete_node(b);
    assert_eq!(*g.nodes_by_label_arc("Person"), vec![a]);

    assert!(g.nodes_by_label_arc("Nope").is_empty());
    let d = g.add_node("Nope", &props(vec![])).unwrap();
    assert_eq!(*g.nodes_by_label_arc("Nope"), vec![d]);
}

#[test]
fn string_equality_lookup_is_exact_across_nul_boundary() {
    let mut g = open();
    let a = g.add_node("L", &props(vec![("k", text("a"))])).unwrap();
    let a_nul = g.add_node("L", &props(vec![("k", text("a\u{0}"))])).unwrap();

    assert_eq!(
        g.nodes_by_property("L", "k", &text("a")),
        vec![a],
        "lookup of \"a\" must not return \"a\\0\""
    );
    assert_eq!(
        g.nodes_by_property("L", "k", &text("a\u{0}")),
        vec![a_nul],
        "lookup of \"a\\0\" must not return \"a\""
    );
}

#[test]
fn edge_string_equality_lookup_is_exact_across_nul_boundary() {
    let mut g = open();
    g.create_edge_property_index("R", "k").unwrap();
    let a = g.add_node("N", &props(vec![])).unwrap();
    let b = g.add_node("N", &props(vec![])).unwrap();
    let e = g.add_edge(a, b, "R", &props(vec![("k", text("a"))])).unwrap();
    let _e_nul = g.add_edge(a, b, "R", &props(vec![("k", text("a\u{0}"))])).unwrap();

    assert_eq!(
        g.edges_by_property("R", "k", &text("a")),
        vec![e],
        "edge lookup of \"a\" must not return \"a\\0\""
    );
}

#[test]
fn unique_constraint_treats_int_and_float_as_equal() {
    let mut g = open();
    g.create_node_unique_constraint("L", "k").unwrap();
    g.add_node("L", &props(vec![("k", PropValue::Int(30))])).unwrap();
    assert!(
        g.add_node("L", &props(vec![("k", PropValue::Float((30.0f64).to_bits()))])).is_err(),
        "30.0 duplicates the existing 30 under numeric equality"
    );

    let mut g2 = open();
    g2.add_node("L", &props(vec![("k", PropValue::Int(30))])).unwrap();
    g2.add_node("L", &props(vec![("k", PropValue::Float((30.0f64).to_bits()))])).unwrap();
    assert!(g2.create_node_unique_constraint("L", "k").is_err());
}

#[test]
fn unique_constraint_enforced_for_over_long_strings() {
    let long_a = format!("A{}", "x".repeat(600));
    let long_b = format!("B{}", "y".repeat(600));

    let mut g = open();
    g.create_node_unique_constraint("L", "k").unwrap();
    g.add_node("L", &props(vec![("k", text(&long_a))])).unwrap();
    assert!(
        g.add_node("L", &props(vec![("k", text(&long_a))])).is_err(),
        "a duplicate over-long value must be rejected"
    );
    assert!(g.add_node("L", &props(vec![("k", text(&long_b))])).is_ok());

    let mut g2 = open();
    g2.add_node("L", &props(vec![("k", text(&long_a))])).unwrap();
    g2.add_node("L", &props(vec![("k", text(&long_a))])).unwrap();
    assert!(g2.create_node_unique_constraint("L", "k").is_err());
}

#[test]
fn edge_unique_constraint_treats_int_and_float_as_equal() {
    let mut g = open();
    let a = g.add_node("N", &props(vec![])).unwrap();
    let b = g.add_node("N", &props(vec![])).unwrap();
    g.add_edge(a, b, "R", &props(vec![("k", PropValue::Int(30))])).unwrap();
    g.add_edge(a, b, "R", &props(vec![("k", PropValue::Float((30.0f64).to_bits()))])).unwrap();
    assert!(
        g.create_edge_unique_constraint("R", "k").is_err(),
        "30 and 30.0 duplicate each other under numeric equality"
    );
}

#[test]
fn edge_unique_constraint_backfill_allows_multiple_nulls() {
    let mut g = open();
    let a = g.add_node("N", &props(vec![])).unwrap();
    let b = g.add_node("N", &props(vec![])).unwrap();
    g.add_edge(a, b, "R", &props(vec![("k", PropValue::Null)])).unwrap();
    g.add_edge(a, b, "R", &props(vec![("k", PropValue::Null)])).unwrap();
    assert!(
        g.create_edge_unique_constraint("R", "k").is_ok(),
        "explicit nulls must not count as duplicates"
    );
}

#[test]
fn edge_unique_constraint_enforced_for_over_long_strings() {
    let long_a = format!("A{}", "x".repeat(600));
    let long_b = format!("B{}", "y".repeat(600));

    let mut g = open();
    g.create_edge_unique_constraint("R", "k").unwrap();
    let a = g.add_node("N", &props(vec![])).unwrap();
    let b = g.add_node("N", &props(vec![])).unwrap();
    g.add_edge(a, b, "R", &props(vec![("k", text(&long_a))])).unwrap();
    assert!(
        g.add_edge(a, b, "R", &props(vec![("k", text(&long_a))])).is_err(),
        "a duplicate over-long value must be rejected"
    );
    assert!(g.add_edge(a, b, "R", &props(vec![("k", text(&long_b))])).is_ok());
}

#[test]
fn numeric_range_excludes_other_value_types() {
    let mut g = open();
    let n_int = g.add_node("L", &props(vec![("age", PropValue::Int(30))])).unwrap();
    g.add_node("L", &props(vec![("age", text("old"))])).unwrap();
    g.add_node("L", &props(vec![("age", PropValue::Bool(true))])).unwrap();

    let lo = g.nodes_by_property_range("L", "age", &Some(PropValue::Int(20)), true, &None, false);
    assert_eq!(
        lo,
        vec![n_int],
        "a lower-bound-only numeric range must exclude string values"
    );

    let hi = g.nodes_by_property_range("L", "age", &None, false, &Some(PropValue::Int(40)), true);
    assert_eq!(
        hi,
        vec![n_int],
        "an upper-bound-only numeric range must exclude boolean values"
    );
}

#[test]
fn edge_numeric_range_excludes_other_value_types() {
    let mut g = open();
    g.create_edge_property_index("R", "w").unwrap();
    let a = g.add_node("N", &props(vec![])).unwrap();
    let b = g.add_node("N", &props(vec![])).unwrap();
    let e_int = g.add_edge(a, b, "R", &props(vec![("w", PropValue::Int(5))])).unwrap();
    g.add_edge(a, b, "R", &props(vec![("w", text("heavy"))])).unwrap();
    g.add_edge(a, b, "R", &props(vec![("w", PropValue::Bool(true))])).unwrap();

    let lo = g.edges_by_property_range("R", "w", &Some(PropValue::Int(1)), &None);
    assert_eq!(
        lo,
        vec![e_int],
        "a lower-bound-only numeric range must exclude string values"
    );

    let hi = g.edges_by_property_range("R", "w", &None, &Some(PropValue::Int(10)));
    assert_eq!(
        hi,
        vec![e_int],
        "an upper-bound-only numeric range must exclude boolean values"
    );
}

#[test]
fn unique_constraint_distinguishes_nul_boundary_strings() {
    let mut g = open();
    g.create_node_unique_constraint("L", "k").unwrap();
    g.add_node("L", &props(vec![("k", text("a"))])).unwrap();
    let res = g.add_node("L", &props(vec![("k", text("a\u{0}"))]));
    assert!(
        res.is_ok(),
        "\"a\\0\" is distinct from \"a\" and must not violate unique(L.k)"
    );
    assert!(
        g.add_node("L", &props(vec![("k", text("a"))])).is_err(),
        "a true duplicate must still be rejected"
    );
}

#[test]
fn string_range_returns_over_long_value() {
    let mut g = open();
    let short = g.add_node("L", &props(vec![("k", text("Nectarine"))])).unwrap();
    let long_val = format!("Z{}", "x".repeat(600));
    let long = g.add_node("L", &props(vec![("k", text(&long_val))])).unwrap();
    g.add_node("L", &props(vec![("k", text("Apple"))])).unwrap();

    let mut hits = g.nodes_by_property_range("L", "k", &Some(text("M")), false, &None, false);
    hits.sort_unstable();
    let mut expected = vec![short, long];
    expected.sort_unstable();
    assert_eq!(hits, expected, "the over-long value must not be dropped");
}

#[test]
fn string_range_respects_nul_boundary() {
    let mut g = open();
    let a = g.add_node("L", &props(vec![("k", text("a"))])).unwrap();
    let a_nul = g.add_node("L", &props(vec![("k", text("a\u{0}"))])).unwrap();
    let ab = g.add_node("L", &props(vec![("k", text("ab"))])).unwrap();

    let mut hits = g.nodes_by_property_range("L", "k", &Some(text("a\u{0}")), true, &None, false);
    hits.sort_unstable();
    assert_eq!(hits, vec![a_nul, ab]);

    let hits = g.nodes_by_property_range("L", "k", &None, false, &Some(text("a")), true);
    assert_eq!(hits, vec![a]);

    let mut hits = g.nodes_by_property_range("L", "k", &Some(text("a")), false, &None, false);
    hits.sort_unstable();
    assert_eq!(hits, vec![a_nul, ab]);
}

#[test]
fn drop_index_preserves_auto_index() {
    let mut g = open();
    let id = g.add_node("Person", &props(vec![("age", PropValue::Int(30))])).unwrap();

    g.create_node_property_index("Person", "age").unwrap();
    g.drop_node_property_index("Person", "age");

    assert_eq!(
        g.nodes_by_property("Person", "age", &PropValue::Int(30)),
        vec![id],
        "auto-index entries must survive dropping the explicit index"
    );
}

#[test]
fn nodes_by_property_finds_unindexed_long_string() {
    let mut g = open();
    let long = "word ".repeat(4000);
    let id = g.add_node("Post", &props(vec![("body", text(&long))])).unwrap();
    g.add_node("Post", &props(vec![("body", text(&"other ".repeat(4000)))])).unwrap();

    assert_eq!(
        g.nodes_by_property("Post", "body", &PropValue::Str(long)),
        vec![id],
        "equality lookup on an unindexed long string must scan and match"
    );
}

#[test]
fn drop_unique_constraint_preserves_lookups() {
    let mut g = open();
    let id = g.add_node("User", &props(vec![("email", text("a@b.c"))])).unwrap();

    g.create_node_unique_constraint("User", "email").unwrap();
    g.drop_node_unique_constraint("User", "email");

    assert_eq!(
        g.nodes_by_property("User", "email", &text("a@b.c")),
        vec![id]
    );

    let id2 = g.add_node("User", &props(vec![("email", text("a@b.c"))])).unwrap();
    let mut hits = g.nodes_by_property("User", "email", &text("a@b.c"));
    hits.sort();
    let mut expected = vec![id, id2];
    expected.sort();
    assert_eq!(hits, expected);
}

#[test]
fn large_integer_property_no_false_match() {
    let mut g = open();
    let a = g.add_node("Item", &props(vec![("sid", PropValue::Int(9_007_199_254_740_992))])).unwrap();
    let b = g.add_node("Item", &props(vec![("sid", PropValue::Int(9_007_199_254_740_993))])).unwrap();

    assert_eq!(
        g.nodes_by_property("Item", "sid", &PropValue::Int(9_007_199_254_740_992)),
        vec![a]
    );
    assert_eq!(
        g.nodes_by_property("Item", "sid", &PropValue::Int(9_007_199_254_740_993)),
        vec![b]
    );
}

#[test]
fn integer_property_matches_float_query() {
    let mut g = open();
    let id = g.add_node("Person", &props(vec![("age", PropValue::Int(30))])).unwrap();
    assert_eq!(
        g.nodes_by_property("Person", "age", &PropValue::Float((30.0f64).to_bits())),
        vec![id]
    );
}

#[test]
fn node_count_hint_is_high_water_mark() {
    let mut g = open();
    assert_eq!(g.node_count_hint(), 0);

    let a = g.add_node("N", &none()).unwrap();
    g.add_node("N", &none()).unwrap();
    assert_eq!(g.node_count_hint(), 2);

    g.delete_node(a);
    assert_eq!(g.node_count_hint(), 2);
}

#[test]
fn edge_property_index_lookup() {
    let mut g = open();
    let a = g.add_node("N", &none()).unwrap();
    let b = g.add_node("N", &none()).unwrap();

    let e1 = g.add_edge(a, b, "ROAD", &props(vec![("cost", PropValue::Int(5))])).unwrap();
    g.create_edge_property_index("ROAD", "cost").unwrap();

    let e2 = g.add_edge(b, a, "ROAD", &props(vec![("cost", PropValue::Int(7))])).unwrap();

    assert_eq!(
        g.edges_by_property("ROAD", "cost", &PropValue::Int(5)),
        vec![e1]
    );
    assert_eq!(
        g.edges_by_property("ROAD", "cost", &PropValue::Int(7)),
        vec![e2]
    );
    assert_eq!(
        g.edges_by_property_range("ROAD", "cost", &Some(PropValue::Int(5)), &Some(PropValue::Int(7))),
        vec![e1, e2]
    );
}

#[test]
fn drop_edge_property_index_removes_entries() {
    let mut g = open();
    let a = g.add_node("N", &none()).unwrap();
    let b = g.add_node("N", &none()).unwrap();
    g.create_edge_property_index("ROAD", "cost").unwrap();
    g.add_edge(a, b, "ROAD", &props(vec![("cost", PropValue::Int(5))])).unwrap();

    g.drop_edge_property_index("ROAD", "cost");
    assert_eq!(
        g.edges_by_property("ROAD", "cost", &PropValue::Int(5)),
        Vec::<EdgeId>::new()
    );
}

#[test]
fn edge_unique_constraint_rejects_duplicate_insert() {
    let mut g = open();
    let a = g.add_node("N", &none()).unwrap();
    let b = g.add_node("N", &none()).unwrap();
    g.create_edge_unique_constraint("ROAD", "toll_id").unwrap();

    g.add_edge(a, b, "ROAD", &props(vec![("toll_id", PropValue::Int(1))])).unwrap();
    let err = g.add_edge(b, a, "ROAD", &props(vec![("toll_id", PropValue::Int(1))]))
        .unwrap_err();
    assert!(matches!(err, Error::UniqueConstraintViolation { .. }));
}

#[test]
fn edge_unique_constraint_rejects_existing_duplicates() {
    let mut g = open();
    let a = g.add_node("N", &none()).unwrap();
    let b = g.add_node("N", &none()).unwrap();
    g.add_edge(a, b, "ROAD", &props(vec![("toll_id", PropValue::Int(1))])).unwrap();
    g.add_edge(b, a, "ROAD", &props(vec![("toll_id", PropValue::Int(1))])).unwrap();

    let err = g.create_edge_unique_constraint("ROAD", "toll_id")
        .unwrap_err();
    assert!(matches!(err, Error::UniqueConstraintViolation { .. }));
}

#[test]
fn edge_required_constraint_rejects_missing_property() {
    let mut g = open();
    let a = g.add_node("N", &none()).unwrap();
    let b = g.add_node("N", &none()).unwrap();
    g.create_edge_required_constraint("ROAD", "cost").unwrap();

    let err = g.add_edge(a, b, "ROAD", &props(vec![])).unwrap_err();
    assert!(matches!(err, Error::RequiredConstraintViolation { .. }));

    g.add_edge(a, b, "RAIL", &props(vec![])).unwrap();
    let err = g.create_edge_required_constraint("RAIL", "cost")
        .unwrap_err();
    assert!(matches!(err, Error::RequiredConstraintViolation { .. }));
}

#[test]
fn update_edge_reindexes_edge_properties() {
    let mut g = open();
    let a = g.add_node("N", &none()).unwrap();
    let b = g.add_node("N", &none()).unwrap();
    g.create_edge_property_index("ROAD", "cost").unwrap();
    let eid = g.add_edge(a, b, "ROAD", &props(vec![("cost", PropValue::Int(5))])).unwrap();

    g.update_edge(eid, &props(vec![("cost", PropValue::Int(7))])).unwrap();

    assert_eq!(
        g.edges_by_property("ROAD", "cost", &PropValue::Int(5)),
        Vec::<EdgeId>::new(),
        "stale index entry must be removed"
    );
    assert_eq!(
        g.edges_by_property("ROAD", "cost", &PropValue::Int(7)),
        vec![eid],
        "new value must be indexed"
    );
}

#[test]
fn update_edge_enforces_unique_constraint() {
    let mut g = open();
    let a = g.add_node("N", &none()).unwrap();
    let b = g.add_node("N", &none()).unwrap();
    g.create_edge_unique_constraint("ROAD", "toll_id").unwrap();
    g.add_edge(a, b, "ROAD", &props(vec![("toll_id", PropValue::Int(1))])).unwrap();
    let e2 = g.add_edge(b, a, "ROAD", &props(vec![("toll_id", PropValue::Int(2))])).unwrap();

    let err = g.update_edge(e2, &props(vec![("toll_id", PropValue::Int(1))])).unwrap_err();
    assert!(matches!(err, Error::UniqueConstraintViolation { .. }));

    g.update_edge(e2, &props(vec![("toll_id", PropValue::Int(2))])).unwrap();
}

#[test]
fn update_edge_enforces_required_constraint() {
    let mut g = open();
    let a = g.add_node("N", &none()).unwrap();
    let b = g.add_node("N", &none()).unwrap();
    g.create_edge_required_constraint("ROAD", "cost").unwrap();
    let eid = g.add_edge(a, b, "ROAD", &props(vec![("cost", PropValue::Int(5))])).unwrap();

    let err = g.update_edge(eid, &props(vec![])).unwrap_err();
    assert!(matches!(err, Error::RequiredConstraintViolation { .. }));
}

#[test]
fn label_filter_keeps_only_labeled_nodes() {
    let mut g = open();
    let a = g.add_node("Person", &props(vec![])).unwrap();
    let b = g.add_node("City", &props(vec![])).unwrap();
    let c = g.add_node_multi(&["City", "Person"], &props(vec![])).unwrap();

    let filtered = g.label_filter(&[a, b, c], "Person");
    assert_eq!(filtered.len(), 2);
    assert!(filtered.contains(&a));
    assert!(filtered.contains(&c));
}

#[test]
fn label_filter_unknown_label_is_empty() {
    let mut g = open();
    let a = g.add_node("Person", &props(vec![])).unwrap();
    assert!(g.label_filter(&[a], "Ghost").is_empty());
}

#[test]
fn label_filter_sees_committed_writes_immediately() {
    let mut g = open();
    let a = g.add_node("Person", &props(vec![])).unwrap();
    g.add_label(a, "Admin").unwrap();
    assert_eq!(g.label_filter(&[a], "Admin"), vec![a]);
    g.remove_label(a, "Admin");
    assert!(g.label_filter(&[a], "Admin").is_empty());
}

#[test]
fn minus_zero_is_zero_to_constraints_lookups_and_ranges() {
    let minus = || PropValue::Float((-0.0f64).to_bits());
    let mut g = open();
    let a = g.add_node("L", &props(vec![("k", minus())])).unwrap();
    let zero = Some(PropValue::Int(0));
    assert_eq!(g.nodes_by_property("L", "k", &PropValue::Int(0)), vec![a]);
    assert_eq!(g.nodes_by_property_range("L", "k", &zero, true, &None, false), vec![a]);
    assert_eq!(g.nodes_by_property_range("L", "k", &None, false, &zero, true), vec![a]);
    assert!(g.nodes_by_property_range("L", "k", &None, false, &zero, false).is_empty());
    g.create_node_property_index("L", "k").unwrap();
    assert_eq!(g.nodes_by_property("L", "k", &PropValue::Int(0)), vec![a]);
    assert_eq!(g.nodes_by_property_range("L", "k", &zero, true, &None, false), vec![a]);

    let mut unique = open();
    unique.create_node_unique_constraint("L", "k").unwrap();
    unique.add_node("L", &props(vec![("k", PropValue::Int(0))])).unwrap();
    assert!(unique.add_node("L", &props(vec![("k", minus())])).is_err());
}
