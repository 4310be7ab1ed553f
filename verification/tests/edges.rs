use issundb_core::error::Error;
use issundb_core::graph::Graph;
use issundb_core::store::Store;
use issundb_core::tables::Props;
use issundb_core::value::PropValue;

fn open() -> Graph {
    Graph::open(Store::new())
}

fn props(entries: Vec<(&str, PropValue)>) -> Props {
    let mut out = Props::new();
    for (name, value) in entries {
        out.set(name, value);
    }
    out
}

fn none() -> Props {
    Props::new()
}

#[test]
fn a_delete_invalidates_the_batch_endpoint_memo() {
    let mut g = open();
    let outcome = g.update(|txn| {
        let a = txn.add_node("N", &props(vec![]))?;
        let b = txn.add_node("N", &props(vec![]))?;
        txn.add_edge(a, b, "R", &props(vec![]))?;
        txn.delete_node(b);
        let second = txn.add_edge(a, b, "R", &props(vec![]));
        assert!(
            matches!(second, Err(Error::NodeNotFound(id)) if id == b),
            "an edge to a node deleted in this batch must be rejected, got {second:?}",
        );
        Ok(())
    });
    assert!(outcome.is_ok(), "the batch itself should succeed");
}

#[test]
fn a_batched_edge_after_the_first_still_reaches_the_property_index() {
    let mut g = open();
    g.create_edge_property_index("R", "k").unwrap();
    let (first, second) = g.update(|txn| {
            let a = txn.add_node("N", &props(vec![]))?;
            let b = txn.add_node("N", &props(vec![]))?;
            let first = txn.add_edge(a, b, "R", &props(vec![("k", PropValue::Int(1))]))?;
            let second = txn.add_edge(a, b, "R", &props(vec![("k", PropValue::Int(2))]))?;
            Ok((first, second))
        }).unwrap();

    assert_eq!(
        g.edges_by_property("R", "k", &PropValue::Int(1)),
        vec![first],
        "the first edge of the batch must be findable through the index"
    );
    assert_eq!(
        g.edges_by_property("R", "k", &PropValue::Int(2)),
        vec![second],
        "the second edge of the batch must be findable through the index"
    );
}

#[test]
fn a_batched_edge_after_the_first_still_enforces_a_unique_constraint() {
    let mut g = open();
    g.create_edge_unique_constraint("R", "k").unwrap();
    let outcome = g.update(|txn| {
        let a = txn.add_node("N", &props(vec![]))?;
        let b = txn.add_node("N", &props(vec![]))?;
        txn.add_edge(a, b, "R", &props(vec![("k", PropValue::Int(1))]))?;
        txn.add_edge(a, b, "R", &props(vec![("k", PropValue::Int(1))]))?;
        Ok(())
    });

    assert!(
        matches!(outcome, Err(Error::UniqueConstraintViolation { .. })),
        "a duplicate value inside one batch must be rejected, got {outcome:?}"
    );
    assert!(
        g.edges_by_type("R").is_empty(),
        "the rejected batch must leave no edge behind"
    );
}

#[test]
fn add_edge_rejects_nonexistent_endpoint() {
    let mut g = open();
    let a = g.add_node("N", &none()).unwrap();
    assert!(matches!(
        g.add_edge(a, 999, "R", &none()),
        Err(Error::NodeNotFound(999))
    ));
    assert!(matches!(
        g.add_edge(999, a, "R", &none()),
        Err(Error::NodeNotFound(999))
    ));
    let b = g.add_node("N", &none()).unwrap();
    assert!(!g.node_has_relationships(b));
    assert!(g.add_edge(a, b, "R", &none()).is_ok());
}

#[test]
fn out_neighbors_reflects_edge_added_after_snapshot() {
    let mut g = open();
    let a = g.add_node("N", &none()).unwrap();
    let b = g.add_node("N", &none()).unwrap();

    g.rebuild_csr();
    assert!(g.out_neighbors(a).is_empty());

    let eid = g.add_edge(a, b, "E", &none()).unwrap();

    let out = g.out_neighbors(a);
    assert_eq!(out.len(), 1, "new edge must be visible despite stale CSR");
    assert_eq!(out[0].edge, eid);
    assert_eq!(out[0].node, b);
}

#[test]
fn out_neighbors_reflects_edge_deleted_after_snapshot() {
    let mut g = open();
    let a = g.add_node("N", &none()).unwrap();
    let b = g.add_node("N", &none()).unwrap();
    let eid = g.add_edge(a, b, "E", &none()).unwrap();

    g.rebuild_csr();
    assert_eq!(g.out_neighbors(a).len(), 1);

    g.delete_edge(eid);

    assert!(
        g.out_neighbors(a).is_empty(),
        "deleted edge must not appear, even though CSR still holds it"
    );
}

#[test]
fn out_and_in_neighbors_agree_after_snapshot() {
    let mut g = open();
    let a = g.add_node("N", &none()).unwrap();
    let b = g.add_node("N", &none()).unwrap();
    g.rebuild_csr();

    let eid = g.add_edge(a, b, "E", &none()).unwrap();

    let out = g.out_neighbors(a);
    let inc = g.in_neighbors(b);
    assert_eq!(out.len(), 1);
    assert_eq!(inc.len(), 1);
    assert_eq!(out[0].edge, eid);
    assert_eq!(inc[0].edge, eid);
}

#[test]
fn write_txn_out_neighbors_sees_uncommitted_edge() {
    let mut g = open();
    let a = g.add_node("N", &none()).unwrap();
    let b = g.add_node("N", &none()).unwrap();
    g.rebuild_csr();

    g.update(|txn| {
        let eid = txn.add_edge(a, b, "E", &none())?;
        let out = txn.out_neighbors(a);
        assert_eq!(out.len(), 1, "uncommitted edge must be visible in-txn");
        assert_eq!(out[0].edge, eid);
        Ok(())
    }).unwrap();
}

#[test]
fn update_edge_replaces_props() {
    let mut g = open();
    let a = g.add_node("N", &none()).unwrap();
    let b = g.add_node("N", &none()).unwrap();
    let eid = g.add_edge(a, b, "E", &props(vec![("w", PropValue::Int(1))])).unwrap();

    g.update_edge(eid, &props(vec![("w", PropValue::Int(2))])).unwrap();

    let rec = g.get_edge(eid).expect("edge must still exist");
    assert_eq!(rec.src, a);
    assert_eq!(rec.dst, b);
    assert_eq!(rec.props.get("w"), Some(&PropValue::Int(2)));
}

#[test]
fn update_edge_missing_edge_errors() {
    let mut g = open();
    let err = g.update_edge(999, &props(vec![("w", PropValue::Int(1))]))
        .unwrap_err();
    assert!(matches!(err, Error::EdgeNotFound(999)));
}

#[test]
fn node_has_relationships_reflects_adjacency() {
    let mut g = open();
    let a = g.add_node("N", &none()).unwrap();
    let b = g.add_node("N", &none()).unwrap();
    assert!(!g.node_has_relationships(a));
    assert!(!g.node_has_relationships(b));

    let eid = g.add_edge(a, b, "E", &none()).unwrap();
    assert!(g.node_has_relationships(a), "out edge counts");
    assert!(g.node_has_relationships(b), "in edge counts");

    g.delete_edge(eid);
    assert!(!g.node_has_relationships(a));
    assert!(!g.node_has_relationships(b));
}
