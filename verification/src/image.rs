//! The snapshot of a store: its nodes in ascending order, and its edges between
//! their positions.

use vstd::prelude::*;

use crate::csr::{
    ascending, dense_edge, dense_edges, edges_ascending, valid_table, CsrSnapshot, Edge, EdgeRow,
};
use crate::schema::{EdgeId, NodeId};
use crate::store::{Content, Node, Relation, Store};

verus! {

/// `ids` are these nodes in ascending order.
pub open spec fn is_node_list(nodes: Map<NodeId, Node>, ids: Seq<NodeId>) -> bool {
    &&& ascending(ids)
    &&& forall|id: NodeId| #[trigger] ids.contains(id) <==> nodes.dom().contains(id)
}

/// The nodes of a graph in ascending order. A node's position in it is its
/// dense index.
pub open spec fn node_list(c: Content) -> Seq<NodeId> {
    in_order(c.nodes)
}

/// Nodes in ascending order.
pub open spec fn in_order(nodes: Map<NodeId, Node>) -> Seq<NodeId> {
    choose|ids: Seq<NodeId>| is_node_list(nodes, ids)
}

/// Whether `e` is one of these edges, between positions in `ids`.
pub open spec fn is_edge(edges: Map<EdgeId, Relation>, ids: Seq<NodeId>, e: Edge) -> bool {
    &&& edges.dom().contains(e.id)
    &&& 0 <= e.src < ids.len()
    &&& 0 <= e.dst < ids.len()
    &&& ids[e.src] == edges[e.id].src
    &&& ids[e.dst] == edges[e.id].dst
    &&& e.ty == edges[e.id].ty
}

/// `list` are these edges in ascending order.
pub open spec fn is_edge_list(
    edges: Map<EdgeId, Relation>,
    ids: Seq<NodeId>,
    list: Seq<Edge>,
) -> bool {
    &&& edges_ascending(list)
    &&& forall|k: int| 0 <= k < list.len() ==> is_edge(edges, ids, #[trigger] list[k])
    &&& forall|id: EdgeId| #[trigger]
        edges.dom().contains(id) ==> exists|k: int|
            0 <= k < list.len() && (#[trigger] list[k]).id == id
}

/// The edges of a graph in ascending order, between dense indices.
pub open spec fn edge_list(c: Content) -> Seq<Edge> {
    joined(c.edges, node_list(c))
}

/// Edges in ascending order, between positions in `ids`.
pub open spec fn joined(edges: Map<EdgeId, Relation>, ids: Seq<NodeId>) -> Seq<Edge> {
    choose|list: Seq<Edge>| is_edge_list(edges, ids, list)
}

/// The snapshot shows this content.
pub open spec fn images(snap: CsrSnapshot, c: Content) -> bool {
    &&& snap.wf()
    &&& snap.dense_to_id@ == node_list(c)
    &&& snap.edges@ == edge_list(c)
}

/// Two ascending lists of the same ids are the same list.
pub proof fn lemma_ascending_unique(a: Seq<u64>, b: Seq<u64>)
    requires
        ascending(a),
        ascending(b),
        forall|x: u64| #[trigger] a.contains(x) <==> b.contains(x),
    ensures
        a == b,
    decreases a.len(),
{
    if a.len() == 0 {
        if b.len() > 0 {
            assert(b.contains(b[0]));
            assert(a.contains(b[0]));
        }
        assert(a =~= b);
    } else {
        assert(a.contains(a.last()));
        assert(b.contains(a.last()));
        assert(b.contains(b.last()));
        assert(a.contains(b.last()));
        let i = a.index_of(b.last());
        let j = b.index_of(a.last());
        assert(a[i] <= a.last()) by {
            if i < a.len() - 1 {
                assert(a[i] < a[a.len() - 1]);
            }
        }
        assert(b[j] <= b.last()) by {
            if j < b.len() - 1 {
                assert(b[j] < b[b.len() - 1]);
            }
        }
        let (x, y) = (a.drop_last(), b.drop_last());
        assert forall|v: u64| #[trigger] x.contains(v) <==> y.contains(v) by {
            if x.contains(v) {
                let k = x.index_of(v);
                assert(a[k] == v);
                assert(a.contains(v));
                let l = b.index_of(v);
                assert(b[l] == v);
                assert(a[k] < a[a.len() - 1]);
                assert(y[l] == v);
            }
            if y.contains(v) {
                let k = y.index_of(v);
                assert(b[k] == v);
                assert(b.contains(v));
                assert(a.contains(v));
                let l = a.index_of(v);
                assert(a[l] == v);
                assert(b[k] < b[b.len() - 1]);
                assert(x[l] == v);
            }
        }
        lemma_ascending_unique(x, y);
        assert(a =~= x.push(a.last()));
        assert(b =~= y.push(b.last()));
    }
}

/// A list of a graph's edges is the list.
pub proof fn lemma_edge_list_unique(c: Content, ids: Seq<NodeId>, a: Seq<Edge>, b: Seq<Edge>)
    requires
        ascending(ids),
        is_edge_list(c.edges, ids, a),
        is_edge_list(c.edges, ids, b),
    ensures
        a == b,
{
    let x = a.map_values(|e: Edge| e.id);
    let y = b.map_values(|e: Edge| e.id);
    assert forall|v: u64| #[trigger] x.contains(v) <==> y.contains(v) by {
        if x.contains(v) {
            let k = x.index_of(v);
            assert(is_edge(c.edges, ids, a[k]));
            let l = choose|l: int| 0 <= l < b.len() && (#[trigger] b[l]).id == v;
            assert(y[l] == v);
        }
        if y.contains(v) {
            let k = y.index_of(v);
            assert(is_edge(c.edges, ids, b[k]));
            let l = choose|l: int| 0 <= l < a.len() && (#[trigger] a[l]).id == v;
            assert(x[l] == v);
        }
    }
    lemma_ascending_unique(x, y);
    assert(a.len() == x.len() && b.len() == y.len());
    assert forall|k: int| 0 <= k < a.len() implies a[k] == b[k] by {
        assert(x[k] == a[k].id && y[k] == b[k].id);
        assert(is_edge(c.edges, ids, a[k]) && is_edge(c.edges, ids, b[k]));
        if a[k].src < b[k].src {
            assert(ids[a[k].src] < ids[b[k].src]);
        } else if b[k].src < a[k].src {
            assert(ids[b[k].src] < ids[a[k].src]);
        }
        if a[k].dst < b[k].dst {
            assert(ids[a[k].dst] < ids[b[k].dst]);
        } else if b[k].dst < a[k].dst {
            assert(ids[b[k].dst] < ids[a[k].dst]);
        }
    }
    assert(a =~= b);
}

/// What a store holds has a list of nodes and a list of edges.
pub proof fn lemma_lists(c: Content, ids: Seq<NodeId>, edges: Seq<Edge>)
    requires
        is_node_list(c.nodes, ids),
        is_edge_list(c.edges, ids, edges),
    ensures
        node_list(c) == ids,
        edge_list(c) == edges,
{
    let chosen = node_list(c);
    assert(is_node_list(c.nodes, chosen));
    assert forall|x: u64| #[trigger] ids.contains(x) <==> chosen.contains(x) by {
        assert(ids.contains(x) <==> c.nodes.dom().contains(x));
        assert(chosen.contains(x) <==> c.nodes.dom().contains(x));
    }
    lemma_ascending_unique(ids, chosen);
    let list = edge_list(c);
    assert(is_edge_list(c.edges, chosen, list));
    lemma_edge_list_unique(c, ids, edges, list);
}

/// The lists of a snapshot's content are what they are defined to be.
pub proof fn lemma_store_lists(s: Store)
    requires
        s.wf(),
    ensures
        is_node_list(s@.nodes, node_list(s@)),
        is_edge_list(s@.edges, node_list(s@), edge_list(s@)),
        node_list(s@) == s.nodes.keys@,
        edge_list(s@).len() == s.edges.keys@.len(),
{
    let ids = s.nodes.keys@;
    let rows = store_rows(s);
    let edges = dense_edges(ids, rows);
    lemma_rows(s);
    lemma_lists(s@, ids, edges);
}

/// The rows of the edge table.
pub open spec fn store_rows(s: Store) -> Seq<EdgeRow> {
    Seq::new(
        s.edges.keys@.len(),
        |k: int|
            EdgeRow {
                id: s.edges.keys@[k],
                src: s.edges.vals@[k].src,
                dst: s.edges.vals@[k].dst,
                edge_type: s.edges.vals@[k].edge_type,
            },
    )
}

proof fn lemma_rows(s: Store)
    requires
        s.wf(),
    ensures
        is_node_list(s@.nodes, s.nodes.keys@),
        is_edge_list(s@.edges, s.nodes.keys@, dense_edges(s.nodes.keys@, store_rows(s))),
        s.nodes.keys@.len() < u32::MAX ==> valid_table(s.nodes.keys@, store_rows(s)),
{
    let ids = s.nodes.keys@;
    let rows = store_rows(s);
    let edges = dense_edges(ids, rows);
    assert(is_node_list(s@.nodes, ids)) by {
        assert forall|id: NodeId| #[trigger] ids.contains(id) <==> s@.nodes.dom().contains(
            id,
        ) by {}
    }
    assert forall|k: int| 0 <= k < rows.len() implies ids.contains((#[trigger] rows[k]).src)
        && ids.contains(rows[k].dst) && s.edges@.dom().contains(rows[k].id)
        && s.edges@[rows[k].id] == s.edges.vals@[k] by {
        s.edges.lemma_at(k);
        assert(s.nodes@.dom().contains(rows[k].src));
        assert(s.nodes@.dom().contains(rows[k].dst));
    }
    assert forall|k: int| 0 <= k < edges.len() implies is_edge(s@.edges, ids, #[trigger] edges[k]) by {
        assert(edges[k] == dense_edge(ids, rows[k]));
        assert(ids.contains(rows[k].src) && ids.contains(rows[k].dst));
    }
    assert forall|i: int, j: int| 0 <= i < j < edges.len() implies edges[i].id < edges[j].id by {
        assert(edges[i] == dense_edge(ids, rows[i]));
        assert(edges[j] == dense_edge(ids, rows[j]));
        assert(s.edges.keys@[i] < s.edges.keys@[j]);
    }
    assert forall|id: EdgeId| #[trigger] s@.edges.dom().contains(id) implies exists|k: int|
        0 <= k < edges.len() && (#[trigger] edges[k]).id == id by {
        assert(s.edges.keys@.contains(id));
        let k = s.edges.keys@.index_of(id);
        assert(edges[k] == dense_edge(ids, rows[k]));
        assert(edges[k].id == id);
    }
    assert forall|i: int, j: int| 0 <= i < j < rows.len() implies rows[i].id < rows[j].id by {
        assert(s.edges.keys@[i] < s.edges.keys@[j]);
    }
}

/// Takes the snapshot of a store.
pub fn snapshot_of(s: &Store) -> (snap: CsrSnapshot)
    requires
        s.wf(),
        s.nodes.keys@.len() < u32::MAX,
    ensures
        images(snap, s@),
{
    let ghost rows0 = store_rows(*s);
    let mut rows: Vec<EdgeRow> = Vec::new();
    let mut k: usize = 0;
    while k < s.edges.keys.len()
        invariant
            s.wf(),
            rows0 == store_rows(*s),
            k <= s.edges.keys@.len(),
            rows@ == rows0.take(k as int),
        decreases s.edges.keys@.len() - k,
    {
        rows.push(
            EdgeRow {
                id: s.edges.keys[k],
                src: s.edges.vals[k].src,
                dst: s.edges.vals[k].dst,
                edge_type: s.edges.vals[k].edge_type,
            },
        );
        assert(rows@ =~= rows0.take(k + 1));
        k = k + 1;
    }
    proof {
        assert(rows@ =~= rows0);
        lemma_rows(*s);
    }
    let snap: CsrSnapshot = CsrSnapshot::build(&s.nodes.keys, &rows);
    proof {
        lemma_lists(s@, s.nodes.keys@, dense_edges(s.nodes.keys@, rows0));
    }
    snap
}

} // verus!
