//! Copies of a store, which a transaction works on.

use vstd::prelude::*;

use crate::catalog::{defined, has_encoded, is_entry_key, is_member_key, Catalog, Holding, IndexDef};
use crate::keys::{prefix_id, prop_key};
use crate::schema::{EdgeId, LabelId, NodeId, PropKeyId, TypeId};
use crate::store::{
    adj_key, adjacency_matches, is_adj_key, joins, label_holding, marks, type_holding, EdgeRecord,
    NodeRecord, Relation, Store,
};
use crate::tables::{KeySet, Table};

verus! {

/// A copy of a catalog.
fn copy_catalog(c: &Catalog, h: Ghost<Holding>, keys: Ghost<Seq<Seq<char>>>) -> (r: Catalog)
    requires
        c.matches(h@, keys@),
    ensures
        r.matches(h@, keys@),
        r.scopes@ == c.scopes@,
        r.defs@ == c.defs@,
        r.auto == c.auto,
        marks(r) == marks(*c),
{
    let defs: Vec<IndexDef> = c.defs.clone();
    assert(defs@ =~= c.defs@);
    let r: Catalog = Catalog {
        scopes: c.scopes.copy(),
        members: c.members.copy(),
        index: c.index.copy(),
        defs,
        auto: c.auto,
    };
    proof {
        let (h, keys) = (h@, keys@);
        assert forall|s: u32, id: u64|
            #![trigger r.members.has(prefix_id(s, id))]
            #![trigger h.dom().contains((s, id))]
            r.members.has(prefix_id(s, id)) <==> h.dom().contains((s, id)) by {
            assert(c.members.has(prefix_id(s, id)) <==> h.dom().contains((s, id)));
        }
        assert forall|key: Seq<u8>| #[trigger] r.members.has(key) implies is_member_key(key) by {
            assert(c.members.has(key));
        }
        assert(r.members_match(h));
        assert forall|s: u32, p: PropKeyId, e: Seq<u8>, id: u64|
            #![trigger r.index.has(prop_key(s, p, e, id))]
            #![trigger has_encoded(h, keys, s, p, e, id)]
            e != seq![0u8] implies (r.index.has(prop_key(s, p, e, id)) <==> r.due(
            h,
            keys,
            s,
            p,
            e,
            id,
        )) by {
            assert(c.index.has(prop_key(s, p, e, id)) <==> c.due(h, keys, s, p, e, id));
        }
        assert forall|key: Seq<u8>| #[trigger] r.index.has(key) implies is_entry_key(key) by {
            assert(c.index.has(key));
        }
        assert forall|s: u32, p: PropKeyId, id: u64| #[trigger]
            r.marked(s, p, id) implies has_encoded(h, keys, s, p, seq![0u8], id) && defined(
            r.defs@,
            s,
            p,
        ) by {
            assert(c.marked(s, p, id));
        }
        assert(r.index_matches(h, keys));
        assert(marks(r) =~= marks(*c));
    }
    r
}

/// A copy of the node table.
fn copy_nodes(t: &Table<NodeRecord>) -> (r: Table<NodeRecord>)
    requires
        t.wf(),
        forall|id: NodeId| #[trigger]
            t@.dom().contains(id) ==> t@[id].props.wf() && t@[id].labels@.no_duplicates(),
    ensures
        r.wf(),
        r.keys@ == t.keys@,
        r@.dom() == t@.dom(),
        forall|id: NodeId| #[trigger]
            r@.dom().contains(id) ==> r@[id]@ == t@[id]@ && r@[id].props.wf(),
{
    let keys: Vec<u64> = t.keys.clone();
    let mut vals: Vec<NodeRecord> = Vec::new();
    let mut i: usize = 0;
    while i < t.vals.len()
        invariant
            t.wf(),
            forall|id: NodeId| #[trigger]
                t@.dom().contains(id) ==> t@[id].props.wf() && t@[id].labels@.no_duplicates(),
            i <= t.vals@.len(),
            vals@.len() == i,
            forall|j: int|
                0 <= j < i ==> (#[trigger] vals@[j])@ == t.vals@[j]@ && vals@[j].props.wf(),
        decreases t.vals@.len() - i,
    {
        proof {
            t.lemma_at(i as int);
        }
        let labels: Vec<LabelId> = t.vals[i].labels.clone();
        assert(labels@ =~= t.vals@[i as int].labels@);
        vals.push(NodeRecord { labels, props: t.vals[i].props.copy() });
        i = i + 1;
    }
    let r: Table<NodeRecord> = Table { keys, vals };
    proof {
        assert(r.keys@ =~= t.keys@);
        assert(r@.dom() =~= t@.dom());
        assert forall|id: NodeId| #[trigger] r@.dom().contains(id) implies r@[id]@ == t@[id]@
            && r@[id].props.wf() by {
            let k = r.keys@.index_of(id);
            assert(r.keys@.contains(id));
            assert(r.keys@[k] == id);
            r.lemma_at(k);
            t.lemma_at(k);
        }
    }
    r
}

/// A copy of the edge table.
fn copy_edges(t: &Table<EdgeRecord>) -> (r: Table<EdgeRecord>)
    requires
        t.wf(),
        forall|id: EdgeId| #[trigger] t@.dom().contains(id) ==> t@[id].props.wf(),
    ensures
        r.wf(),
        r.keys@ == t.keys@,
        r@.dom() == t@.dom(),
        forall|id: EdgeId| #[trigger]
            r@.dom().contains(id) ==> r@[id]@ == t@[id]@ && r@[id].props.wf(),
{
    let keys: Vec<u64> = t.keys.clone();
    let mut vals: Vec<EdgeRecord> = Vec::new();
    let mut i: usize = 0;
    while i < t.vals.len()
        invariant
            t.wf(),
            forall|id: EdgeId| #[trigger] t@.dom().contains(id) ==> t@[id].props.wf(),
            i <= t.vals@.len(),
            vals@.len() == i,
            forall|j: int|
                0 <= j < i ==> (#[trigger] vals@[j])@ == t.vals@[j]@ && vals@[j].props.wf(),
        decreases t.vals@.len() - i,
    {
        proof {
            t.lemma_at(i as int);
        }
        vals.push(
            EdgeRecord {
                src: t.vals[i].src,
                dst: t.vals[i].dst,
                edge_type: t.vals[i].edge_type,
                props: t.vals[i].props.copy(),
            },
        );
        i = i + 1;
    }
    let r: Table<EdgeRecord> = Table { keys, vals };
    proof {
        assert(r.keys@ =~= t.keys@);
        assert(r@.dom() =~= t@.dom());
        assert forall|id: EdgeId| #[trigger] r@.dom().contains(id) implies r@[id]@ == t@[id]@
            && r@[id].props.wf() by {
            let k = r.keys@.index_of(id);
            assert(r.keys@.contains(id));
            assert(r.keys@[k] == id);
            r.lemma_at(k);
            t.lemma_at(k);
        }
    }
    r
}

/// A copy of an adjacency set.
fn copy_adjacency(adj: &KeySet, edges: Ghost<Map<EdgeId, Relation>>, outgoing: Ghost<bool>) -> (r:
    KeySet)
    requires
        adjacency_matches(*adj, edges@, outgoing@),
    ensures
        adjacency_matches(r, edges@, outgoing@),
{
    let r: KeySet = adj.copy();
    proof {
        assert forall|key: Seq<u8>| #[trigger] r.has(key) implies is_adj_key(key) by {
            assert(adj.has(key));
        }
        assert forall|node: NodeId, ty: TypeId, other: NodeId, edge: EdgeId| #[trigger]
            r.has(adj_key(node, ty, other, edge)) <==> edges@.dom().contains(edge) && joins(
                edges@[edge],
                outgoing@,
                node,
                ty,
                other,
            ) by {
            assert(adj.has(adj_key(node, ty, other, edge)) <==> edges@.dom().contains(edge)
                && joins(edges@[edge], outgoing@, node, ty, other));
        }
    }
    r
}

impl Store {
    /// A copy of this store.
    pub fn copy(&self) -> (r: Store)
        requires
            self.wf(),
        ensures
            r.wf(),
            r@ == self@,
            r.nodes.keys@ == self.nodes.keys@,
    {
        let r: Store = Store {
            nodes: copy_nodes(&self.nodes),
            edges: copy_edges(&self.edges),
            labels: copy_catalog(
                &self.labels,
                Ghost(label_holding(self@.nodes)),
                Ghost(self@.keys),
            ),
            types: copy_catalog(&self.types, Ghost(type_holding(self@.edges)), Ghost(self@.keys)),
            prop_keys: self.prop_keys.copy(),
            out_adj: copy_adjacency(&self.out_adj, Ghost(self@.edges), Ghost(true)),
            in_adj: copy_adjacency(&self.in_adj, Ghost(self@.edges), Ghost(false)),
            next_node: self.next_node,
            next_edge: self.next_edge,
        };
        proof {
            assert(r@.nodes =~= self@.nodes);
            assert(r@.edges =~= self@.edges);
            assert forall|id: NodeId| #[trigger] r.nodes@.dom().contains(id) implies id
                < r.next_node && r.nodes@[id].props.wf()
                && r.nodes@[id].labels@.no_duplicates() by {
                assert(self.nodes@.dom().contains(id));
                assert(r.nodes@[id]@ == self.nodes@[id]@);
            }
            assert forall|id: EdgeId| #[trigger] r.edges@.dom().contains(id) implies id
                < r.next_edge && r.edges@[id].props.wf() && r.nodes@.dom().contains(
                r.edges@[id].src,
            ) && r.nodes@.dom().contains(r.edges@[id].dst) by {
                assert(self.edges@.dom().contains(id));
                assert(r.edges@[id]@ == self.edges@[id]@);
            }
        }
        r
    }
}

} // verus!
