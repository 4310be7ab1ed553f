//! Adding, changing and deleting edges, and deleting nodes with their edges.

use vstd::prelude::*;

use crate::catalog::Catalog;
use crate::error::Error;
use crate::keys::{be_bytes, bytes_lt, push_be, read_le};
use crate::schema::{EdgeId, NodeId, TypeId};
use crate::store::{
    adj_key, adjacency_matches, build_adj_key, end_of, explains, is_adj_key, joins, label_holding,
    lemma_adj_key, marks, refused, type_holding, Content, EdgeRecord, NodeRecord, Relation, Store,
};
use crate::store_nodes::{
    dismiss_all, dismissed, lemma_breach_explains, lemma_no_breach_of, without_member,
};
use crate::store_queries::entry_key;
use crate::tables::{begins, lemma_with_name, number_of_name, with_name, KeySet, Props};
use crate::value::Val;

verus! {

/// An edge at a node, with the node at its other end.
#[derive(Clone, Copy, Debug, PartialEq, Eq, Structural)]
pub struct NeighborEntry {
    pub node: NodeId,
    pub edge: EdgeId,
    pub edge_type: TypeId,
}

/// An edge at a node in either direction.
#[derive(Clone, Copy, Debug, PartialEq, Eq, Structural)]
pub struct DirectedNeighborEntry {
    pub node: NodeId,
    pub edge: EdgeId,
    pub edge_type: TypeId,
    /// Whether the edge leaves the node.
    pub outgoing: bool,
}

impl Content {
    /// Whether the constraints on a type refuse an edge with these properties.
    pub open spec fn refuses_edge(
        &self,
        ty: Seq<char>,
        id: EdgeId,
        props: Map<Seq<char>, Val>,
    ) -> bool {
        number_of_name(self.types, ty) matches Some(t) && refused(
            type_holding(self.edges),
            self.keys,
            self.type_defs,
            t,
            id,
            props,
        )
    }

    /// The error says which constraint on the type is the first that is broken.
    pub open spec fn explains_edge(
        &self,
        e: Error,
        ty: Seq<char>,
        id: EdgeId,
        props: Map<Seq<char>, Val>,
    ) -> bool {
        number_of_name(self.types, ty) matches Some(t) && explains(
            type_holding(self.edges),
            self.keys,
            self.type_defs,
            t,
            ty,
            id,
            props,
            e,
        )
    }

    /// This content with one more edge.
    pub open spec fn with_edge(
        &self,
        src: NodeId,
        dst: NodeId,
        ty: Seq<char>,
        props: Map<Seq<char>, Val>,
    ) -> Content {
        let types = with_name(self.types, ty);
        Content {
            edges: self.edges.insert(
                self.next_edge,
                Relation { src, dst, ty: number_of_name(types, ty)->0, props },
            ),
            types,
            next_edge: (self.next_edge + 1) as u64,
            ..*self
        }
    }

    /// This content with other properties on an edge.
    pub open spec fn with_edge_props(&self, id: EdgeId, props: Map<Seq<char>, Val>) -> Content {
        Content {
            edges: self.edges.insert(id, Relation { props, ..self.edges[id] }),
            type_marks: without_member(self.type_marks, id),
            ..*self
        }
    }

    /// This content without an edge.
    pub open spec fn without_edge(&self, id: EdgeId) -> Content {
        Content {
            edges: self.edges.remove(id),
            type_marks: without_member(self.type_marks, id),
            ..*self
        }
    }

    /// Whether an edge begins or ends at a node.
    pub open spec fn touches(&self, edge: EdgeId, node: NodeId) -> bool {
        self.edges.dom().contains(edge) && (self.edges[edge].src == node || self.edges[edge].dst
            == node)
    }

    /// This content without a node and the edges at it.
    pub open spec fn without_node(&self, id: NodeId) -> Content {
        Content {
            nodes: self.nodes.remove(id),
            edges: self.edges.remove_keys(Set::new(|x: EdgeId| self.touches(x, id))),
            label_marks: without_member(self.label_marks, id),
            type_marks: self.type_marks.filter(|k: (u32, u32, u64)| !self.touches(k.2, id)),
            ..*self
        }
    }
}

/// Adds an adjacency entry.
fn link(
    adj: &mut KeySet,
    node: NodeId,
    ty: TypeId,
    other: NodeId,
    edge: EdgeId,
    before: Ghost<Map<EdgeId, Relation>>,
    now: Ghost<Map<EdgeId, Relation>>,
    outgoing: Ghost<bool>,
)
    requires
        adjacency_matches(*old(adj), before@, outgoing@),
        !before@.dom().contains(edge),
        now@.dom() == before@.dom().insert(edge),
        joins(now@[edge], outgoing@, node, ty, other),
        forall|x: EdgeId| #[trigger]
            before@.dom().contains(x) ==> same_ends(now@[x], before@[x]),
    ensures
        adjacency_matches(*final(adj), now@, outgoing@),
{
    let ghost was = *adj;
    adj.insert(build_adj_key(node, ty, other, edge));
    proof {
        assert forall|key: Seq<u8>| #[trigger] adj.has(key) implies is_adj_key(key) by {
            if key != adj_key(node, ty, other, edge) {
                assert(was.has(key));
            }
        }
        assert forall|n: NodeId, t: TypeId, o: NodeId, x: EdgeId| #[trigger]
            adj.has(adj_key(n, t, o, x)) <==> now@.dom().contains(x) && joins(
                now@[x],
                outgoing@,
                n,
                t,
                o,
            ) by {
            lemma_adj_key(n, t, o, x, node, ty, other, edge);
            assert(was.has(adj_key(n, t, o, x)) <==> before@.dom().contains(x) && joins(
                before@[x],
                outgoing@,
                n,
                t,
                o,
            ));
        }
    }
}

/// Whether two edges have the same ends and the same type.
spec fn same_ends(a: Relation, b: Relation) -> bool {
    a.src == b.src && a.dst == b.dst && a.ty == b.ty
}

/// Removes an adjacency entry.
fn unlink(
    adj: &mut KeySet,
    node: NodeId,
    ty: TypeId,
    other: NodeId,
    edge: EdgeId,
    before: Ghost<Map<EdgeId, Relation>>,
    outgoing: Ghost<bool>,
)
    requires
        adjacency_matches(*old(adj), before@, outgoing@),
        before@.dom().contains(edge),
        joins(before@[edge], outgoing@, node, ty, other),
    ensures
        adjacency_matches(*final(adj), before@.remove(edge), outgoing@),
{
    let ghost was = *adj;
    let key: Vec<u8> = build_adj_key(node, ty, other, edge);
    adj.remove(key.as_slice());
    proof {
        let now = before@.remove(edge);
        assert forall|key: Seq<u8>| #[trigger] adj.has(key) implies is_adj_key(key) by {
            assert(was.has(key));
        }
        assert forall|n: NodeId, t: TypeId, o: NodeId, x: EdgeId| #[trigger]
            adj.has(adj_key(n, t, o, x)) <==> now.dom().contains(x) && joins(
                now[x],
                outgoing@,
                n,
                t,
                o,
            ) by {
            lemma_adj_key(n, t, o, x, node, ty, other, edge);
            assert(was.has(adj_key(n, t, o, x)) <==> before@.dom().contains(x) && joins(
                before@[x],
                outgoing@,
                n,
                t,
                o,
            ));
        }
    }
}

/// Where the ends and the types of the edges stay, the adjacency does.
proof fn lemma_same_adjacency(
    adj: KeySet,
    before: Map<EdgeId, Relation>,
    now: Map<EdgeId, Relation>,
    outgoing: bool,
)
    requires
        adjacency_matches(adj, before, outgoing),
        now.dom() == before.dom(),
        forall|x: EdgeId| #[trigger] before.dom().contains(x) ==> same_ends(now[x], before[x]),
    ensures
        adjacency_matches(adj, now, outgoing),
{
    assert forall|n: NodeId, t: TypeId, o: NodeId, x: EdgeId| #[trigger]
        adj.has(adj_key(n, t, o, x)) <==> now.dom().contains(x) && joins(
            now[x],
            outgoing,
            n,
            t,
            o,
        ) by {
        assert(adj.has(adj_key(n, t, o, x)) <==> before.dom().contains(x) && joins(
            before[x],
            outgoing,
            n,
            t,
            o,
        ));
    }
}

impl Store {
    /// A mark is that of an edge of the type.
    proof fn lemma_marks_of_types(&self, t: u32, p: u32, id: u64)
        requires
            self.wf(),
            self.types.marked(t, p, id),
        ensures
            self@.edges.dom().contains(id),
            self@.edges[id].ty == t,
    {
        assert(type_holding(self@.edges).dom().contains((t, id)));
    }

    /// Adds an edge, unless one of its ends is missing or a constraint refuses it.
    pub fn add_edge_impl(
        &mut self,
        src: NodeId,
        dst: NodeId,
        etype: &str,
        props: &Props,
    ) -> (r: Result<EdgeId, Error>)
        requires
            old(self).wf(),
            props.wf(),
            old(self)@.next_edge < u64::MAX,
            old(self)@.types.len() < u32::MAX,
        ensures
            final(self).wf(),
            r is Err ==> *final(self) == *old(self),
            match r {
                Ok(id) => {
                    &&& old(self)@.nodes.dom().contains(src)
                    &&& old(self)@.nodes.dom().contains(dst)
                    &&& !old(self)@.refuses_edge(etype@, old(self)@.next_edge, props@)
                    &&& id == old(self)@.next_edge
                    &&& final(self)@ == old(self)@.with_edge(src, dst, etype@, props@)
                },
                Err(Error::NodeNotFound(id)) => if !old(self)@.nodes.dom().contains(src) {
                    id == src
                } else {
                    !old(self)@.nodes.dom().contains(dst) && id == dst
                },
                Err(e) => {
                    &&& old(self)@.nodes.dom().contains(src)
                    &&& old(self)@.nodes.dom().contains(dst)
                    &&& old(self)@.refuses_edge(etype@, old(self)@.next_edge, props@)
                    &&& old(self)@.explains_edge(e, etype@, old(self)@.next_edge, props@)
                },
            },
    {
        let ghost before = *self;
        if !self.nodes.contains(src) {
            return Err(Error::NodeNotFound(src));
        }
        if !self.nodes.contains(dst) {
            return Err(Error::NodeNotFound(dst));
        }
        let id: EdgeId = self.next_edge;
        let ghost h0 = type_holding(before@.edges);
        let ghost keys = self.prop_keys@;
        if let Some(t) = self.types.scopes.number(etype) {
            proof {
                self.lemma_recorded();
            }
            match self.types.breach(&self.edges, &self.prop_keys, t, id, props, Ghost(h0)) {
                Some(e) => {
                    proof {
                        lemma_breach_explains(
                            self.types,
                            h0,
                            keys,
                            t,
                            etype@,
                            id,
                            props@,
                            e,
                        );
                    }
                    return Err(e);
                },
                None => {
                    proof {
                        lemma_no_breach_of(self.types, h0, keys, t, id, props@);
                    }
                },
            }
        }
        let t: TypeId = self.types.scopes.number_or_add(etype);
        proof {
            lemma_with_name(before@.types, etype@, etype@);
            assert(self.types == Catalog { scopes: self.types.scopes, ..before.types });
            self.types.lemma_more_scopes(before.types, h0, keys);
            assert(marks(self.types) =~= marks(before.types));
            assert(!before.edges@.dom().contains(id));
        }
        let ghost mid = self.types;
        self.types.enroll(&mut self.prop_keys, t, id, props, Ghost(h0));
        let ghost added = Relation { src, dst, ty: t, props: props@ };
        let ghost now = before@.edges.insert(id, added);
        self.edges.put(id, EdgeRecord { src, dst, edge_type: t, props: props.copy() });
        link(&mut self.out_adj, src, t, dst, id, Ghost(before@.edges), Ghost(now), Ghost(true));
        link(&mut self.in_adj, dst, t, src, id, Ghost(before@.edges), Ghost(now), Ghost(false));
        self.next_edge = id + 1;
        proof {
            assert(marks(self.types) =~= marks(mid));
            assert(self@.edges =~= now);
            assert(self@.nodes =~= before@.nodes);
            assert(type_holding(self@.edges) =~= h0.insert((t, id), props@));
            assert forall|x: EdgeId| #[trigger] self.edges@.dom().contains(x) implies x
                < self.next_edge && self.edges@[x].props.wf() && self.nodes@.dom().contains(
                self.edges@[x].src,
            ) && self.nodes@.dom().contains(self.edges@[x].dst) by {
                if x != id {
                    assert(before.edges@.dom().contains(x));
                }
            }
        }
        Ok(id)
    }

    /// Replaces the properties of an edge, unless a constraint refuses them.
    pub fn update_edge_impl(&mut self, id: EdgeId, props: &Props) -> (r: Result<(), Error>)
        requires
            old(self).wf(),
            props.wf(),
        ensures
            final(self).wf(),
            r is Err ==> *final(self) == *old(self),
            r == Err::<(), Error>(Error::EdgeNotFound(id)) <==> !old(self)@.edges.dom().contains(
                id,
            ),
            old(self)@.edges.dom().contains(id) ==> (r is Err <==> refused(
                type_holding(old(self)@.edges),
                old(self)@.keys,
                old(self)@.type_defs,
                old(self)@.edges[id].ty,
                id,
                props@,
            )),
            r matches Err(e) ==> !old(self)@.edges.dom().contains(id) || explains(
                type_holding(old(self)@.edges),
                old(self)@.keys,
                old(self)@.type_defs,
                old(self)@.edges[id].ty,
                old(self)@.types[old(self)@.edges[id].ty as int],
                id,
                props@,
                e,
            ),
            r is Ok ==> final(self)@ == old(self)@.with_edge_props(id, props@),
    {
        let ghost before = *self;
        let ghost h0 = type_holding(before@.edges);
        let ghost keys = self.prop_keys@;
        match self.edges.get(id) {
            None => {
                return Err(Error::EdgeNotFound(id));
            },
            Some(record) => {
                let t: TypeId = record.edge_type;
                proof {
                    self.lemma_recorded();
                    assert(h0.dom().contains((t, id)));
                }
                match self.types.breach(&self.edges, &self.prop_keys, t, id, props, Ghost(h0)) {
                    Some(e) => {
                        proof {
                            lemma_breach_explains(
                                self.types,
                                h0,
                                keys,
                                t,
                                self.types.scopes@[t as int],
                                id,
                                props@,
                                e,
                            );
                        }
                        return Err(e);
                    },
                    None => {
                        proof {
                            lemma_no_breach_of(self.types, h0, keys, t, id, props@);
                        }
                    },
                }
            },
        }
        let taken: Option<EdgeRecord> = self.edges.take(id);
        if let Some(record) = taken {
            let t: TypeId = record.edge_type;
            let ghost was = Relation {
                src: record.src,
                dst: record.dst,
                ty: t,
                props: record.props@,
            };
            assert(was == before@.edges[id]);
            self.types.dismiss(&self.prop_keys, t, id, &record.props, Ghost(h0));
            let ghost mid = self.types;
            let ghost h1 = h0.remove((t, id));
            proof {
                assert(marks(mid) =~= without_member(before@.type_marks, id)) by {
                    assert forall|k: (u32, u32, u64)| marks(mid).contains(k) <==> without_member(
                        before@.type_marks,
                        id,
                    ).contains(k) by {
                        if before.types.marked(k.0, k.1, k.2) && k.2 == id {
                            before.lemma_marks_of_types(k.0, k.1, k.2);
                        }
                    }
                }
            }
            self.types.enroll(&mut self.prop_keys, t, id, props, Ghost(h1));
            self.edges.put(
                id,
                EdgeRecord {
                    src: record.src,
                    dst: record.dst,
                    edge_type: t,
                    props: props.copy(),
                },
            );
            proof {
                assert(marks(self.types) =~= marks(mid));
                let now = before@.edges.insert(id, Relation { props: props@, ..was });
                assert(self@.edges =~= now);
                assert(self@.nodes =~= before@.nodes);
                assert(now.dom() =~= before@.edges.dom());
                assert(type_holding(self@.edges) =~= h1.insert((t, id), props@));
                lemma_same_adjacency(self.out_adj, before@.edges, now, true);
                lemma_same_adjacency(self.in_adj, before@.edges, now, false);
                assert forall|x: EdgeId| #[trigger] self.edges@.dom().contains(x) implies x
                    < self.next_edge && self.edges@[x].props.wf() && self.nodes@.dom().contains(
                    self.edges@[x].src,
                ) && self.nodes@.dom().contains(self.edges@[x].dst) by {
                    assert(before.edges@.dom().contains(x));
                }
            }
        }
        Ok(())
    }

    /// Deletes an edge, if it is there, and says which nodes it joined.
    pub fn delete_edge_impl(&mut self, id: EdgeId) -> (r: Option<(NodeId, NodeId)>)
        requires
            old(self).wf(),
        ensures
            final(self).wf(),
            r == (if old(self)@.edges.dom().contains(id) {
                Some((old(self)@.edges[id].src, old(self)@.edges[id].dst))
            } else {
                None
            }),
            final(self)@ == old(self)@.without_edge(id),
            final(self).nodes == old(self).nodes,
    {
        let ghost before = *self;
        let ghost h0 = type_holding(before@.edges);
        match self.edges.take(id) {
            None => {
                proof {
                    assert(self@.edges =~= before@.edges.remove(id));
                    assert(self@.edges =~= before@.edges);
                    assert(marks(self.types) =~= without_member(before@.type_marks, id)) by {
                        assert forall|k: (u32, u32, u64)| marks(self.types).contains(k)
                            <==> without_member(before@.type_marks, id).contains(k) by {
                            if before.types.marked(k.0, k.1, k.2) && k.2 == id {
                                before.lemma_marks_of_types(k.0, k.1, k.2);
                            }
                        }
                    }
                    assert(self.edges@ == before.edges@.remove(id));
                    assert(before.edges@.remove(id) =~= before.edges@);
                }
                None
            },
            Some(record) => {
                let t: TypeId = record.edge_type;
                assert(h0.dom().contains((t, id)));
                self.types.dismiss(&self.prop_keys, t, id, &record.props, Ghost(h0));
                let (src, dst): (NodeId, NodeId) = (record.src, record.dst);
                unlink(&mut self.out_adj, src, t, dst, id, Ghost(before@.edges), Ghost(true));
                unlink(&mut self.in_adj, dst, t, src, id, Ghost(before@.edges), Ghost(false));
                proof {
                    assert(marks(self.types) =~= without_member(before@.type_marks, id)) by {
                        assert forall|k: (u32, u32, u64)| marks(self.types).contains(k)
                            <==> without_member(before@.type_marks, id).contains(k) by {
                            if before.types.marked(k.0, k.1, k.2) && k.2 == id {
                                before.lemma_marks_of_types(k.0, k.1, k.2);
                            }
                        }
                    }
                    assert(self@.edges =~= before@.edges.remove(id));
                    assert(self@.nodes =~= before@.nodes);
                    assert(type_holding(self@.edges) =~= h0.remove((t, id)));
                    assert forall|x: EdgeId| #[trigger] self.edges@.dom().contains(x) implies x
                        < self.next_edge && self.edges@[x].props.wf() && self.nodes@.dom().contains(
                        self.edges@[x].src,
                    ) && self.nodes@.dom().contains(self.edges@[x].dst) by {
                        assert(before.edges@.dom().contains(x));
                    }
                }
                Some((record.src, record.dst))
            },
        }
    }

    /// The edges at a node on one side, with the nodes at their other ends.
    pub fn adj_entries_impl(&self, node: NodeId, outgoing: bool) -> (out: Vec<NeighborEntry>)
        requires
            self.wf(),
        ensures
            self@.lists_neighbors(node, outgoing, out@),
    {
        let adj: &KeySet = if outgoing {
            &self.out_adj
        } else {
            &self.in_adj
        };
        let mut prefix: Vec<u8> = Vec::new();
        push_be(&mut prefix, node, 8);
        assert(prefix@ =~= be_bytes(node as nat, 8));
        let (lo, hi): (usize, usize) = adj.scan(prefix.as_slice());
        let ghost ks = adj.keys@;
        let mut out: Vec<NeighborEntry> = Vec::new();
        let mut i: usize = lo;
        while i < hi
            invariant
                adjacency_matches(*adj, self@.edges, outgoing),
                ks == adj.keys@,
                prefix@ == be_bytes(node as nat, 8),
                lo <= i <= hi <= ks.len(),
                forall|k: int|
                    0 <= k < ks.len() ==> (lo <= k < hi <==> begins(prefix@, #[trigger] ks[k]@)),
                out@.len() == i - lo,
                forall|k: int|
                    lo <= k < i ==> (#[trigger] ks[k])@ == adj_key(
                        node,
                        out@[k - lo].edge_type,
                        out@[k - lo].node,
                        out@[k - lo].edge,
                    ),
            decreases hi - i,
        {
            proof {
                let key = ks[i as int]@;
                assert(adj.has(key));
                let (n, t, o, x) = choose|n: NodeId, t: TypeId, o: NodeId, x: EdgeId|
                    key == #[trigger] adj_key(n, t, o, x);
                lemma_adj_key(node, t, o, x, n, t, o, x);
            }
            let key: &[u8] = adj.keys[i].as_slice();
            let ty: u64 = read_le(key, 8, 12);
            let other: NodeId = read_le(key, 12, 20);
            let edge: EdgeId = read_le(key, 20, 28);
            out.push(NeighborEntry { node: other, edge, edge_type: ty as u32 });
            i = i + 1;
        }
        proof {
            assert forall|a: int| 0 <= a < out@.len() implies self@.neighbors(
                #[trigger] out@[a],
                node,
                outgoing,
            ) by {
                let n = out@[a];
                assert(ks[lo + a]@ == adj_key(node, out@[lo + a - lo].edge_type, out@[lo + a
                    - lo].node, out@[lo + a - lo].edge));
                assert(adj.has(adj_key(node, n.edge_type, n.node, n.edge)));
            }
            assert forall|a: int, b: int| 0 <= a < b < out@.len() implies bytes_lt(
                entry_key()(#[trigger] out@[a]),
                entry_key()(#[trigger] out@[b]),
            ) by {
                let (m, n) = (out@[a], out@[b]);
                assert(ks[lo + a]@ == adj_key(node, out@[lo + a - lo].edge_type, out@[lo + a
                    - lo].node, out@[lo + a - lo].edge));
                assert(ks[lo + b]@ == adj_key(node, out@[lo + b - lo].edge_type, out@[lo + b
                    - lo].node, out@[lo + b - lo].edge));
                lemma_adj_key(
                    node,
                    m.edge_type,
                    m.node,
                    m.edge,
                    node,
                    n.edge_type,
                    n.node,
                    n.edge,
                );
            }
            assert forall|e: EdgeId| #[trigger]
                self@.edges.dom().contains(e) && end_of(self@.edges[e], outgoing)
                    == node implies exists|i: int|
                0 <= i < out@.len() && (#[trigger] out@[i]).edge == e by {
                let r = self@.edges[e];
                let o = end_of(r, !outgoing);
                assert(adj.has(adj_key(node, r.ty, o, e)));
                let k = choose|k: int|
                    0 <= k < ks.len() && (#[trigger] ks[k])@ == adj_key(node, r.ty, o, e);
                lemma_adj_key(node, r.ty, o, e, node, r.ty, o, e);
                assert(begins(prefix@, ks[k]@));
                let n = out@[k - lo];
                lemma_adj_key(node, r.ty, o, e, node, n.edge_type, n.node, n.edge);
                assert(out@[k - lo].edge == e);
            }
        }
        out
    }

    /// The edges at a node on one side.
    pub fn edges_at(&self, node: NodeId, outgoing: bool) -> (out: Vec<EdgeId>)
        requires
            self.wf(),
        ensures
            forall|e: EdgeId| #[trigger]
                out@.contains(e) <==> self@.edges.dom().contains(e) && end_of(
                    self@.edges[e],
                    outgoing,
                ) == node,
    {
        let list: Vec<NeighborEntry> = self.adj_entries_impl(node, outgoing);
        let mut out: Vec<EdgeId> = Vec::new();
        let mut i: usize = 0;
        while i < list.len()
            invariant
                i <= list@.len(),
                out@.len() == i,
                forall|j: int| 0 <= j < i ==> out@[j] == (#[trigger] list@[j]).edge,
            decreases list@.len() - i,
        {
            out.push(list[i].edge);
            i = i + 1;
        }
        proof {
            assert forall|e: EdgeId| #[trigger]
                out@.contains(e) <==> self@.edges.dom().contains(e) && end_of(
                    self@.edges[e],
                    outgoing,
                ) == node by {
                if out@.contains(e) {
                    let j = out@.index_of(e);
                    assert(out@[j] == list@[j].edge);
                    assert(self@.neighbors(list@[j], node, outgoing));
                }
                if self@.edges.dom().contains(e) && end_of(self@.edges[e], outgoing) == node {
                    let j = choose|j: int| 0 <= j < list@.len() && (#[trigger] list@[j]).edge == e;
                    assert(out@[j] == e);
                }
            }
        }
        out
    }

    /// Deletes the edges of a list.
    fn delete_edges(&mut self, list: &Vec<EdgeId>)
        requires
            old(self).wf(),
        ensures
            final(self).wf(),
            final(self).nodes == old(self).nodes,
            final(self)@ == (Content {
                edges: old(self)@.edges.remove_keys(list@.to_set()),
                type_marks: final(self)@.type_marks,
                ..old(self)@
            }),
            forall|k: (u32, u32, u64)| #[trigger]
                final(self)@.type_marks.contains(k) <==> old(self)@.type_marks.contains(k)
                    && !list@.contains(k.2),
    {
        let ghost before = *self;
        let mut i: usize = 0;
        assert(self@.edges =~= before@.edges.remove_keys(list@.take(0).to_set()));
        while i < list.len()
            invariant
                i <= list@.len(),
                self.wf(),
                self.nodes == before.nodes,
                self@ == (Content {
                    edges: before@.edges.remove_keys(list@.take(i as int).to_set()),
                    type_marks: self@.type_marks,
                    ..before@
                }),
                forall|k: (u32, u32, u64)| #[trigger]
                    self@.type_marks.contains(k) <==> before@.type_marks.contains(k)
                        && !list@.take(i as int).contains(k.2),
            decreases list@.len() - i,
        {
            let ghost was = self@;
            self.delete_edge_impl(list[i]);
            proof {
                let (a, b) = (list@.take(i as int), list@.take(i + 1));
                assert(b =~= a.push(list@[i as int]));
                assert forall|x: EdgeId| #[trigger] b.contains(x) <==> a.contains(x) || x
                    == list@[i as int] by {
                    if a.contains(x) {
                        let j = a.index_of(x);
                        assert(b[j] == x);
                    }
                    assert(b[i as int] == list@[i as int]);
                    if b.contains(x) {
                        let j = b.index_of(x);
                        if j < i {
                            assert(a[j] == x);
                        }
                    }
                }
                assert(self@.edges =~= before@.edges.remove_keys(b.to_set()));
                assert forall|k: (u32, u32, u64)| #[trigger]
                    self@.type_marks.contains(k) <==> before@.type_marks.contains(k)
                        && !b.contains(k.2) by {
                    assert(was.type_marks.contains(k) <==> before@.type_marks.contains(k)
                        && !a.contains(k.2));
                }
            }
            i = i + 1;
        }
        assert(list@.take(i as int) =~= list@);
    }

    /// Deletes a node, if it is there, with the edges at it.
    pub fn delete_node_impl(&mut self, id: NodeId)
        requires
            old(self).wf(),
        ensures
            final(self).wf(),
            final(self)@ == (if old(self)@.nodes.dom().contains(id) {
                old(self)@.without_node(id)
            } else {
                old(self)@
            }),
    {
        let ghost before = *self;
        if !self.nodes.contains(id) {
            return;
        }
        let leaving: Vec<EdgeId> = self.edges_at(id, true);
        self.delete_edges(&leaving);
        let ghost mid = *self;
        let entering: Vec<EdgeId> = self.edges_at(id, false);
        self.delete_edges(&entering);
        let ghost cut = *self;
        let ghost h0 = label_holding(cut@.nodes);
        proof {
            self.lemma_labels_held(id);
        }
        let taken: Option<NodeRecord> = self.nodes.take(id);
        if let Some(record) = taken {
            let ghost list = record.labels@;
            dismiss_all(
                &mut self.labels,
                &self.prop_keys,
                &record.labels,
                id,
                &record.props,
                Ghost(h0),
            );
            proof {
                assert forall|e: EdgeId| #[trigger]
                    self@.edges.dom().contains(e) <==> before@.edges.dom().contains(e)
                        && !before@.touches(e, id) by {
                    assert(leaving@.contains(e) <==> before@.edges.dom().contains(e) && end_of(
                        before@.edges[e],
                        true,
                    ) == id);
                    assert(entering@.contains(e) <==> mid@.edges.dom().contains(e) && end_of(
                        mid@.edges[e],
                        false,
                    ) == id);
                }
                assert(self@.edges =~= before@.without_node(id).edges);
                assert(self@.nodes =~= before@.nodes.remove(id));
                assert(label_holding(self@.nodes) =~= dismissed(h0, list, id));
                assert(marks(self.labels) =~= without_member(before@.label_marks, id)) by {
                    assert forall|k: (u32, u32, u64)| marks(self.labels).contains(k)
                        <==> without_member(before@.label_marks, id).contains(k) by {
                        if cut.labels.marked(k.0, k.1, k.2) && k.2 == id {
                            crate::store_nodes::lemma_marks_of_labels(cut, k.0, k.1, k.2);
                        }
                        assert(cut@.label_marks == before@.label_marks);
                    }
                }
                assert(self@.type_marks =~= before@.without_node(id).type_marks) by {
                    assert forall|k: (u32, u32, u64)| self@.type_marks.contains(k)
                        <==> before@.without_node(id).type_marks.contains(k) by {
                        assert(self@.type_marks == cut@.type_marks);
                        assert(cut@.type_marks.contains(k) <==> mid@.type_marks.contains(k)
                            && !entering@.contains(k.2));
                        assert(mid@.type_marks.contains(k) <==> before@.type_marks.contains(k)
                            && !leaving@.contains(k.2));
                        if mid.types.marked(k.0, k.1, k.2) {
                            mid.lemma_marks_of_types(k.0, k.1, k.2);
                        }
                        assert(leaving@.contains(k.2) <==> before@.edges.dom().contains(k.2)
                            && end_of(before@.edges[k.2], true) == id);
                        assert(entering@.contains(k.2) <==> mid@.edges.dom().contains(k.2)
                            && end_of(mid@.edges[k.2], false) == id);
                    }
                }
                assert forall|x: EdgeId| #[trigger] self.edges@.dom().contains(x) implies x
                    < self.next_edge && self.edges@[x].props.wf() && self.nodes@.dom().contains(
                    self.edges@[x].src,
                ) && self.nodes@.dom().contains(self.edges@[x].dst) by {
                    assert(cut.edges@.dom().contains(x));
                    assert(self@.edges.dom().contains(x));
                    assert(!before@.touches(x, id));
                    assert(self@.edges[x] == before@.edges[x]);
                }
            }
        }
    }
}

} // verus!
