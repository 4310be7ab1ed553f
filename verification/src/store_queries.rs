//! What can be asked of a store, and the indexes and constraints on it.

use vstd::prelude::*;

use crate::catalog::{
    defined, has_def, has_encoded, reports, unmet, with_def, without_def, Catalog, Holding,
    IndexDef,
};
use crate::csr::ascending;
use crate::entries::sorted_by_key;
use crate::error::Error;
use crate::schema::{EdgeId, LabelId, NodeId, PropKeyId, TypeId};
use crate::store::{
    end_of, entry_bytes, label_holding, type_holding, Content, EdgeRecord, NodeRecord, Store,
};
use crate::store_edges::{DirectedNeighborEntry, NeighborEntry};
use crate::tables::{lemma_with_name, number_of_name, with_name, Names};
use crate::value::{encoding, same_value, PropValue, Val};

verus! {

/// The nodes that satisfy `wanted`, in the order of `nodes`.
pub open spec fn selected(nodes: Seq<NodeId>, wanted: spec_fn(NodeId) -> bool) -> Seq<NodeId> {
    nodes.filter(wanted)
}

/// The bytes by which neighbor entries are sorted.
pub open spec fn entry_key() -> spec_fn(NeighborEntry) -> Seq<u8> {
    |n: NeighborEntry| entry_bytes(n.edge_type, n.node, n.edge)
}

impl Content {
    /// The nodes that carry a label.
    pub open spec fn carriers(&self, label: Seq<char>) -> spec_fn(NodeId) -> bool {
        |id: NodeId| self.carries(id, label)
    }

    /// The edges that have a type.
    pub open spec fn typed(&self, ty: Seq<char>) -> spec_fn(EdgeId) -> bool {
        |id: EdgeId| self.has_type(id, ty)
    }

    /// Whether a lookup under a label finds a node: the node carries the label
    /// and has the same value in the property. A null value is found where an
    /// index was created over it.
    pub open spec fn finds_node(
        &self,
        label: Seq<char>,
        property: Seq<char>,
        v: Val,
        id: NodeId,
    ) -> bool {
        &&& self.carries(id, label)
        &&& self.nodes[id].props.dom().contains(property)
        &&& same_value(self.nodes[id].props[property], v)
        &&& v is Null ==> self.label_marks.contains(
            (
                number_of_name(self.labels, label)->0,
                number_of_name(self.keys, property)->0,
                id,
            ),
        ) && number_of_name(self.keys, property) is Some
    }

    /// Whether a lookup under a type finds an edge: the edge has the type and
    /// the same value in the property, and an index or constraint is defined
    /// on it or the value is too long for one.
    pub open spec fn finds_edge(
        &self,
        ty: Seq<char>,
        property: Seq<char>,
        v: Val,
        id: EdgeId,
    ) -> bool {
        &&& self.has_type(id, ty)
        &&& self.edges[id].props.dom().contains(property)
        &&& same_value(self.edges[id].props[property], v)
        &&& encoding(v) is Some ==> number_of_name(self.keys, property) is Some && defined(
            self.type_defs,
            self.edges[id].ty,
            number_of_name(self.keys, property)->0,
        )
        &&& v is Null ==> self.type_marks.contains(
            (self.edges[id].ty, number_of_name(self.keys, property)->0, id),
        )
    }

    /// Whether a node and its edge are a neighbor entry.
    pub open spec fn neighbors(&self, n: NeighborEntry, node: NodeId, outgoing: bool) -> bool {
        &&& self.edges.dom().contains(n.edge)
        &&& end_of(self.edges[n.edge], outgoing) == node
        &&& end_of(self.edges[n.edge], !outgoing) == n.node
        &&& self.edges[n.edge].ty == n.edge_type
    }

    /// The entries for all edges at a node on one side, in the order of their bytes.
    pub open spec fn lists_neighbors(
        &self,
        node: NodeId,
        outgoing: bool,
        out: Seq<NeighborEntry>,
    ) -> bool {
        &&& sorted_by_key(out, entry_key())
        &&& forall|i: int| 0 <= i < out.len() ==> self.neighbors(#[trigger] out[i], node, outgoing)
        &&& forall|e: EdgeId| #[trigger]
            self.edges.dom().contains(e) && end_of(self.edges[e], outgoing) == node
                ==> exists|i: int| 0 <= i < out.len() && (#[trigger] out[i]).edge == e
    }

    /// The entries for all edges at a node: those that leave it, then those
    /// that enter it.
    pub open spec fn lists_all_neighbors(
        &self,
        node: NodeId,
        out: Seq<DirectedNeighborEntry>,
    ) -> bool {
        exists|a: Seq<NeighborEntry>, b: Seq<NeighborEntry>|
            {
                &&& #[trigger] self.lists_neighbors(node, true, a)
                &&& #[trigger] self.lists_neighbors(node, false, b)
                &&& out == with_direction(a, true) + with_direction(b, false)
            }
    }

    /// Whether an edge begins or ends at a node.
    pub open spec fn has_edges(&self, node: NodeId) -> bool {
        exists|e: EdgeId| #[trigger] self.touches(e, node)
    }
}

/// Entries with their direction.
pub open spec fn with_direction(list: Seq<NeighborEntry>, outgoing: bool) -> Seq<
    DirectedNeighborEntry,
> {
    list.map_values(|n: NeighborEntry| directed(n, outgoing))
}

/// An entry with its direction.
pub open spec fn directed(n: NeighborEntry, outgoing: bool) -> DirectedNeighborEntry {
    DirectedNeighborEntry { node: n.node, edge: n.edge, edge_type: n.edge_type, outgoing }
}

impl Store {
    /// The record of a node.
    pub fn get_node_impl(&self, id: NodeId) -> (r: Option<&NodeRecord>)
        requires
            self.wf(),
        ensures
            r is Some <==> self@.nodes.dom().contains(id),
            r matches Some(n) ==> n@ == self@.nodes[id] && n.props.wf(),
    {
        self.nodes.get(id)
    }

    /// The record of an edge.
    pub fn get_edge_impl(&self, id: EdgeId) -> (r: Option<&EdgeRecord>)
        requires
            self.wf(),
        ensures
            r is Some <==> self@.edges.dom().contains(id),
            r matches Some(e) ==> e@ == self@.edges[id] && e.props.wf(),
    {
        self.edges.get(id)
    }

    /// All nodes, in ascending order of their ids.
    pub fn all_nodes_impl(&self) -> (out: Vec<NodeId>)
        requires
            self.wf(),
        ensures
            ascending(out@),
            forall|id: NodeId| #[trigger] out@.contains(id) <==> self@.nodes.dom().contains(id),
    {
        let mut out: Vec<NodeId> = Vec::new();
        let mut i: usize = 0;
        while i < self.nodes.keys.len()
            invariant
                i <= self.nodes.keys@.len(),
                out@ == self.nodes.keys@.take(i as int),
            decreases self.nodes.keys@.len() - i,
        {
            out.push(self.nodes.keys[i]);
            assert(out@ =~= self.nodes.keys@.take(i + 1));
            i = i + 1;
        }
        assert(out@ =~= self.nodes.keys@);
        out
    }

    /// The nodes that carry a label, in ascending order of their ids.
    pub fn nodes_by_label_impl(&self, label: &str) -> (out: Vec<NodeId>)
        requires
            self.wf(),
        ensures
            ascending(out@),
            forall|id: NodeId| #[trigger] out@.contains(id) <==> self@.carries(id, label@),
    {
        match self.labels.scopes.number(label) {
            None => Vec::new(),
            Some(l) => self.labels.ids(l, Ghost(label_holding(self@.nodes))),
        }
    }

    /// The edges that have a type, in ascending order of their ids.
    pub fn edges_by_type_impl(&self, etype: &str) -> (out: Vec<EdgeId>)
        requires
            self.wf(),
        ensures
            ascending(out@),
            forall|id: EdgeId| #[trigger] out@.contains(id) <==> self@.has_type(id, etype@),
    {
        match self.types.scopes.number(etype) {
            None => Vec::new(),
            Some(t) => self.types.ids(t, Ghost(type_holding(self@.edges))),
        }
    }

    /// The nodes of a list that carry a label, in the order of the list.
    pub fn label_filter(&self, nodes: &[NodeId], label: &str) -> (out: Vec<NodeId>)
        requires
            self.wf(),
        ensures
            out@ == selected(nodes@, self@.carriers(label@)),
    {
        let ghost wanted = self@.carriers(label@);
        let mut out: Vec<NodeId> = Vec::new();
        let found: Option<LabelId> = self.labels.scopes.number(label);
        let mut i: usize = 0;
        proof {
            assert(nodes@.take(0) =~= Seq::<NodeId>::empty());
            reveal(Seq::filter);
        }
        while i < nodes.len()
            invariant
                self.wf(),
                wanted == self@.carriers(label@),
                found == number_of_name(self@.labels, label@),
                i <= nodes@.len(),
                out@ == nodes@.take(i as int).filter(wanted),
            decreases nodes@.len() - i,
        {
            let keep: bool = match found {
                None => false,
                Some(l) => self.labels.is_member(
                    l,
                    nodes[i],
                    Ghost(label_holding(self@.nodes)),
                ),
            };
            assert(keep == wanted(nodes@[i as int]));
            if keep {
                out.push(nodes[i]);
            }
            proof {
                reveal(Seq::filter);
                assert(nodes@.take(i + 1).drop_last() =~= nodes@.take(i as int));
                assert(nodes@.take(i + 1).last() == nodes@[i as int]);
            }
            i = i + 1;
        }
        assert(nodes@.take(i as int) =~= nodes@);
        out
    }

    /// The name that a label's number stands for.
    pub fn label_name_impl(&self, id: LabelId) -> (r: Option<String>)
        ensures
            r is Some <==> id < self@.labels.len(),
            r matches Some(s) ==> s@ == self@.labels[id as int],
    {
        self.labels.scopes.name(id)
    }

    /// The name that a relationship type's number stands for.
    pub fn type_name_impl(&self, id: TypeId) -> (r: Option<String>)
        ensures
            r is Some <==> id < self@.types.len(),
            r matches Some(s) ==> s@ == self@.types[id as int],
    {
        self.types.scopes.name(id)
    }

    /// How many nodes carry a label.
    pub fn node_count_by_label_impl(&self, label: &str) -> (n: u64)
        requires
            self.wf(),
        ensures
            n == Set::new(self@.carriers(label@)).len(),
    {
        let ids: Vec<NodeId> = self.nodes_by_label_impl(label);
        proof {
            let all = Set::new(self@.carriers(label@));
            assert(ids@.to_set() =~= all);
            assert(ids@.no_duplicates());
            ids@.unique_seq_to_set();
        }
        ids.len() as u64
    }

    /// How many edges have a type.
    pub fn edge_count_by_type_impl(&self, etype: &str) -> (n: u64)
        requires
            self.wf(),
        ensures
            n == Set::new(self@.typed(etype@)).len(),
    {
        let ids: Vec<EdgeId> = self.edges_by_type_impl(etype);
        proof {
            let all = Set::new(self@.typed(etype@));
            assert(ids@.to_set() =~= all);
            assert(ids@.no_duplicates());
            ids@.unique_seq_to_set();
        }
        ids.len() as u64
    }

    /// The names of a node's labels, in the order in which they were added; none
    /// where there is no such node.
    pub fn node_labels_impl(&self, id: NodeId) -> (out: Vec<String>)
        requires
            self.wf(),
        ensures
            !self@.nodes.dom().contains(id) ==> out@.len() == 0,
            self@.nodes.dom().contains(id) ==> out@.len() == self@.nodes[id].labels.len() && forall|
                i: int,
            |
                0 <= i < out@.len() ==> (#[trigger] out@[i])@
                    == self@.labels[self@.nodes[id].labels[i] as int],
    {
        let mut out: Vec<String> = Vec::new();
        match self.nodes.get(id) {
            None => {},
            Some(record) => {
                proof {
                    self.lemma_labels_held(id);
                }
                let mut i: usize = 0;
                while i < record.labels.len()
                    invariant
                        i <= record.labels@.len(),
                        record@ == self@.nodes[id],
                        forall|j: int|
                            0 <= j < record.labels@.len() ==> (#[trigger] record.labels@[j])
                                < self@.labels.len(),
                        out@.len() == i,
                        forall|j: int|
                            0 <= j < i ==> (#[trigger] out@[j])@
                                == self@.labels[self@.nodes[id].labels[j] as int],
                    decreases record.labels@.len() - i,
                {
                    out.push(self.labels.scopes.names[record.labels[i] as usize].clone());
                    i = i + 1;
                }
            },
        }
        out
    }

    /// The edges at a node: those that leave it, then those that enter it.
    pub fn all_neighbors_impl(&self, node: NodeId) -> (out: Vec<DirectedNeighborEntry>)
        requires
            self.wf(),
        ensures
            self@.lists_all_neighbors(node, out@),
    {
        let a: Vec<NeighborEntry> = self.adj_entries_impl(node, true);
        let b: Vec<NeighborEntry> = self.adj_entries_impl(node, false);
        let mut out: Vec<DirectedNeighborEntry> = Vec::new();
        let mut i: usize = 0;
        while i < a.len()
            invariant
                i <= a@.len(),
                out@.len() == i,
                forall|j: int| 0 <= j < i ==> out@[j] == directed(a@[j], true),
            decreases a@.len() - i,
        {
            let n: NeighborEntry = a[i];
            out.push(
                DirectedNeighborEntry {
                    node: n.node,
                    edge: n.edge,
                    edge_type: n.edge_type,
                    outgoing: true,
                },
            );
            i = i + 1;
        }
        let mut k: usize = 0;
        while k < b.len()
            invariant
                k <= b@.len(),
                out@.len() == a@.len() + k,
                forall|j: int| 0 <= j < a@.len() ==> out@[j] == directed(a@[j], true),
                forall|j: int|
                    a@.len() <= j < a@.len() + k ==> out@[j] == directed(b@[j - a@.len()], false),
            decreases b@.len() - k,
        {
            let n: NeighborEntry = b[k];
            out.push(
                DirectedNeighborEntry {
                    node: n.node,
                    edge: n.edge,
                    edge_type: n.edge_type,
                    outgoing: false,
                },
            );
            k = k + 1;
        }
        proof {
            assert(out@ =~= with_direction(a@, true) + with_direction(b@, false));
            assert(self@.lists_neighbors(node, true, a@));
            assert(self@.lists_neighbors(node, false, b@));
        }
        out
    }

    /// Whether an edge begins or ends at a node.
    pub fn node_has_relationships(&self, node: NodeId) -> (r: bool)
        requires
            self.wf(),
        ensures
            r == self@.has_edges(node),
    {
        let out: Vec<EdgeId> = self.edges_at(node, true);
        if out.len() > 0 {
            proof {
                assert(out@.contains(out@[0]));
                assert(self@.touches(out@[0], node));
            }
            return true;
        }
        let ins: Vec<EdgeId> = self.edges_at(node, false);
        proof {
            if ins@.len() > 0 {
                assert(ins@.contains(ins@[0]));
                assert(self@.touches(ins@[0], node));
            }
            if exists|e: EdgeId| #[trigger] self@.touches(e, node) {
                let e = choose|e: EdgeId| #[trigger] self@.touches(e, node);
                assert(!out@.contains(e));
                assert(ins@.contains(e));
            }
        }
        ins.len() > 0
    }

    /// The nodes under a label that have a value in a property, in ascending
    /// order of their ids.
    pub fn nodes_by_property_impl(&self, label: &str, property: &str, val: &PropValue) -> (out: Vec<
        NodeId,
    >)
        requires
            self.wf(),
        ensures
            ascending(out@),
            forall|id: NodeId| #[trigger]
                out@.contains(id) <==> self@.finds_node(label@, property@, val@, id),
    {
        match self.labels.scopes.number(label) {
            None => Vec::new(),
            Some(l) => {
                proof {
                    self.lemma_recorded();
                }
                let ghost h = label_holding(self@.nodes);
                let out: Vec<NodeId> = self.labels.lookup(
                    &self.nodes,
                    &self.prop_keys,
                    l,
                    property,
                    val,
                    Ghost(h),
                );
                proof {
                    assert forall|id: NodeId| #[trigger]
                        out@.contains(id) <==> self@.finds_node(
                            label@,
                            property@,
                            val@,
                            id,
                        ) by {
                        assert(self.labels.finds(h, self@.keys, l, property@, val@, id)
                            <==> out@.contains(id));
                        assert(h.dom().contains((l, id)) <==> self@.carries(id, label@));
                    }
                }
                out
            },
        }
    }

    /// The edges of a type that have a value in a property, in ascending order
    /// of their ids.
    pub fn edges_by_property_impl(&self, etype: &str, property: &str, val: &PropValue) -> (out: Vec<
        EdgeId,
    >)
        requires
            self.wf(),
        ensures
            ascending(out@),
            forall|id: EdgeId| #[trigger]
                out@.contains(id) <==> self@.finds_edge(etype@, property@, val@, id),
    {
        match self.types.scopes.number(etype) {
            None => Vec::new(),
            Some(t) => {
                proof {
                    self.lemma_recorded();
                }
                let ghost h = type_holding(self@.edges);
                let out: Vec<EdgeId> = self.types.lookup(
                    &self.edges,
                    &self.prop_keys,
                    t,
                    property,
                    val,
                    Ghost(h),
                );
                proof {
                    assert forall|id: EdgeId| #[trigger]
                        out@.contains(id) <==> self@.finds_edge(
                            etype@,
                            property@,
                            val@,
                            id,
                        ) by {
                        assert(self.types.finds(h, self@.keys, t, property@, val@, id)
                            <==> out@.contains(id));
                        assert(h.dom().contains((t, id)) <==> self@.has_type(id, etype@));
                        if val@ is Null && number_of_name(self@.keys, property@) is Some {
                            let p = number_of_name(self@.keys, property@)->0;
                            if self.types.marked(t, p, id) {
                                assert(defined(self@.type_defs, t, p));
                            }
                        }
                    }
                }
                out
            },
        }
    }

    /// The nodes under a label with a property between two bounds.
    pub fn nodes_by_property_range_impl(
        &self,
        label: &str,
        property: &str,
        min_val: &Option<PropValue>,
        min_inclusive: bool,
        max_val: &Option<PropValue>,
        max_inclusive: bool,
    ) -> (out: Vec<NodeId>)
        requires
            self.wf(),
        ensures
            match number_of_name(self@.labels, label@) {
                None => out@.len() == 0,
                Some(l) => self.labels.ranges(
                    label_holding(self@.nodes),
                    self@.keys,
                    l,
                    property@,
                    *min_val,
                    min_inclusive,
                    *max_val,
                    max_inclusive,
                    out@,
                ),
            },
    {
        match self.labels.scopes.number(label) {
            None => Vec::new(),
            Some(l) => {
                proof {
                    self.lemma_recorded();
                }
                self.labels.lookup_range(
                    &self.nodes,
                    &self.prop_keys,
                    l,
                    property,
                    min_val,
                    min_inclusive,
                    max_val,
                    max_inclusive,
                    Ghost(label_holding(self@.nodes)),
                )
            },
        }
    }

    /// The edges of a type with a property between two bounds, both of them admitted.
    pub fn edges_by_property_range_impl(
        &self,
        etype: &str,
        property: &str,
        min_val: &Option<PropValue>,
        max_val: &Option<PropValue>,
    ) -> (out: Vec<EdgeId>)
        requires
            self.wf(),
        ensures
            match number_of_name(self@.types, etype@) {
                None => out@.len() == 0,
                Some(t) => self.types.ranges(
                    type_holding(self@.edges),
                    self@.keys,
                    t,
                    property@,
                    *min_val,
                    true,
                    *max_val,
                    true,
                    out@,
                ),
            },
    {
        match self.types.scopes.number(etype) {
            None => Vec::new(),
            Some(t) => {
                proof {
                    self.lemma_recorded();
                }
                self.types.lookup_range(
                    &self.edges,
                    &self.prop_keys,
                    t,
                    property,
                    min_val,
                    true,
                    max_val,
                    true,
                    Ghost(type_holding(self@.edges)),
                )
            },
        }
    }

    /// Whether the index holds a value of a property under a label.
    pub fn has_node_property_index_impl(&self, label: &str, property: &str) -> (r: bool)
        requires
            self.wf(),
        ensures
            r <==> exists|l: LabelId, p: PropKeyId, e: Seq<u8>, id: NodeId|
                {
                    &&& number_of_name(self@.labels, label@) == Some(l)
                    &&& number_of_name(self@.keys, property@) == Some(p)
                    &&& #[trigger] self.labels.listed(
                        label_holding(self@.nodes),
                        self@.keys,
                        l,
                        p,
                        e,
                        id,
                    )
                },
    {
        match (self.labels.scopes.number(label), self.prop_keys.number(property)) {
            (Some(l), Some(p)) => self.labels.has_entries(
                l,
                p,
                Ghost(label_holding(self@.nodes)),
                Ghost(self@.keys),
            ),
            _ => false,
        }
    }
}

/// The entries of null values once an index or constraint is defined.
pub open spec fn with_marks(
    had: Set<(u32, u32, u64)>,
    h: Holding,
    keys: Seq<Seq<char>>,
    s: u32,
    p: PropKeyId,
) -> Set<(u32, u32, u64)> {
    Set::new(
        |k: (u32, u32, u64)|
            had.contains(k) || (k.0 == s && k.1 == p && has_encoded(h, keys, s, p, seq![0u8], k.2)),
    )
}

/// The entries of null values once an index or constraint is gone.
pub open spec fn without_marks(had: Set<(u32, u32, u64)>, s: u32, p: PropKeyId) -> Set<
    (u32, u32, u64),
> {
    had.filter(|k: (u32, u32, u64)| !(k.0 == s && k.1 == p))
}

impl Content {
    /// Whether an index or constraint of this kind is defined on a property of a label.
    pub open spec fn label_indexed(&self, label: Seq<char>, property: Seq<char>, flags: u8) -> bool {
        has_def(self.labels, self.keys, self.label_defs, label, property, flags)
    }

    /// Whether an index or constraint of this kind is defined on a property of a type.
    pub open spec fn type_indexed(&self, ty: Seq<char>, property: Seq<char>, flags: u8) -> bool {
        has_def(self.types, self.keys, self.type_defs, ty, property, flags)
    }

    /// Whether the nodes with a label do not satisfy a constraint.
    pub open spec fn label_unmet(&self, label: Seq<char>, property: Seq<char>, flags: u8) -> bool {
        number_of_name(self.labels, label) matches Some(l) && unmet(
            label_holding(self.nodes),
            l,
            property,
            flags,
        )
    }

    /// Whether the edges with a type do not satisfy a constraint.
    pub open spec fn type_unmet(&self, ty: Seq<char>, property: Seq<char>, flags: u8) -> bool {
        number_of_name(self.types, ty) matches Some(t) && unmet(
            type_holding(self.edges),
            t,
            property,
            flags,
        )
    }

    /// This content with an index or constraint on a property of a label.
    pub open spec fn with_label_def(
        &self,
        label: Seq<char>,
        property: Seq<char>,
        flags: u8,
    ) -> Content {
        let labels = with_name(self.labels, label);
        let keys = with_name(self.keys, property);
        let l = number_of_name(labels, label)->0;
        let p = number_of_name(keys, property)->0;
        if self.label_indexed(label, property, flags) {
            *self
        } else {
            Content {
                labels,
                keys,
                label_defs: with_def(self.label_defs, IndexDef { scope: l, prop: p, flags }),
                label_marks: with_marks(
                    self.label_marks,
                    label_holding(self.nodes),
                    keys,
                    l,
                    p,
                ),
                ..*self
            }
        }
    }

    /// This content with the names of a label and a property numbered.
    pub open spec fn with_names(&self, label: Seq<char>, property: Seq<char>) -> Content {
        Content {
            labels: with_name(self.labels, label),
            keys: with_name(self.keys, property),
            ..*self
        }
    }

    /// This content without an index or constraint on a property of a label.
    pub open spec fn without_label_def(
        &self,
        label: Seq<char>,
        property: Seq<char>,
        flags: u8,
    ) -> Content {
        let labels = with_name(self.labels, label);
        let keys = with_name(self.keys, property);
        let l = number_of_name(labels, label)->0;
        let p = number_of_name(keys, property)->0;
        if self.label_indexed(label, property, flags) {
            Content {
                labels,
                keys,
                label_defs: without_def(self.label_defs, l, p),
                label_marks: without_marks(self.label_marks, l, p),
                ..*self
            }
        } else {
            Content { labels, keys, ..*self }
        }
    }

    /// This content with an index or constraint on a property of a type.
    pub open spec fn with_type_def(
        &self,
        ty: Seq<char>,
        property: Seq<char>,
        flags: u8,
    ) -> Content {
        let types = with_name(self.types, ty);
        let keys = with_name(self.keys, property);
        let t = number_of_name(types, ty)->0;
        let p = number_of_name(keys, property)->0;
        if self.type_indexed(ty, property, flags) {
            *self
        } else {
            Content {
                types,
                keys,
                type_defs: with_def(self.type_defs, IndexDef { scope: t, prop: p, flags }),
                type_marks: with_marks(self.type_marks, type_holding(self.edges), keys, t, p),
                ..*self
            }
        }
    }

    /// This content without an index or constraint on a property of a type.
    pub open spec fn without_type_def(
        &self,
        ty: Seq<char>,
        property: Seq<char>,
        flags: u8,
    ) -> Content {
        let types = with_name(self.types, ty);
        let keys = with_name(self.keys, property);
        let t = number_of_name(types, ty)->0;
        let p = number_of_name(keys, property)->0;
        if self.type_indexed(ty, property, flags) {
            Content {
                types,
                keys,
                type_defs: without_def(self.type_defs, t, p),
                type_marks: without_marks(self.type_marks, t, p),
                ..*self
            }
        } else {
            Content { types, keys, ..*self }
        }
    }
}

/// Where both names have numbers, adding them changes nothing.
proof fn lemma_names_there(
    scopes: Seq<Seq<char>>,
    keys: Seq<Seq<char>>,
    scope: Seq<char>,
    name: Seq<char>,
    defs: Seq<IndexDef>,
    flags: u8,
)
    requires
        has_def(scopes, keys, defs, scope, name, flags),
    ensures
        with_name(scopes, scope) == scopes,
        with_name(keys, name) == keys,
{
}

impl Store {
    /// Defines an index or constraint on a property of a label, where the
    /// nodes with the label satisfy it.
    pub fn create_node_index_impl(&mut self, label: &str, property: &str, flags: u8) -> (r: Result<
        (),
        Error,
    >)
        requires
            old(self).wf(),
            old(self)@.labels.len() < u32::MAX,
            old(self)@.keys.len() < u32::MAX,
        ensures
            final(self).wf(),
            r is Ok <==> old(self)@.label_indexed(label@, property@, flags)
                || !old(self)@.label_unmet(label@, property@, flags),
            r is Ok ==> final(self)@ == old(self)@.with_label_def(label@, property@, flags),
            r matches Err(e) ==> {
                &&& final(self)@ == old(self)@
                &&& exists|id: NodeId|
                    {
                        &&& #[trigger] old(self)@.carries(id, label@)
                        &&& reports(e, label@, property@, flags, old(self)@.nodes[id].props)
                    }
            },
    {
        let ghost before = *self;
        let ghost h = label_holding(before@.nodes);
        proof {
            self.lemma_recorded();
        }
        let r: Result<(), Error> = self.labels.define(
            &self.nodes,
            &mut self.prop_keys,
            label,
            property,
            flags,
            Ghost(h),
        );
        proof {
            assert(self@.nodes =~= before@.nodes);
            assert(self@.edges =~= before@.edges);
            if r is Ok {
                if before@.label_indexed(label@, property@, flags) {
                    lemma_names_there(
                        before@.labels,
                        before@.keys,
                        label@,
                        property@,
                        before@.label_defs,
                        flags,
                    );
                }
                lemma_with_name(before@.keys, property@, property@);
                self.types.lemma_more_names(
                    type_holding(self@.edges),
                    before@.keys,
                    self@.keys,
                );
                assert(self@.label_marks =~= before@.with_label_def(
                    label@,
                    property@,
                    flags,
                ).label_marks);
            } else {
                let e = r->Err_0;
                let (s, id) = choose|s: u32, id: u64|
                    {
                        &&& number_of_name(before@.labels, label@) == Some(s)
                        &&& #[trigger] h.dom().contains((s, id))
                        &&& reports(e, label@, property@, flags, h[(s, id)])
                    };
                assert(before@.carries(id, label@));
            }
        }
        r
    }

    /// Takes the definition of an index or constraint on a property of a label
    /// away, where one of this kind is there.
    pub fn drop_node_index_impl(&mut self, label: &str, property: &str, flags: u8)
        requires
            old(self).wf(),
            old(self)@.labels.len() < u32::MAX,
            old(self)@.keys.len() < u32::MAX,
        ensures
            final(self).wf(),
            final(self)@ == old(self)@.without_label_def(label@, property@, flags),
    {
        let ghost before = *self;
        let ghost h = label_holding(before@.nodes);
        self.labels.undefine(&mut self.prop_keys, label, property, flags, Ghost(h));
        proof {
            assert(self@.nodes =~= before@.nodes);
            assert(self@.edges =~= before@.edges);
            lemma_with_name(before@.keys, property@, property@);
            self.types.lemma_more_names(type_holding(self@.edges), before@.keys, self@.keys);
            assert(self@.label_marks =~= before@.without_label_def(
                label@,
                property@,
                flags,
            ).label_marks);
        }
    }

    /// Numbers the names of a label and a property.
    pub(crate) fn number_names(&mut self, label: &str, property: &str) -> (r: (LabelId, PropKeyId))
        requires
            old(self).wf(),
            old(self)@.labels.len() < u32::MAX,
            old(self)@.keys.len() < u32::MAX,
        ensures
            final(self).wf(),
            final(self)@ == old(self)@.with_names(label@, property@),
            number_of_name(final(self)@.labels, label@) == Some(r.0),
            number_of_name(final(self)@.keys, property@) == Some(r.1),
    {
        let ghost before = *self;
        let ghost h = label_holding(before@.nodes);
        let r: (u32, u32) = self.labels.number_names(&mut self.prop_keys, label, property, Ghost(h));
        proof {
            assert(self@.nodes =~= before@.nodes);
            assert(self@.edges =~= before@.edges);
            lemma_with_name(before@.keys, property@, property@);
            self.types.lemma_more_names(type_holding(self@.edges), before@.keys, self@.keys);
            assert(self@.label_marks =~= before@.label_marks);
        }
        r
    }

    /// Defines an index or constraint on a property of a relationship type,
    /// where the edges of the type satisfy it.
    pub fn create_edge_index_impl(&mut self, etype: &str, property: &str, flags: u8) -> (r: Result<
        (),
        Error,
    >)
        requires
            old(self).wf(),
            old(self)@.types.len() < u32::MAX,
            old(self)@.keys.len() < u32::MAX,
        ensures
            final(self).wf(),
            r is Ok <==> old(self)@.type_indexed(etype@, property@, flags)
                || !old(self)@.type_unmet(etype@, property@, flags),
            r is Ok ==> final(self)@ == old(self)@.with_type_def(etype@, property@, flags),
            r matches Err(e) ==> {
                &&& final(self)@ == old(self)@
                &&& exists|id: EdgeId|
                    {
                        &&& #[trigger] old(self)@.has_type(id, etype@)
                        &&& reports(e, etype@, property@, flags, old(self)@.edges[id].props)
                    }
            },
    {
        let ghost before = *self;
        let ghost h = type_holding(before@.edges);
        proof {
            self.lemma_recorded();
        }
        let r: Result<(), Error> = self.types.define(
            &self.edges,
            &mut self.prop_keys,
            etype,
            property,
            flags,
            Ghost(h),
        );
        proof {
            assert(self@.nodes =~= before@.nodes);
            assert(self@.edges =~= before@.edges);
            if r is Ok {
                if before@.type_indexed(etype@, property@, flags) {
                    lemma_names_there(
                        before@.types,
                        before@.keys,
                        etype@,
                        property@,
                        before@.type_defs,
                        flags,
                    );
                }
                lemma_with_name(before@.keys, property@, property@);
                self.labels.lemma_more_names(
                    label_holding(self@.nodes),
                    before@.keys,
                    self@.keys,
                );
                assert(self@.type_marks =~= before@.with_type_def(
                    etype@,
                    property@,
                    flags,
                ).type_marks);
            } else {
                let e = r->Err_0;
                let (s, id) = choose|s: u32, id: u64|
                    {
                        &&& number_of_name(before@.types, etype@) == Some(s)
                        &&& #[trigger] h.dom().contains((s, id))
                        &&& reports(e, etype@, property@, flags, h[(s, id)])
                    };
                assert(before@.has_type(id, etype@));
            }
        }
        r
    }

    /// Takes the definition of an index or constraint on a property of a
    /// relationship type away, where one of this kind is there.
    pub fn drop_edge_index_impl(&mut self, etype: &str, property: &str, flags: u8)
        requires
            old(self).wf(),
            old(self)@.types.len() < u32::MAX,
            old(self)@.keys.len() < u32::MAX,
        ensures
            final(self).wf(),
            final(self)@ == old(self)@.without_type_def(etype@, property@, flags),
    {
        let ghost before = *self;
        let ghost h = type_holding(before@.edges);
        self.types.undefine(&mut self.prop_keys, etype, property, flags, Ghost(h));
        proof {
            assert(self@.nodes =~= before@.nodes);
            assert(self@.edges =~= before@.edges);
            lemma_with_name(before@.keys, property@, property@);
            self.labels.lemma_more_names(label_holding(self@.nodes), before@.keys, self@.keys);
            assert(self@.type_marks =~= before@.without_type_def(
                etype@,
                property@,
                flags,
            ).type_marks);
        }
    }

    /// The indexes and constraints on nodes: label, property and kind, in the
    /// order of the definitions.
    pub fn list_node_indexes_and_constraints(&self) -> (out: Vec<(String, String, u8)>)
        requires
            self.wf(),
        ensures
            out@.len() == self@.label_defs.len(),
            forall|i: int|
                0 <= i < out@.len() ==> (#[trigger] out@[i]).0@
                    == self@.labels[self@.label_defs[i].scope as int] && out@[i].1@
                    == self@.keys[self@.label_defs[i].prop as int] && out@[i].2
                    == self@.label_defs[i].flags,
    {
        list_defs(&self.labels, &self.prop_keys)
    }

    /// The indexes and constraints on edges: type, property and kind, in the
    /// order of the definitions.
    pub fn list_edge_indexes_and_constraints(&self) -> (out: Vec<(String, String, u8)>)
        requires
            self.wf(),
        ensures
            out@.len() == self@.type_defs.len(),
            forall|i: int|
                0 <= i < out@.len() ==> (#[trigger] out@[i]).0@
                    == self@.types[self@.type_defs[i].scope as int] && out@[i].1@
                    == self@.keys[self@.type_defs[i].prop as int] && out@[i].2
                    == self@.type_defs[i].flags,
    {
        list_defs(&self.types, &self.prop_keys)
    }
}

/// The definitions of a catalog, by their names.
fn list_defs(c: &Catalog, keys: &Names) -> (out: Vec<(String, String, u8)>)
    requires
        c.defs_ok(keys@),
    ensures
        out@.len() == c.defs@.len(),
        forall|i: int|
            0 <= i < out@.len() ==> (#[trigger] out@[i]).0@ == c.scopes@[c.defs@[i].scope as int]
                && out@[i].1@ == keys@[c.defs@[i].prop as int] && out@[i].2 == c.defs@[i].flags,
{
    let mut out: Vec<(String, String, u8)> = Vec::new();
    let mut i: usize = 0;
    while i < c.defs.len()
        invariant
            c.defs_ok(keys@),
            i <= c.defs@.len(),
            out@.len() == i,
            forall|j: int|
                0 <= j < i ==> (#[trigger] out@[j]).0@ == c.scopes@[c.defs@[j].scope as int]
                    && out@[j].1@ == keys@[c.defs@[j].prop as int] && out@[j].2
                    == c.defs@[j].flags,
        decreases c.defs@.len() - i,
    {
        let d: IndexDef = c.defs[i];
        out.push(
            (
                c.scopes.names[d.scope as usize].clone(),
                keys.names[d.prop as usize].clone(),
                d.flags,
            ),
        );
        i = i + 1;
    }
    out
}

} // verus!
