//! What can be asked of a graph without its snapshot, and the indexes and
//! constraints on it.

use vstd::prelude::*;

use crate::catalog::{reports, Records, PLAIN, REQUIRED, UNIQUE};
use crate::csr::ascending;
use crate::error::Error;
use crate::graph::{is_scan, Graph, LabelScans};
use crate::laws::lemma_store_sound;
use crate::schema::{EdgeId, LabelId, NodeId, PropKeyId, TypeId};
use crate::store::{label_holding, type_holding, EdgeRecord, NodeRecord};
use crate::store_edges::{DirectedNeighborEntry, NeighborEntry};
use crate::store_queries::selected;
use crate::sums::bit;
use crate::tables::{number_of_name, same_text, Props};
use crate::value::{copy_value, same_exactly, PropValue, Val};

verus! {

/// The scan at `i` answers for a label.
pub open spec fn kept_scan(scans: LabelScans, i: int, label: Seq<char>, ids: Seq<NodeId>) -> bool {
    0 <= i < scans.by_label@.len() && scans.by_label@[i].0@ == label && scans.by_label@[i].1@ == ids
}

impl Graph {
    /// All nodes, in ascending order of their ids.
    pub fn all_nodes(&self) -> (out: Vec<NodeId>)
        requires
            self.wf(),
        ensures
            ascending(out@),
            forall|id: NodeId| #[trigger] out@.contains(id) <==> self@.nodes.dom().contains(id),
    {
        self.store.all_nodes_impl()
    }

    /// The record of a node.
    pub fn get_node(&self, id: NodeId) -> (r: Option<&NodeRecord>)
        requires
            self.wf(),
        ensures
            r is Some <==> self@.nodes.dom().contains(id),
            r matches Some(n) ==> n@ == self@.nodes[id] && n.props.wf(),
    {
        self.store.get_node_impl(id)
    }

    /// The record of an edge.
    pub fn get_edge(&self, id: EdgeId) -> (r: Option<&EdgeRecord>)
        requires
            self.wf(),
        ensures
            r is Some <==> self@.edges.dom().contains(id),
            r matches Some(e) ==> e@ == self@.edges[id] && e.props.wf(),
    {
        self.store.get_edge_impl(id)
    }

    /// The names of a node's labels, in the order in which they were added.
    pub fn node_labels(&self, id: NodeId) -> (out: Vec<String>)
        requires
            self.wf(),
        ensures
            !self@.nodes.dom().contains(id) ==> out@.len() == 0,
            self@.nodes.dom().contains(id) ==> out@.len() == self@.nodes[id].labels.len() && forall|
                i: int,
            |
                0 <= i < out@.len() ==> (#[trigger] out@[i])@
                    == self@.labels[self@.nodes[id].labels[i] as int],
    {
        self.store.node_labels_impl(id)
    }

    /// The nodes that carry a label, in ascending order of their ids.
    pub fn nodes_by_label(&self, label: &str) -> (out: Vec<NodeId>)
        requires
            self.wf(),
        ensures
            ascending(out@),
            forall|id: NodeId| #[trigger] out@.contains(id) <==> self@.carries(id, label@),
    {
        self.store.nodes_by_label_impl(label)
    }

    /// The nodes that carry a label, in ascending order of their ids. What was
    /// found is kept until a write is published.
    pub fn nodes_by_label_arc(&mut self, label: &str) -> (out: &Vec<NodeId>)
        requires
            old(self).wf(),
        ensures
            ascending(out@),
            forall|id: NodeId| #[trigger] out@.contains(id) <==> old(self)@.carries(id, label@),
            final(self).wf(),
            *final(self) == (Graph { scans: final(self).scans, ..*old(self) }),
            final(self).scans.generation == old(self).write_gen,
            exists|i: int| #[trigger] kept_scan(final(self).scans, i, label@, out@),
    {
        if self.scans.generation != self.write_gen {
            self.scans = LabelScans { generation: self.write_gen, by_label: Vec::new() };
        }
        let mut i: usize = 0;
        let mut done: bool = false;
        while i < self.scans.by_label.len() && !done
            invariant
                i <= self.scans.by_label@.len(),
                done ==> i < self.scans.by_label@.len() && self.scans.by_label@[i as int].0@
                    == label@,
            ensures
                i <= self.scans.by_label@.len(),
                i < self.scans.by_label@.len() ==> self.scans.by_label@[i as int].0@ == label@,
            decreases self.scans.by_label@.len() - i, bit(!done),
        {
            if same_text(self.scans.by_label[i].0.as_str(), label) {
                done = true;
            } else {
                i = i + 1;
            }
        }
        if i == self.scans.by_label.len() {
            let ids: Vec<NodeId> = self.store.nodes_by_label_impl(label);
            let name: String = label.to_string();
            let ghost scan = (name, ids);
            assert(is_scan(self@, scan));
            let ghost before = self.scans.by_label@;
            self.scans.by_label.push((name, ids));
            assert(self.scans.by_label@ =~= before.push(scan));
        }
        proof {
            assert(is_scan(self@, self.scans.by_label@[i as int]));
            assert(kept_scan(self.scans, i as int, label@, self.scans.by_label@[i as int].1@));
        }
        &self.scans.by_label[i].1
    }

    /// The nodes of a list that carry a label, in the order of the list.
    pub fn label_filter(&self, nodes: &[NodeId], label: &str) -> (out: Vec<NodeId>)
        requires
            self.wf(),
        ensures
            out@ == selected(nodes@, self@.carriers(label@)),
    {
        self.store.label_filter(nodes, label)
    }

    /// The edges that have a type, in ascending order of their ids.
    pub fn edges_by_type(&self, etype: &str) -> (out: Vec<EdgeId>)
        requires
            self.wf(),
        ensures
            ascending(out@),
            forall|id: EdgeId| #[trigger] out@.contains(id) <==> self@.has_type(id, etype@),
    {
        self.store.edges_by_type_impl(etype)
    }

    /// The name that a label's number stands for.
    pub fn label_name(&self, id: LabelId) -> (r: Option<String>)
        requires
            self.wf(),
        ensures
            r is Some <==> id < self@.labels.len(),
            r matches Some(s) ==> s@ == self@.labels[id as int],
    {
        self.store.label_name_impl(id)
    }

    /// The name that a relationship type's number stands for.
    pub fn edge_type_name(&self, id: TypeId) -> (r: Option<String>)
        requires
            self.wf(),
        ensures
            r is Some <==> id < self@.types.len(),
            r matches Some(s) ==> s@ == self@.types[id as int],
    {
        self.store.type_name_impl(id)
    }

    /// How many nodes carry a label.
    pub fn node_count_by_label(&self, label: &str) -> (n: u64)
        requires
            self.wf(),
        ensures
            n == Set::new(self@.carriers(label@)).len(),
    {
        self.store.node_count_by_label_impl(label)
    }

    /// How many edges have a type.
    pub fn edge_count_by_type(&self, etype: &str) -> (n: u64)
        requires
            self.wf(),
        ensures
            n == Set::new(self@.typed(etype@)).len(),
    {
        self.store.edge_count_by_type_impl(etype)
    }

    /// The edges that leave a node.
    pub fn out_neighbors(&self, node: NodeId) -> (out: Vec<NeighborEntry>)
        requires
            self.wf(),
        ensures
            self@.lists_neighbors(node, true, out@),
    {
        self.store.adj_entries_impl(node, true)
    }

    /// The edges that enter a node.
    pub fn in_neighbors(&self, node: NodeId) -> (out: Vec<NeighborEntry>)
        requires
            self.wf(),
        ensures
            self@.lists_neighbors(node, false, out@),
    {
        self.store.adj_entries_impl(node, false)
    }

    /// The edges at a node: those that leave it, then those that enter it.
    pub fn all_neighbors(&self, node: NodeId) -> (out: Vec<DirectedNeighborEntry>)
        requires
            self.wf(),
        ensures
            self@.lists_all_neighbors(node, out@),
    {
        self.store.all_neighbors_impl(node)
    }

    /// Whether an edge begins or ends at a node.
    pub fn node_has_relationships(&self, node: NodeId) -> (r: bool)
        requires
            self.wf(),
        ensures
            r == self@.has_edges(node),
    {
        self.store.node_has_relationships(node)
    }

    /// The nodes under a label that have a value in a property, in ascending
    /// order of their ids.
    pub fn nodes_by_property(&self, label: &str, property: &str, val: &PropValue) -> (out: Vec<
        NodeId,
    >)
        requires
            self.wf(),
        ensures
            ascending(out@),
            forall|id: NodeId| #[trigger]
                out@.contains(id) <==> self@.finds_node(label@, property@, val@, id),
    {
        self.store.nodes_by_property_impl(label, property, val)
    }

    /// The nodes under a label with a property between two bounds. An absent
    /// bound is no bound.
    pub fn nodes_by_property_range(
        &self,
        label: &str,
        property: &str,
        min_val: &Option<PropValue>,
        min_inclusive: bool,
        max_val: &Option<PropValue>,
        max_inclusive: bool,
    ) -> (out: Vec<NodeId>)
        requires
            self.wf(),
        ensures
            match number_of_name(self@.labels, label@) {
                None => out@.len() == 0,
                Some(l) => self.store.labels.ranges(
                    label_holding(self@.nodes),
                    self@.keys,
                    l,
                    property@,
                    *min_val,
                    min_inclusive,
                    *max_val,
                    max_inclusive,
                    out@,
                ),
            },
    {
        self.store.nodes_by_property_range_impl(
            label,
            property,
            min_val,
            min_inclusive,
            max_val,
            max_inclusive,
        )
    }

    /// Whether the index holds a value of a property under a label.
    pub fn has_node_property_index(&self, label: &str, property: &str) -> (r: bool)
        requires
            self.wf(),
        ensures
            r <==> exists|l: LabelId, p: PropKeyId, e: Seq<u8>, id: NodeId|
                {
                    &&& number_of_name(self@.labels, label@) == Some(l)
                    &&& number_of_name(self@.keys, property@) == Some(p)
                    &&& #[trigger] self.store.labels.listed(
                        label_holding(self@.nodes),
                        self@.keys,
                        l,
                        p,
                        e,
                        id,
                    )
                },
    {
        self.store.has_node_property_index_impl(label, property)
    }

    /// The edges of a type that have a value in a property, in ascending order
    /// of their ids.
    pub fn edges_by_property(&self, etype: &str, property: &str, val: &PropValue) -> (out: Vec<
        EdgeId,
    >)
        requires
            self.wf(),
        ensures
            ascending(out@),
            forall|id: EdgeId| #[trigger]
                out@.contains(id) <==> self@.finds_edge(etype@, property@, val@, id),
    {
        self.store.edges_by_property_impl(etype, property, val)
    }

    /// The edges of a type with a property between two bounds, both of them
    /// admitted. An absent bound is no bound.
    pub fn edges_by_property_range(
        &self,
        etype: &str,
        property: &str,
        min_val: &Option<PropValue>,
        max_val: &Option<PropValue>,
    ) -> (out: Vec<EdgeId>)
        requires
            self.wf(),
        ensures
            match number_of_name(self@.types, etype@) {
                None => out@.len() == 0,
                Some(t) => self.store.types.ranges(
                    type_holding(self@.edges),
                    self@.keys,
                    t,
                    property@,
                    *min_val,
                    true,
                    *max_val,
                    true,
                    out@,
                ),
            },
    {
        self.store.edges_by_property_range_impl(etype, property, min_val, max_val)
    }

    /// The indexes and constraints on nodes: label, property and kind.
    pub fn list_node_indexes_and_constraints(&self) -> (out: Vec<(String, String, u8)>)
        requires
            self.wf(),
        ensures
            out@.len() == self@.label_defs.len(),
            forall|i: int|
                0 <= i < out@.len() ==> (#[trigger] out@[i]).0@
                    == self@.labels[self@.label_defs[i].scope as int] && out@[i].1@
                    == self@.keys[self@.label_defs[i].prop as int] && out@[i].2
                    == self@.label_defs[i].flags,
    {
        self.store.list_node_indexes_and_constraints()
    }

    /// The indexes and constraints on edges: type, property and kind.
    pub fn list_edge_indexes_and_constraints(&self) -> (out: Vec<(String, String, u8)>)
        requires
            self.wf(),
        ensures
            out@.len() == self@.type_defs.len(),
            forall|i: int|
                0 <= i < out@.len() ==> (#[trigger] out@[i]).0@
                    == self@.types[self@.type_defs[i].scope as int] && out@[i].1@
                    == self@.keys[self@.type_defs[i].prop as int] && out@[i].2
                    == self@.type_defs[i].flags,
    {
        self.store.list_edge_indexes_and_constraints()
    }

    /// An upper bound of the number of nodes, which no deletion lowers.
    pub fn node_count_hint(&self) -> (n: u64)
        ensures
            n == self@.next_node,
    {
        self.store.next_node
    }

    /// Defines a plain index on a property of the nodes with a label. Those
    /// that are there must satisfy it.
    pub fn create_node_property_index(&mut self, label: &str, property: &str) -> (r: Result<
        (),
        Error,
    >)
        requires
            old(self).wf(),
            old(self)@.labels.len() < u32::MAX,
            old(self)@.keys.len() < u32::MAX,
        ensures
            final(self).wf(),
            old(self).keeps_rest(*final(self)),
            old(self).keeps_snapshot(*final(self)),
            final(self).write_gen == old(self).write_gen,
            r is Ok <==> old(self)@.label_indexed(label@, property@, 0)
                || !old(self)@.label_unmet(label@, property@, 0),
            r is Ok ==> final(self)@ == old(self)@.with_label_def(label@, property@, 0),
            r matches Err(e) ==> {
                &&& final(self)@ == old(self)@
                &&& exists|id: NodeId|
                    {
                        &&& #[trigger] old(self)@.carries(id, label@)
                        &&& reports(e, label@, property@, 0, old(self)@.nodes[id].props)
                    }
            },
    {
        let ghost before = *self;
        let r: Result<(), Error> = self.store.create_node_index_impl(label, property, PLAIN);
        proof {
            lemma_store_sound(self.store);
            assert(before@.labels.is_prefix_of(self@.labels));
            self.lemma_scans_kept(before);
        }
        r
    }

    /// Defines the constraint that no two of the nodes with a label have the same
    /// value in a property. Those that are there must satisfy it.
    pub fn create_node_unique_constraint(&mut self, label: &str, property: &str) -> (r: Result<
        (),
        Error,
    >)
        requires
            old(self).wf(),
            old(self)@.labels.len() < u32::MAX,
            old(self)@.keys.len() < u32::MAX,
        ensures
            final(self).wf(),
            old(self).keeps_rest(*final(self)),
            old(self).keeps_snapshot(*final(self)),
            final(self).write_gen == old(self).write_gen,
            r is Ok <==> old(self)@.label_indexed(label@, property@, 1)
                || !old(self)@.label_unmet(label@, property@, 1),
            r is Ok ==> final(self)@ == old(self)@.with_label_def(label@, property@, 1),
            r matches Err(e) ==> {
                &&& final(self)@ == old(self)@
                &&& exists|id: NodeId|
                    {
                        &&& #[trigger] old(self)@.carries(id, label@)
                        &&& reports(e, label@, property@, 1, old(self)@.nodes[id].props)
                    }
            },
    {
        let ghost before = *self;
        let r: Result<(), Error> = self.store.create_node_index_impl(label, property, UNIQUE);
        proof {
            lemma_store_sound(self.store);
            assert(before@.labels.is_prefix_of(self@.labels));
            self.lemma_scans_kept(before);
        }
        r
    }

    /// Defines the constraint that all of the nodes with a label have a value in a
    /// property. Those that are there must satisfy it.
    pub fn create_node_required_constraint(&mut self, label: &str, property: &str) -> (r: Result<
        (),
        Error,
    >)
        requires
            old(self).wf(),
            old(self)@.labels.len() < u32::MAX,
            old(self)@.keys.len() < u32::MAX,
        ensures
            final(self).wf(),
            old(self).keeps_rest(*final(self)),
            old(self).keeps_snapshot(*final(self)),
            final(self).write_gen == old(self).write_gen,
            r is Ok <==> old(self)@.label_indexed(label@, property@, 2)
                || !old(self)@.label_unmet(label@, property@, 2),
            r is Ok ==> final(self)@ == old(self)@.with_label_def(label@, property@, 2),
            r matches Err(e) ==> {
                &&& final(self)@ == old(self)@
                &&& exists|id: NodeId|
                    {
                        &&& #[trigger] old(self)@.carries(id, label@)
                        &&& reports(e, label@, property@, 2, old(self)@.nodes[id].props)
                    }
            },
    {
        let ghost before = *self;
        let r: Result<(), Error> = self.store.create_node_index_impl(label, property, REQUIRED);
        proof {
            lemma_store_sound(self.store);
            assert(before@.labels.is_prefix_of(self@.labels));
            self.lemma_scans_kept(before);
        }
        r
    }

    /// Takes an index that `create_node_property_index` defined on a property
    /// away, where it is there.
    pub fn drop_node_property_index(&mut self, label: &str, property: &str)
        requires
            old(self).wf(),
            old(self)@.labels.len() < u32::MAX,
            old(self)@.keys.len() < u32::MAX,
        ensures
            final(self).wf(),
            old(self).keeps_rest(*final(self)),
            old(self).keeps_snapshot(*final(self)),
            final(self).write_gen == old(self).write_gen,
            final(self)@ == old(self)@.without_label_def(label@, property@, 0),
    {
        let ghost before = *self;
        self.store.drop_node_index_impl(label, property, PLAIN);
        proof {
            lemma_store_sound(self.store);
            assert(before@.labels.is_prefix_of(self@.labels));
            self.lemma_scans_kept(before);
        }
    }

    /// Takes the constraint that `create_node_unique_constraint` defined on a property
    /// away, where it is there.
    pub fn drop_node_unique_constraint(&mut self, label: &str, property: &str)
        requires
            old(self).wf(),
            old(self)@.labels.len() < u32::MAX,
            old(self)@.keys.len() < u32::MAX,
        ensures
            final(self).wf(),
            old(self).keeps_rest(*final(self)),
            old(self).keeps_snapshot(*final(self)),
            final(self).write_gen == old(self).write_gen,
            final(self)@ == old(self)@.without_label_def(label@, property@, 1),
    {
        let ghost before = *self;
        self.store.drop_node_index_impl(label, property, UNIQUE);
        proof {
            lemma_store_sound(self.store);
            assert(before@.labels.is_prefix_of(self@.labels));
            self.lemma_scans_kept(before);
        }
    }

    /// Takes the constraint that `create_node_required_constraint` defined on a property
    /// away, where it is there.
    pub fn drop_node_required_constraint(&mut self, label: &str, property: &str)
        requires
            old(self).wf(),
            old(self)@.labels.len() < u32::MAX,
            old(self)@.keys.len() < u32::MAX,
        ensures
            final(self).wf(),
            old(self).keeps_rest(*final(self)),
            old(self).keeps_snapshot(*final(self)),
            final(self).write_gen == old(self).write_gen,
            final(self)@ == old(self)@.without_label_def(label@, property@, 2),
    {
        let ghost before = *self;
        self.store.drop_node_index_impl(label, property, REQUIRED);
        proof {
            lemma_store_sound(self.store);
            assert(before@.labels.is_prefix_of(self@.labels));
            self.lemma_scans_kept(before);
        }
    }

    /// Defines a plain index on a property of the edges of a type. Those
    /// that are there must satisfy it.
    pub fn create_edge_property_index(&mut self, etype: &str, property: &str) -> (r: Result<
        (),
        Error,
    >)
        requires
            old(self).wf(),
            old(self)@.types.len() < u32::MAX,
            old(self)@.keys.len() < u32::MAX,
        ensures
            final(self).wf(),
            old(self).keeps_rest(*final(self)),
            old(self).keeps_snapshot(*final(self)),
            final(self).write_gen == old(self).write_gen,
            r is Ok <==> old(self)@.type_indexed(etype@, property@, 0)
                || !old(self)@.type_unmet(etype@, property@, 0),
            r is Ok ==> final(self)@ == old(self)@.with_type_def(etype@, property@, 0),
            r matches Err(e) ==> {
                &&& final(self)@ == old(self)@
                &&& exists|id: EdgeId|
                    {
                        &&& #[trigger] old(self)@.has_type(id, etype@)
                        &&& reports(e, etype@, property@, 0, old(self)@.edges[id].props)
                    }
            },
    {
        let ghost before = *self;
        let r: Result<(), Error> = self.store.create_edge_index_impl(etype, property, PLAIN);
        proof {
            lemma_store_sound(self.store);
            assert(before@.labels.is_prefix_of(self@.labels));
            self.lemma_scans_kept(before);
        }
        r
    }

    /// Defines the constraint that no two of the edges of a type have the same
    /// value in a property. Those that are there must satisfy it.
    pub fn create_edge_unique_constraint(&mut self, etype: &str, property: &str) -> (r: Result<
        (),
        Error,
    >)
        requires
            old(self).wf(),
            old(self)@.types.len() < u32::MAX,
            old(self)@.keys.len() < u32::MAX,
        ensures
            final(self).wf(),
            old(self).keeps_rest(*final(self)),
            old(self).keeps_snapshot(*final(self)),
            final(self).write_gen == old(self).write_gen,
            r is Ok <==> old(self)@.type_indexed(etype@, property@, 1)
                || !old(self)@.type_unmet(etype@, property@, 1),
            r is Ok ==> final(self)@ == old(self)@.with_type_def(etype@, property@, 1),
            r matches Err(e) ==> {
                &&& final(self)@ == old(self)@
                &&& exists|id: EdgeId|
                    {
                        &&& #[trigger] old(self)@.has_type(id, etype@)
                        &&& reports(e, etype@, property@, 1, old(self)@.edges[id].props)
                    }
            },
    {
        let ghost before = *self;
        let r: Result<(), Error> = self.store.create_edge_index_impl(etype, property, UNIQUE);
        proof {
            lemma_store_sound(self.store);
            assert(before@.labels.is_prefix_of(self@.labels));
            self.lemma_scans_kept(before);
        }
        r
    }

    /// Defines the constraint that all of the edges of a type have a value in a
    /// property. Those that are there must satisfy it.
    pub fn create_edge_required_constraint(&mut self, etype: &str, property: &str) -> (r: Result<
        (),
        Error,
    >)
        requires
            old(self).wf(),
            old(self)@.types.len() < u32::MAX,
            old(self)@.keys.len() < u32::MAX,
        ensures
            final(self).wf(),
            old(self).keeps_rest(*final(self)),
            old(self).keeps_snapshot(*final(self)),
            final(self).write_gen == old(self).write_gen,
            r is Ok <==> old(self)@.type_indexed(etype@, property@, 2)
                || !old(self)@.type_unmet(etype@, property@, 2),
            r is Ok ==> final(self)@ == old(self)@.with_type_def(etype@, property@, 2),
            r matches Err(e) ==> {
                &&& final(self)@ == old(self)@
                &&& exists|id: EdgeId|
                    {
                        &&& #[trigger] old(self)@.has_type(id, etype@)
                        &&& reports(e, etype@, property@, 2, old(self)@.edges[id].props)
                    }
            },
    {
        let ghost before = *self;
        let r: Result<(), Error> = self.store.create_edge_index_impl(etype, property, REQUIRED);
        proof {
            lemma_store_sound(self.store);
            assert(before@.labels.is_prefix_of(self@.labels));
            self.lemma_scans_kept(before);
        }
        r
    }

    /// Takes an index that `create_edge_property_index` defined on a property
    /// away, where it is there.
    pub fn drop_edge_property_index(&mut self, etype: &str, property: &str)
        requires
            old(self).wf(),
            old(self)@.types.len() < u32::MAX,
            old(self)@.keys.len() < u32::MAX,
        ensures
            final(self).wf(),
            old(self).keeps_rest(*final(self)),
            old(self).keeps_snapshot(*final(self)),
            final(self).write_gen == old(self).write_gen,
            final(self)@ == old(self)@.without_type_def(etype@, property@, 0),
    {
        let ghost before = *self;
        self.store.drop_edge_index_impl(etype, property, PLAIN);
        proof {
            lemma_store_sound(self.store);
            assert(before@.labels.is_prefix_of(self@.labels));
            self.lemma_scans_kept(before);
        }
    }

    /// Takes the constraint that `create_edge_unique_constraint` defined on a property
    /// away, where it is there.
    pub fn drop_edge_unique_constraint(&mut self, etype: &str, property: &str)
        requires
            old(self).wf(),
            old(self)@.types.len() < u32::MAX,
            old(self)@.keys.len() < u32::MAX,
        ensures
            final(self).wf(),
            old(self).keeps_rest(*final(self)),
            old(self).keeps_snapshot(*final(self)),
            final(self).write_gen == old(self).write_gen,
            final(self)@ == old(self)@.without_type_def(etype@, property@, 1),
    {
        let ghost before = *self;
        self.store.drop_edge_index_impl(etype, property, UNIQUE);
        proof {
            lemma_store_sound(self.store);
            assert(before@.labels.is_prefix_of(self@.labels));
            self.lemma_scans_kept(before);
        }
    }

    /// Takes the constraint that `create_edge_required_constraint` defined on a property
    /// away, where it is there.
    pub fn drop_edge_required_constraint(&mut self, etype: &str, property: &str)
        requires
            old(self).wf(),
            old(self)@.types.len() < u32::MAX,
            old(self)@.keys.len() < u32::MAX,
        ensures
            final(self).wf(),
            old(self).keeps_rest(*final(self)),
            old(self).keeps_snapshot(*final(self)),
            final(self).write_gen == old(self).write_gen,
            final(self)@ == old(self)@.without_type_def(etype@, property@, 2),
    {
        let ghost before = *self;
        self.store.drop_edge_index_impl(etype, property, REQUIRED);
        proof {
            lemma_store_sound(self.store);
            assert(before@.labels.is_prefix_of(self@.labels));
            self.lemma_scans_kept(before);
        }
    }

    /// The value of a property of a node: null where it has none, nothing where
    /// there is no such node.
    pub fn node_prop_json(&self, id: NodeId, prop: &str) -> (r: Option<PropValue>)
        requires
            self.wf(),
        ensures
            r is Some <==> self@.nodes.dom().contains(id),
            r matches Some(v) ==> v@ == value_in(self@.nodes[id].props, prop@),
    {
        match self.store.nodes.get(id) {
            None => None,
            Some(record) => Some(value_or_null(&record.props, prop)),
        }
    }

    /// The values of a property of these nodes, in their order.
    pub fn node_prop_json_column(&self, ids: &[NodeId], prop: &str) -> (r: Result<
        Vec<PropValue>,
        Error,
    >)
        requires
            self.wf(),
        ensures
            match r {
                Ok(out) => all_there(self@.nodes.dom(), ids@) && out@.len() == ids@.len() && forall|
                    i: int,
                |
                    0 <= i < out@.len() ==> (#[trigger] out@[i])@ == value_in(
                        self@.nodes[ids@[i]].props,
                        prop@,
                    ),
                Err(e) => first_missing(self@.nodes.dom(), ids@) matches Some(id) && e
                    == Error::NodeNotFound(id),
            },
    {
        proof {
            self.store.lemma_recorded();
            lemma_first_missing(self@.nodes.dom(), ids@);
        }
        match column(&self.store.nodes, ids, prop, Ghost(self@.nodes.dom())) {
            Ok(out) => {
                proof {
                    assert forall|i: int| 0 <= i < out@.len() implies (#[trigger] out@[i])@
                        == value_in(self@.nodes[ids@[i]].props, prop@) by {
                        assert(self@.nodes.dom().contains(ids@[i]));
                    }
                }
                Ok(out)
            },
            Err(id) => Err(Error::NodeNotFound(id)),
        }
    }

    /// The values of several properties of these nodes: a row for each node.
    pub fn node_props_json_table(&self, ids: &[NodeId], props: &[&str]) -> (r: Result<
        Vec<Vec<PropValue>>,
        Error,
    >)
        requires
            self.wf(),
        ensures
            match r {
                Ok(out) => all_there(self@.nodes.dom(), ids@) && out@.len() == ids@.len() && forall|
                    i: int,
                |
                    0 <= i < out@.len() ==> row_holds(
                        (#[trigger] out@[i])@,
                        self@.nodes[ids@[i]].props,
                        props@,
                    ),
                Err(e) => first_missing(self@.nodes.dom(), ids@) matches Some(id) && e
                    == Error::NodeNotFound(id),
            },
    {
        let mut out: Vec<Vec<PropValue>> = Vec::new();
        let mut i: usize = 0;
        proof {
            lemma_first_missing(self@.nodes.dom(), ids@);
        }
        while i < ids.len()
            invariant
                self.wf(),
                i <= ids@.len(),
                out@.len() == i,
                forall|j: int| 0 <= j < i ==> self@.nodes.dom().contains(#[trigger] ids@[j]),
                forall|j: int|
                    0 <= j < i ==> row_holds(
                        (#[trigger] out@[j])@,
                        self@.nodes[ids@[j]].props,
                        props@,
                    ),
                missing_from(self@.nodes.dom(), ids@, 0) == missing_from(
                    self@.nodes.dom(),
                    ids@,
                    i as int,
                ),
                all_there(self@.nodes.dom(), ids@) <==> first_missing(
                    self@.nodes.dom(),
                    ids@,
                ) is None,
            decreases ids@.len() - i,
        {
            match self.store.nodes.get(ids[i]) {
                None => {
                    return Err(Error::NodeNotFound(ids[i]));
                },
                Some(record) => {
                    let row: Vec<PropValue> = values_row(&record.props, props);
                    out.push(row);
                },
            }
            i = i + 1;
        }
        Ok(out)
    }

    /// Groups these nodes by the value of a property: a code for each, and
    /// the value that each code stands for, in the order in which the values
    /// first occur. No value and a null value are one group.
    pub fn node_prop_group_codes(&self, ids: &[NodeId], prop: &str) -> (r: Result<
        (Vec<u32>, Vec<PropValue>),
        Error,
    >)
        requires
            self.wf(),
            ids@.len() <= u32::MAX,
        ensures
            match r {
                Ok((codes, values)) => {
                    &&& all_there(self@.nodes.dom(), ids@)
                    &&& codes@.len() == ids@.len()
                    &&& groups(codes@, values@)
                    &&& forall|i: int|
                        0 <= i < codes@.len() ==> values@[(#[trigger] codes@[i]) as int]@ == value_in(
                            self@.nodes[ids@[i]].props,
                            prop@,
                        )
                },
                Err(e) => first_missing(self@.nodes.dom(), ids@) matches Some(id) && e
                    == Error::NodeNotFound(id),
            },
    {
        match self.node_prop_json_column(ids, prop) {
            Ok(column) => {
                let (codes, values): (Vec<u32>, Vec<PropValue>) = group_values(&column);
                proof {
                    assert forall|i: int| 0 <= i < codes@.len() implies values@[(
                    #[trigger] codes@[i]) as int]@ == value_in(
                        self@.nodes[ids@[i]].props,
                        prop@,
                    ) by {
                        assert(column@[i]@ == value_in(self@.nodes[ids@[i]].props, prop@));
                    }
                }
                Ok((codes, values))
            },
            Err(e) => Err(e),
        }
    }

    /// The value of a property of an edge: null where it has none, nothing where
    /// there is no such edge.
    pub fn edge_prop_json(&self, id: EdgeId, prop: &str) -> (r: Option<PropValue>)
        requires
            self.wf(),
        ensures
            r is Some <==> self@.edges.dom().contains(id),
            r matches Some(v) ==> v@ == value_in(self@.edges[id].props, prop@),
    {
        match self.store.edges.get(id) {
            None => None,
            Some(record) => Some(value_or_null(&record.props, prop)),
        }
    }

    /// The values of a property of these edges, in their order.
    pub fn edge_prop_json_column(&self, ids: &[EdgeId], prop: &str) -> (r: Result<
        Vec<PropValue>,
        Error,
    >)
        requires
            self.wf(),
        ensures
            match r {
                Ok(out) => all_there(self@.edges.dom(), ids@) && out@.len() == ids@.len() && forall|
                    i: int,
                |
                    0 <= i < out@.len() ==> (#[trigger] out@[i])@ == value_in(
                        self@.edges[ids@[i]].props,
                        prop@,
                    ),
                Err(e) => first_missing(self@.edges.dom(), ids@) matches Some(id) && e
                    == Error::EdgeNotFound(id),
            },
    {
        proof {
            self.store.lemma_recorded();
            lemma_first_missing(self@.edges.dom(), ids@);
        }
        match column(&self.store.edges, ids, prop, Ghost(self@.edges.dom())) {
            Ok(out) => {
                proof {
                    assert forall|i: int| 0 <= i < out@.len() implies (#[trigger] out@[i])@
                        == value_in(self@.edges[ids@[i]].props, prop@) by {
                        assert(self@.edges.dom().contains(ids@[i]));
                    }
                }
                Ok(out)
            },
            Err(id) => Err(Error::EdgeNotFound(id)),
        }
    }

    /// The values of several properties of these edges: a row for each edge.
    pub fn edge_props_json_table(&self, ids: &[EdgeId], props: &[&str]) -> (r: Result<
        Vec<Vec<PropValue>>,
        Error,
    >)
        requires
            self.wf(),
        ensures
            match r {
                Ok(out) => all_there(self@.edges.dom(), ids@) && out@.len() == ids@.len() && forall|
                    i: int,
                |
                    0 <= i < out@.len() ==> row_holds(
                        (#[trigger] out@[i])@,
                        self@.edges[ids@[i]].props,
                        props@,
                    ),
                Err(e) => first_missing(self@.edges.dom(), ids@) matches Some(id) && e
                    == Error::EdgeNotFound(id),
            },
    {
        let mut out: Vec<Vec<PropValue>> = Vec::new();
        let mut i: usize = 0;
        proof {
            lemma_first_missing(self@.edges.dom(), ids@);
        }
        while i < ids.len()
            invariant
                self.wf(),
                i <= ids@.len(),
                out@.len() == i,
                forall|j: int| 0 <= j < i ==> self@.edges.dom().contains(#[trigger] ids@[j]),
                forall|j: int|
                    0 <= j < i ==> row_holds(
                        (#[trigger] out@[j])@,
                        self@.edges[ids@[j]].props,
                        props@,
                    ),
                missing_from(self@.edges.dom(), ids@, 0) == missing_from(
                    self@.edges.dom(),
                    ids@,
                    i as int,
                ),
                all_there(self@.edges.dom(), ids@) <==> first_missing(
                    self@.edges.dom(),
                    ids@,
                ) is None,
            decreases ids@.len() - i,
        {
            match self.store.edges.get(ids[i]) {
                None => {
                    return Err(Error::EdgeNotFound(ids[i]));
                },
                Some(record) => {
                    let row: Vec<PropValue> = values_row(&record.props, props);
                    out.push(row);
                },
            }
            i = i + 1;
        }
        Ok(out)
    }

    /// Groups these edges by the value of a property: a code for each, and
    /// the value that each code stands for, in the order in which the values
    /// first occur. No value and a null value are one group.
    pub fn edge_prop_group_codes(&self, ids: &[EdgeId], prop: &str) -> (r: Result<
        (Vec<u32>, Vec<PropValue>),
        Error,
    >)
        requires
            self.wf(),
            ids@.len() <= u32::MAX,
        ensures
            match r {
                Ok((codes, values)) => {
                    &&& all_there(self@.edges.dom(), ids@)
                    &&& codes@.len() == ids@.len()
                    &&& groups(codes@, values@)
                    &&& forall|i: int|
                        0 <= i < codes@.len() ==> values@[(#[trigger] codes@[i]) as int]@ == value_in(
                            self@.edges[ids@[i]].props,
                            prop@,
                        )
                },
                Err(e) => first_missing(self@.edges.dom(), ids@) matches Some(id) && e
                    == Error::EdgeNotFound(id),
            },
    {
        match self.edge_prop_json_column(ids, prop) {
            Ok(column) => {
                let (codes, values): (Vec<u32>, Vec<PropValue>) = group_values(&column);
                proof {
                    assert forall|i: int| 0 <= i < codes@.len() implies values@[(
                    #[trigger] codes@[i]) as int]@ == value_in(
                        self@.edges[ids@[i]].props,
                        prop@,
                    ) by {
                        assert(column@[i]@ == value_in(self@.edges[ids@[i]].props, prop@));
                    }
                }
                Ok((codes, values))
            },
            Err(e) => Err(e),
        }
    }
}

/// The value of a property; null where there is none.
pub open spec fn value_in(props: Map<Seq<char>, Val>, name: Seq<char>) -> Val {
    if props.dom().contains(name) {
        props[name]
    } else {
        Val::Null
    }
}

/// Whether all of these ids are there.
pub open spec fn all_there(there: Set<u64>, ids: Seq<u64>) -> bool {
    forall|i: int| 0 <= i < ids.len() ==> there.contains(#[trigger] ids[i])
}

/// The first id from position `i` on that is not there.
pub open spec fn missing_from(there: Set<u64>, ids: Seq<u64>, i: int) -> Option<u64>
    decreases ids.len() - i,
{
    if i >= ids.len() {
        None
    } else if !there.contains(ids[i]) {
        Some(ids[i])
    } else {
        missing_from(there, ids, i + 1)
    }
}

/// The first of these ids that is not there.
pub open spec fn first_missing(there: Set<u64>, ids: Seq<u64>) -> Option<u64> {
    missing_from(there, ids, 0)
}

proof fn lemma_missing_from(there: Set<u64>, ids: Seq<u64>, i: int)
    requires
        0 <= i <= ids.len(),
    ensures
        missing_from(there, ids, i) is None <==> forall|j: int|
            i <= j < ids.len() ==> there.contains(#[trigger] ids[j]),
    decreases ids.len() - i,
{
    if i < ids.len() {
        lemma_missing_from(there, ids, i + 1);
    }
}

proof fn lemma_first_missing(there: Set<u64>, ids: Seq<u64>)
    ensures
        all_there(there, ids) <==> first_missing(there, ids) is None,
{
    lemma_missing_from(there, ids, 0);
}

/// A row holds the values of these properties.
pub open spec fn row_holds(
    row: Seq<PropValue>,
    props: Map<Seq<char>, Val>,
    names: Seq<&str>,
) -> bool {
    &&& row.len() == names.len()
    &&& forall|i: int| 0 <= i < row.len() ==> (#[trigger] row[i])@ == value_in(props, names[i]@)
}

/// Codes are positions in `values`, whose values differ and come in the order
/// in which their codes first occur.
pub open spec fn groups(codes: Seq<u32>, values: Seq<PropValue>) -> bool {
    &&& forall|i: int| 0 <= i < codes.len() ==> (#[trigger] codes[i]) < values.len()
    &&& forall|a: int, b: int|
        0 <= a < b < values.len() ==> (#[trigger] values[a])@ != (#[trigger] values[b])@
    &&& forall|c: int| 0 <= c < values.len() ==> #[trigger] opens(codes, c)
}

/// Whether a code occurs, at first after smaller ones only.
pub open spec fn opens(codes: Seq<u32>, c: int) -> bool {
    exists|i: int|
        0 <= i < codes.len() && #[trigger] codes[i] == c && forall|j: int|
            0 <= j < i ==> (#[trigger] codes[j]) < c
}

fn value_or_null(props: &Props, name: &str) -> (v: PropValue)
    requires
        props.wf(),
    ensures
        v@ == value_in(props@, name@),
{
    match props.get(name) {
        Some(v) => copy_value(v),
        None => PropValue::Null,
    }
}

fn values_row(props: &Props, names: &[&str]) -> (row: Vec<PropValue>)
    requires
        props.wf(),
    ensures
        row_holds(row@, props@, names@),
{
    let mut row: Vec<PropValue> = Vec::new();
    let mut i: usize = 0;
    while i < names.len()
        invariant
            props.wf(),
            i <= names@.len(),
            row@.len() == i,
            forall|j: int|
                0 <= j < i ==> (#[trigger] row@[j])@ == value_in(props@, names@[j]@),
        decreases names@.len() - i,
    {
        row.push(value_or_null(props, names[i]));
        i = i + 1;
    }
    row
}

/// The values of a property of these records, or the first that is missing.
fn column<R: Records>(records: &R, ids: &[u64], name: &str, there: Ghost<Set<u64>>) -> (r: Result<
    Vec<PropValue>,
    u64,
>)
    requires
        records.sound(),
        forall|id: u64| #[trigger] there@.contains(id) <==> records.bag(id) is Some,
    ensures
        match r {
            Ok(out) => all_there(there@, ids@) && out@.len() == ids@.len() && forall|i: int|
                0 <= i < out@.len() ==> (#[trigger] out@[i])@ == value_in(
                    records.bag(ids@[i])->0,
                    name@,
                ),
            Err(id) => first_missing(there@, ids@) == Some(id),
        },
{
    let mut out: Vec<PropValue> = Vec::new();
    let mut i: usize = 0;
    while i < ids.len()
        invariant
            records.sound(),
            forall|id: u64| #[trigger] there@.contains(id) <==> records.bag(id) is Some,
            i <= ids@.len(),
            out@.len() == i,
            missing_from(there@, ids@, 0) == missing_from(there@, ids@, i as int),
            forall|j: int| 0 <= j < i ==> there@.contains(#[trigger] ids@[j]),
            forall|j: int|
                0 <= j < i ==> (#[trigger] out@[j])@ == value_in(
                    records.bag(ids@[j])->0,
                    name@,
                ),
        decreases ids@.len() - i,
    {
        match records.props_of(ids[i]) {
            None => {
                return Err(ids[i]);
            },
            Some(props) => {
                assert(there@.contains(ids@[i as int]));
                out.push(value_or_null(props, name));
            },
        }
        i = i + 1;
    }
    Ok(out)
}

/// Numbers the values of a column in the order in which they first occur.
fn group_values(column: &Vec<PropValue>) -> (r: (Vec<u32>, Vec<PropValue>))
    requires
        column@.len() <= u32::MAX,
    ensures
        r.0@.len() == column@.len(),
        groups(r.0@, r.1@),
        forall|i: int|
            0 <= i < column@.len() ==> r.1@[(#[trigger] r.0@[i]) as int]@ == column@[i]@,
{
    let mut codes: Vec<u32> = Vec::new();
    let mut values: Vec<PropValue> = Vec::new();
    let mut i: usize = 0;
    while i < column.len()
        invariant
            column@.len() <= u32::MAX,
            i <= column@.len(),
            codes@.len() == i,
            values@.len() <= i,
            groups(codes@, values@),
            forall|j: int|
                0 <= j < i ==> values@[(#[trigger] codes@[j]) as int]@ == column@[j]@,
        decreases column@.len() - i,
    {
        let ghost had = codes@;
        let ghost held = values@;
        let mut c: usize = 0;
        while c < values.len() && !same_exactly(&values[c], &column[i])
            invariant
                i < column@.len(),
                c <= values@.len(),
                forall|a: int| 0 <= a < c ==> (#[trigger] values@[a])@ != column@[i as int]@,
            ensures
                c < values@.len() ==> values@[c as int]@ == column@[i as int]@,
            decreases values@.len() - c,
        {
            c = c + 1;
        }
        if c == values.len() {
            values.push(copy_value(&column[i]));
        }
        codes.push(c as u32);
        proof {
            assert forall|j: int| 0 <= j < codes@.len() implies values@[(
            #[trigger] codes@[j]) as int]@ == column@[j]@ by {
                if j < i {
                    assert(codes@[j] == had[j]);
                    assert(had[j] < held.len());
                }
            }
            assert forall|k: int| 0 <= k < values@.len() implies #[trigger] opens(codes@, k) by {
                if k < held.len() {
                    assert(opens(had, k));
                    let j = choose|j: int|
                        0 <= j < had.len() && #[trigger] had[j] == k && forall|l: int|
                            0 <= l < j ==> (#[trigger] had[l]) < k;
                    assert(codes@[j] == k);
                    assert forall|l: int| 0 <= l < j implies (#[trigger] codes@[l]) < k by {
                        assert(codes@[l] == had[l]);
                    }
                } else {
                    assert(codes@[i as int] == k);
                    assert forall|l: int| 0 <= l < i implies (#[trigger] codes@[l]) < k by {
                        assert(codes@[l] == had[l]);
                        assert(had[l] < held.len());
                    }
                }
            }
            assert forall|j: int| 0 <= j < codes@.len() implies (#[trigger] codes@[j])
                < values@.len() by {
                if j < i {
                    assert(codes@[j] == had[j]);
                    assert(had[j] < held.len());
                }
            }
            assert(groups(codes@, values@));
        }
        i = i + 1;
    }
    (codes, values)
}

} // verus!
