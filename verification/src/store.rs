//! The records of a graph, with the registries, adjacency lists and indexes
//! that are kept beside them.

use vstd::prelude::*;

use crate::catalog::{reports, Catalog, Holding, IndexDef, Records};
use crate::error::Error;
use crate::keys::{
    be_bytes, be_value, bytes_lt, le_bytes, lemma_be_len, lemma_be_order, lemma_byte_powers,
    lemma_bytes_lt_prefix, lemma_le_bytes, push_be, push_le,
};
use crate::schema::{EdgeId, LabelId, NodeId, PropKeyId, TypeId};
use crate::store_nodes::{lemma_breach_explains, lemma_no_breach_of};
use crate::tables::{begins, number_of_name, with_name, KeySet, Names, Props, Table};
use crate::value::Val;

verus! {

/// A stored node.
pub struct NodeRecord {
    /// The numbers of its labels, in the order in which they were added.
    pub labels: Vec<LabelId>,
    pub props: Props,
}

/// A stored edge.
pub struct EdgeRecord {
    pub src: NodeId,
    pub dst: NodeId,
    pub edge_type: TypeId,
    pub props: Props,
}

/// What a node is.
pub struct Node {
    pub labels: Seq<LabelId>,
    pub props: Map<Seq<char>, Val>,
}

/// What an edge is.
pub struct Relation {
    pub src: NodeId,
    pub dst: NodeId,
    pub ty: TypeId,
    pub props: Map<Seq<char>, Val>,
}

impl View for NodeRecord {
    type V = Node;

    open spec fn view(&self) -> Node {
        Node { labels: self.labels@, props: self.props@ }
    }
}

impl View for EdgeRecord {
    type V = Relation;

    open spec fn view(&self) -> Relation {
        Relation { src: self.src, dst: self.dst, ty: self.edge_type, props: self.props@ }
    }
}

impl Records for Table<NodeRecord> {
    open spec fn bag(&self, id: u64) -> Option<Map<Seq<char>, Val>> {
        if self@.dom().contains(id) {
            Some(self@[id].props@)
        } else {
            None
        }
    }

    open spec fn sound(&self) -> bool {
        &&& self.wf()
        &&& forall|id: u64| #[trigger] self@.dom().contains(id) ==> self@[id].props.wf()
    }

    fn props_of(&self, id: u64) -> (r: Option<&Props>) {
        match self.get(id) {
            Some(record) => Some(&record.props),
            None => None,
        }
    }
}

impl Records for Table<EdgeRecord> {
    open spec fn bag(&self, id: u64) -> Option<Map<Seq<char>, Val>> {
        if self@.dom().contains(id) {
            Some(self@[id].props@)
        } else {
            None
        }
    }

    open spec fn sound(&self) -> bool {
        &&& self.wf()
        &&& forall|id: u64| #[trigger] self@.dom().contains(id) ==> self@[id].props.wf()
    }

    fn props_of(&self, id: u64) -> (r: Option<&Props>) {
        match self.get(id) {
            Some(record) => Some(&record.props),
            None => None,
        }
    }
}

/// What a store holds. `keys` are the property names that have numbers; the
/// marks are the null values that an index holds an entry for.
pub struct Content {
    pub nodes: Map<NodeId, Node>,
    pub edges: Map<EdgeId, Relation>,
    pub labels: Seq<Seq<char>>,
    pub types: Seq<Seq<char>>,
    pub keys: Seq<Seq<char>>,
    pub label_defs: Seq<IndexDef>,
    pub type_defs: Seq<IndexDef>,
    pub label_marks: Set<(LabelId, PropKeyId, NodeId)>,
    pub type_marks: Set<(TypeId, PropKeyId, EdgeId)>,
    pub next_node: NodeId,
    pub next_edge: EdgeId,
}

/// The members of every label.
pub open spec fn label_holding(nodes: Map<NodeId, Node>) -> Holding {
    Map::new(
        |k: (u32, u64)| nodes.dom().contains(k.1) && nodes[k.1].labels.contains(k.0),
        |k: (u32, u64)| nodes[k.1].props,
    )
}

/// The members of every relationship type.
pub open spec fn type_holding(edges: Map<EdgeId, Relation>) -> Holding {
    Map::new(
        |k: (u32, u64)| edges.dom().contains(k.1) && edges[k.1].ty == k.0,
        |k: (u32, u64)| edges[k.1].props,
    )
}

/// The null values that a catalog holds entries for.
pub open spec fn marks(c: Catalog) -> Set<(u32, u32, u64)> {
    Set::new(|k: (u32, u32, u64)| c.marked(k.0, k.1, k.2))
}

/// The end of an edge on one side.
pub open spec fn end_of(e: Relation, outgoing: bool) -> NodeId {
    if outgoing {
        e.src
    } else {
        e.dst
    }
}

/// An adjacency entry as bytes: the type of the edge, the node at its other end, and
/// its id, each with the least significant byte first.
pub open spec fn entry_bytes(ty: TypeId, other: NodeId, edge: EdgeId) -> Seq<u8> {
    le_bytes(ty as nat, 4) + le_bytes(other as nat, 8) + le_bytes(edge as nat, 8)
}

/// The key of an adjacency entry: a node, and the entry.
pub open spec fn adj_key(node: NodeId, ty: TypeId, other: NodeId, edge: EdgeId) -> Seq<u8> {
    be_bytes(node as nat, 8) + entry_bytes(ty, other, edge)
}

pub open spec fn is_adj_key(key: Seq<u8>) -> bool {
    exists|node: NodeId, ty: TypeId, other: NodeId, edge: EdgeId|
        key == #[trigger] adj_key(node, ty, other, edge)
}

/// Whether an edge joins a node with another one by a type.
pub open spec fn joins(e: Relation, outgoing: bool, node: NodeId, ty: TypeId, other: NodeId) -> bool {
    end_of(e, outgoing) == node && end_of(e, !outgoing) == other && e.ty == ty
}

/// The adjacency entries are those of the edges.
pub open spec fn adjacency_matches(
    adj: KeySet,
    edges: Map<EdgeId, Relation>,
    outgoing: bool,
) -> bool {
    &&& adj.wf()
    &&& forall|key: Seq<u8>| #[trigger] adj.has(key) ==> is_adj_key(key)
    &&& forall|node: NodeId, ty: TypeId, other: NodeId, edge: EdgeId| #[trigger]
        adj.has(adj_key(node, ty, other, edge)) <==> edges.dom().contains(edge) && joins(
            edges[edge],
            outgoing,
            node,
            ty,
            other,
        )
}

pub proof fn lemma_entry_bytes(
    s: TypeId,
    a: NodeId,
    x: EdgeId,
    t: TypeId,
    b: NodeId,
    y: EdgeId,
)
    ensures
        entry_bytes(s, a, x) == entry_bytes(t, b, y) <==> s == t && a == b && x == y,
        entry_bytes(s, a, x).len() == 20,
        be_value(entry_bytes(s, a, x).subrange(0, 4).reverse()) == s,
        be_value(entry_bytes(s, a, x).subrange(4, 12).reverse()) == a,
        be_value(entry_bytes(s, a, x).subrange(12, 20).reverse()) == x,
{
    lemma_byte_powers();
    lemma_le_bytes(s as nat, t as nat, 4);
    lemma_le_bytes(a as nat, b as nat, 8);
    lemma_le_bytes(x as nat, y as nat, 8);
    lemma_le_bytes(t as nat, s as nat, 4);
    lemma_le_bytes(b as nat, a as nat, 8);
    lemma_le_bytes(y as nat, x as nat, 8);
    let (p, q) = (entry_bytes(s, a, x), entry_bytes(t, b, y));
    assert(p.subrange(0, 4) =~= le_bytes(s as nat, 4));
    assert(q.subrange(0, 4) =~= le_bytes(t as nat, 4));
    assert(p.subrange(4, 12) =~= le_bytes(a as nat, 8));
    assert(q.subrange(4, 12) =~= le_bytes(b as nat, 8));
    assert(p.subrange(12, 20) =~= le_bytes(x as nat, 8));
    assert(q.subrange(12, 20) =~= le_bytes(y as nat, 8));
}

pub proof fn lemma_adj_key(
    u: NodeId,
    s: TypeId,
    a: NodeId,
    x: EdgeId,
    v: NodeId,
    t: TypeId,
    b: NodeId,
    y: EdgeId,
)
    ensures
        adj_key(u, s, a, x) == adj_key(v, t, b, y) <==> u == v && s == t && a == b && x == y,
        bytes_lt(adj_key(u, s, a, x), adj_key(u, t, b, y)) <==> bytes_lt(
            entry_bytes(s, a, x),
            entry_bytes(t, b, y),
        ),
        begins(be_bytes(u as nat, 8), adj_key(v, t, b, y)) <==> u == v,
        adj_key(v, t, b, y).len() == 28,
        be_value(adj_key(v, t, b, y).subrange(8, 12).reverse()) == t,
        be_value(adj_key(v, t, b, y).subrange(12, 20).reverse()) == b,
        be_value(adj_key(v, t, b, y).subrange(20, 28).reverse()) == y,
{
    lemma_be_len(u as nat, 8);
    lemma_be_len(v as nat, 8);
    lemma_byte_powers();
    lemma_be_order(u as nat, v as nat, 8);
    lemma_entry_bytes(s, a, x, t, b, y);
    lemma_entry_bytes(t, b, y, s, a, x);
    let (p, q) = (adj_key(u, s, a, x), adj_key(v, t, b, y));
    let e = entry_bytes(t, b, y);
    assert(p.take(8) =~= be_bytes(u as nat, 8));
    assert(q.take(8) =~= be_bytes(v as nat, 8));
    assert(p.skip(8) =~= entry_bytes(s, a, x));
    assert(q.skip(8) =~= e);
    assert(q.subrange(8, 12) =~= e.subrange(0, 4));
    assert(q.subrange(12, 20) =~= e.subrange(4, 12));
    assert(q.subrange(20, 28) =~= e.subrange(12, 20));
    lemma_bytes_lt_prefix(be_bytes(u as nat, 8), entry_bytes(s, a, x), e);
}

pub(crate) fn build_adj_key(node: NodeId, ty: TypeId, other: NodeId, edge: EdgeId) -> (key: Vec<
    u8,
>)
    ensures
        key@ == adj_key(node, ty, other, edge),
{
    let mut key: Vec<u8> = Vec::new();
    push_be(&mut key, node, 8);
    push_le(&mut key, ty as u64, 4);
    push_le(&mut key, other, 8);
    push_le(&mut key, edge, 8);
    assert(key@ =~= adj_key(node, ty, other, edge));
    key
}

/// The records of a graph and what is kept beside them.
pub struct Store {
    pub nodes: Table<NodeRecord>,
    pub edges: Table<EdgeRecord>,
    pub labels: Catalog,
    pub types: Catalog,
    pub prop_keys: Names,
    pub out_adj: KeySet,
    pub in_adj: KeySet,
    pub next_node: NodeId,
    pub next_edge: EdgeId,
}

impl View for Store {
    type V = Content;

    open spec fn view(&self) -> Content {
        Content {
            nodes: self.nodes@.map_values(|r: NodeRecord| r@),
            edges: self.edges@.map_values(|r: EdgeRecord| r@),
            labels: self.labels.scopes@,
            types: self.types.scopes@,
            keys: self.prop_keys@,
            label_defs: self.labels.defs@,
            type_defs: self.types.defs@,
            label_marks: marks(self.labels),
            type_marks: marks(self.types),
            next_node: self.next_node,
            next_edge: self.next_edge,
        }
    }
}

/// The names of a list of labels.
pub open spec fn names_of(labels: Seq<&str>) -> Seq<Seq<char>> {
    labels.map_values(|s: &str| s@)
}

/// A registry with all of these names.
pub open spec fn with_names(registry: Seq<Seq<char>>, names: Seq<Seq<char>>) -> Seq<Seq<char>>
    decreases names.len(),
{
    if names.len() == 0 {
        registry
    } else {
        with_name(with_names(registry, names.drop_last()), names.last())
    }
}

/// The numbers of a list of names, without repetition, in the order of the list.
pub open spec fn numbers_of(registry: Seq<Seq<char>>, names: Seq<Seq<char>>) -> Seq<u32>
    decreases names.len(),
{
    if names.len() == 0 {
        Seq::empty()
    } else {
        let before = numbers_of(registry, names.drop_last());
        let n = number_of_name(with_names(registry, names), names.last())->0;
        if before.contains(n) {
            before
        } else {
            before.push(n)
        }
    }
}

impl Content {
    /// Whether a node carries the label with this name.
    pub open spec fn carries(&self, id: NodeId, label: Seq<char>) -> bool {
        &&& self.nodes.dom().contains(id)
        &&& number_of_name(self.labels, label) matches Some(l) && self.nodes[id].labels.contains(l)
    }

    /// Whether an edge has the type with this name.
    pub open spec fn has_type(&self, id: EdgeId, ty: Seq<char>) -> bool {
        &&& self.edges.dom().contains(id)
        &&& number_of_name(self.types, ty) == Some(self.edges[id].ty)
    }
}

impl Store {
    pub open spec fn wf(&self) -> bool {
        &&& self.nodes.wf()
        &&& self.edges.wf()
        &&& self.prop_keys.wf()
        &&& self.labels.auto
        &&& !self.types.auto
        &&& self.labels.matches(label_holding(self@.nodes), self.prop_keys@)
        &&& self.types.matches(type_holding(self@.edges), self.prop_keys@)
        &&& adjacency_matches(self.out_adj, self@.edges, true)
        &&& adjacency_matches(self.in_adj, self@.edges, false)
        &&& forall|id: NodeId| #[trigger]
            self.nodes@.dom().contains(id) ==> id < self.next_node && self.nodes@[id].props.wf()
                && self.nodes@[id].labels@.no_duplicates()
        &&& forall|id: EdgeId| #[trigger]
            self.edges@.dom().contains(id) ==> id < self.next_edge && self.edges@[id].props.wf()
                && self.nodes@.dom().contains(self.edges@[id].src) && self.nodes@.dom().contains(
                self.edges@[id].dst,
            )
    }

    /// An empty store.
    pub fn new() -> (s: Store)
        ensures
            s.wf(),
            s@.nodes == Map::<NodeId, Node>::empty(),
            s@.edges == Map::<EdgeId, Relation>::empty(),
            s@.labels.len() == 0,
            s@.types.len() == 0,
            s@.keys.len() == 0,
            s@.label_defs.len() == 0,
            s@.type_defs.len() == 0,
            s@.next_node == 0,
            s@.next_edge == 0,
    {
        let s: Store = Store {
            nodes: Table::new(),
            edges: Table::new(),
            labels: Catalog::new(true),
            types: Catalog::new(false),
            prop_keys: Names::new(),
            out_adj: KeySet::new(),
            in_adj: KeySet::new(),
            next_node: 0,
            next_edge: 0,
        };
        proof {
            assert(s@.nodes =~= Map::<NodeId, Node>::empty());
            assert(s@.edges =~= Map::<EdgeId, Relation>::empty());
            assert(label_holding(s@.nodes) =~= Map::empty());
            assert(type_holding(s@.edges) =~= Map::empty());
        }
        s
    }

    /// The records hold what the catalogs describe.
    pub proof fn lemma_recorded(&self)
        requires
            self.wf(),
        ensures
            crate::catalog::recorded(self.nodes, label_holding(self@.nodes)),
            crate::catalog::recorded(self.edges, type_holding(self@.edges)),
    {
    }

    /// The first constraint that a node with these labels and properties would
    /// break, by the order of the labels and then of the definitions.
    pub(crate) fn node_breach(&self, labels: &[&str], id: NodeId, props: &Props) -> (r: Option<Error>)
        requires
            self.wf(),
            props.wf(),
        ensures
            r is Some <==> self@.refuses_node(names_of(labels@), id, props@),
            r matches Some(e) ==> self@.explains_node(e, names_of(labels@), id, props@),
    {
        let ghost names = names_of(labels@);
        let mut k: usize = 0;
        while k < labels.len()
            invariant
                self.wf(),
                props.wf(),
                names == names_of(labels@),
                k <= labels@.len(),
                forall|j: int|
                    0 <= j < k ==> !self@.refuses_label(#[trigger] names[j], id, props@),
            decreases labels@.len() - k,
        {
            proof {
                self.lemma_recorded();
                assert(names[k as int] == labels@[k as int]@);
            }
            match self.labels.scopes.number(labels[k]) {
                Some(l) => {
                    match self.labels.breach(
                        &self.nodes,
                        &self.prop_keys,
                        l,
                        id,
                        props,
                        Ghost(label_holding(self@.nodes)),
                    ) {
                        Some(e) => {
                            proof {
                                lemma_breach_explains(
                                    self.labels,
                                    label_holding(self@.nodes),
                                    self.prop_keys@,
                                    l,
                                    names[k as int],
                                    id,
                                    props@,
                                    e,
                                );
                                assert(self@.explains_label(e, names[k as int], id, props@));
                            }
                            return Some(e);
                        },
                        None => {
                            proof {
                                lemma_no_breach_of(
                                    self.labels,
                                    label_holding(self@.nodes),
                                    self.prop_keys@,
                                    l,
                                    id,
                                    props@,
                                );
                            }
                        },
                    }
                },
                None => {},
            }
            k = k + 1;
        }
        None
    }
}

/// Whether the constraint at `i` is on the scope `s` and a member of it with
/// these properties would break it.
pub open spec fn breached(
    h: Holding,
    keys: Seq<Seq<char>>,
    defs: Seq<IndexDef>,
    s: u32,
    id: u64,
    props: Map<Seq<char>, Val>,
    i: int,
) -> bool {
    &&& 0 <= i < defs.len()
    &&& defs[i].scope == s
    &&& crate::catalog::breaks(h, s, id, props, keys[defs[i].prop as int], defs[i].flags)
}

/// Whether a member of a scope with these properties would break a constraint.
pub open spec fn refused(
    h: Holding,
    keys: Seq<Seq<char>>,
    defs: Seq<IndexDef>,
    s: u32,
    id: u64,
    props: Map<Seq<char>, Val>,
) -> bool {
    exists|i: int| #[trigger] breached(h, keys, defs, s, id, props, i)
}

/// The error says which constraint is the first that is broken.
pub open spec fn explains(
    h: Holding,
    keys: Seq<Seq<char>>,
    defs: Seq<IndexDef>,
    s: u32,
    scope: Seq<char>,
    id: u64,
    props: Map<Seq<char>, Val>,
    e: Error,
) -> bool {
    exists|i: int|
        {
            &&& #[trigger] breached(h, keys, defs, s, id, props, i)
            &&& forall|j: int|
                0 <= j < i ==> !#[trigger] breached(h, keys, defs, s, id, props, j)
            &&& reports(e, scope, keys[defs[i].prop as int], defs[i].flags, props)
        }
}

impl Content {
    /// Whether the constraints on a label refuse a node with these properties.
    pub open spec fn refuses_label(
        &self,
        label: Seq<char>,
        id: NodeId,
        props: Map<Seq<char>, Val>,
    ) -> bool {
        number_of_name(self.labels, label) matches Some(l) && refused(
            label_holding(self.nodes),
            self.keys,
            self.label_defs,
            l,
            id,
            props,
        )
    }

    /// The error says which constraint on a label is the first that is broken.
    pub open spec fn explains_label(
        &self,
        e: Error,
        label: Seq<char>,
        id: NodeId,
        props: Map<Seq<char>, Val>,
    ) -> bool {
        number_of_name(self.labels, label) matches Some(l) && explains(
            label_holding(self.nodes),
            self.keys,
            self.label_defs,
            l,
            label,
            id,
            props,
            e,
        )
    }

    /// Whether the constraints on one of these labels refuse a node.
    pub open spec fn refuses_node(
        &self,
        labels: Seq<Seq<char>>,
        id: NodeId,
        props: Map<Seq<char>, Val>,
    ) -> bool {
        exists|k: int|
            0 <= k < labels.len() && self.refuses_label(#[trigger] labels[k], id, props)
    }

    /// The error says which constraint on the first refusing label is broken.
    pub open spec fn explains_node(
        &self,
        e: Error,
        labels: Seq<Seq<char>>,
        id: NodeId,
        props: Map<Seq<char>, Val>,
    ) -> bool {
        exists|k: int|
            {
                &&& 0 <= k < labels.len()
                &&& self.explains_label(e, #[trigger] labels[k], id, props)
                &&& forall|j: int|
                    0 <= j < k ==> !self.refuses_label(#[trigger] labels[j], id, props)
            }
    }
}

} // verus!
