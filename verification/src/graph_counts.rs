//! Pattern counts over a graph, with labels and relationship types by name.

use vstd::prelude::*;

use crate::catalog::lacks;
use crate::counting::{
    chained, count_in, count_one_hop, count_out, count_two_hops, hop, kernel_threads, mask_admits,
    mask_covers, one_hop_total, two_hop_total, type_admits,
};
use crate::csr::{ascending, entering, leaving, lemma_index_unique, position_of, CsrSnapshot, Edge};
use crate::graph::Graph;
use crate::image::{edge_list, images, lemma_store_lists, node_list};
use crate::schema::{
    GroupedDegreeSpec, NeighborCountSpec, NodeId, PathCountSpec, TriangleCountSpec, TypeId,
};
use crate::store::Content;
use crate::sums::{bit, count, lemma_count_bound, lemma_sum_ext, lemma_sum_zero};
use crate::tables::number_of_name;
use crate::triangles::{count_triangles, from_first, triangle, triangle_total};
use crate::value::PropValue;

verus! {

/// Whether the edge type with this number has the name that is asked for;
/// without a name every type does.
pub open spec fn type_named(c: Content, rel: Option<&str>, ty: TypeId) -> bool {
    rel matches Some(name) ==> number_of_name(c.types, name@) == Some(ty)
}

/// The nodes that carry a label, where one is asked for, and are in the list,
/// where there is one.
pub open spec fn vertex(
    c: Content,
    label: Option<&str>,
    allow: Option<Seq<NodeId>>,
) -> spec_fn(NodeId) -> bool {
    |id: NodeId|
        (label matches Some(l) ==> c.carries(id, l@)) && (allow matches Some(a) ==> a.contains(id))
}

/// The nodes that also have a value in a property, where one is named.
pub open spec fn valued(
    c: Content,
    wanted: spec_fn(NodeId) -> bool,
    prop: Option<&str>,
) -> spec_fn(NodeId) -> bool {
    |id: NodeId| wanted(id) && (prop matches Some(p) ==> !lacks(c.nodes[id].props, p@))
}

/// The edges that can fill a hop.
pub open spec fn fills(
    c: Content,
    rel: Option<&str>,
    from: spec_fn(NodeId) -> bool,
    to: spec_fn(NodeId) -> bool,
) -> spec_fn(Edge) -> bool {
    |e: Edge|
        type_named(c, rel, e.ty) && from(node_list(c)[e.src]) && to(node_list(c)[e.dst])
}

/// Any node.
pub open spec fn any_node() -> spec_fn(NodeId) -> bool {
    |id: NodeId| true
}

/// A mask over `ids` that admits exactly the wanted nodes.
pub open spec fn mask_is(
    mask: Option<Vec<bool>>,
    ids: Seq<NodeId>,
    wanted: spec_fn(NodeId) -> bool,
) -> bool {
    &&& mask_covers(mask, ids.len())
    &&& forall|d: int| 0 <= d < ids.len() ==> mask_admits(mask, d) == wanted(#[trigger] ids[d])
}

/// Two hops that the same edges fill.
pub open spec fn same_hop(
    edges: Seq<Edge>,
    f: spec_fn(Edge) -> bool,
    g: spec_fn(Edge) -> bool,
) -> bool {
    forall|k: int| 0 <= k < edges.len() ==> f(#[trigger] edges[k]) == g(edges[k])
}

proof fn lemma_one_hop_same(edges: Seq<Edge>, f: spec_fn(Edge) -> bool, g: spec_fn(Edge) -> bool)
    requires
        same_hop(edges, f, g),
    ensures
        one_hop_total(edges, f) == one_hop_total(edges, g),
{
    lemma_sum_ext(edges, |e: Edge| bit(f(e)), |e: Edge| bit(g(e)));
}

proof fn lemma_two_hop_same(
    edges: Seq<Edge>,
    f1: spec_fn(Edge) -> bool,
    g1: spec_fn(Edge) -> bool,
    f2: spec_fn(Edge) -> bool,
    g2: spec_fn(Edge) -> bool,
)
    requires
        same_hop(edges, f1, f2),
        same_hop(edges, g1, g2),
    ensures
        two_hop_total(edges, f1, g1) == two_hop_total(edges, f2, g2),
{
    let a = |e1: Edge| count(edges, |e2: Edge| chained(f1, g1, e1, e2));
    let b = |e1: Edge| count(edges, |e2: Edge| chained(f2, g2, e1, e2));
    assert forall|k: int| 0 <= k < edges.len() implies a(#[trigger] edges[k]) == b(edges[k]) by {
        let e1 = edges[k];
        let p = |e2: Edge| chained(f1, g1, e1, e2);
        let q = |e2: Edge| chained(f2, g2, e1, e2);
        lemma_sum_ext(edges, |e2: Edge| bit(p(e2)), |e2: Edge| bit(q(e2)));
    }
    lemma_sum_ext(edges, a, b);
}

proof fn lemma_two_hop_none(edges: Seq<Edge>, f: spec_fn(Edge) -> bool, g: spec_fn(Edge) -> bool)
    requires
        (forall|k: int| 0 <= k < edges.len() ==> !f(#[trigger] edges[k])) || (forall|k: int|
            0 <= k < edges.len() ==> !g(#[trigger] edges[k])),
    ensures
        two_hop_total(edges, f, g) == 0,
{
    let a = |e1: Edge| count(edges, |e2: Edge| chained(f, g, e1, e2));
    assert forall|k: int| 0 <= k < edges.len() implies a(#[trigger] edges[k]) == 0 by {
        let e1 = edges[k];
        let p = |e2: Edge| chained(f, g, e1, e2);
        lemma_sum_zero(edges, |e2: Edge| bit(p(e2)));
    }
    lemma_sum_zero(edges, a);
}

proof fn lemma_triangle_same(
    edges: Seq<Edge>,
    f1: spec_fn(Edge) -> bool,
    f2: spec_fn(Edge) -> bool,
    f3: spec_fn(Edge) -> bool,
    g1: spec_fn(Edge) -> bool,
    g2: spec_fn(Edge) -> bool,
    g3: spec_fn(Edge) -> bool,
)
    requires
        same_hop(edges, f1, g1),
        same_hop(edges, f2, g2),
        same_hop(edges, f3, g3),
    ensures
        triangle_total(edges, f1, f2, f3) == triangle_total(edges, g1, g2, g3),
{
    let a = |e1: Edge| from_first(edges, f1, f2, f3, e1);
    let b = |e1: Edge| from_first(edges, g1, g2, g3, e1);
    assert forall|k: int| 0 <= k < edges.len() implies a(#[trigger] edges[k]) == b(edges[k]) by {
        let e1 = edges[k];
        let x = |e2: Edge| count(edges, |e3: Edge| triangle(f1, f2, f3, e1, e2, e3));
        let y = |e2: Edge| count(edges, |e3: Edge| triangle(g1, g2, g3, e1, e2, e3));
        assert forall|j: int| 0 <= j < edges.len() implies x(#[trigger] edges[j]) == y(
            edges[j],
        ) by {
            let e2 = edges[j];
            let p = |e3: Edge| triangle(f1, f2, f3, e1, e2, e3);
            let q = |e3: Edge| triangle(g1, g2, g3, e1, e2, e3);
            lemma_sum_ext(edges, |e3: Edge| bit(p(e3)), |e3: Edge| bit(q(e3)));
        }
        lemma_sum_ext(edges, x, y);
    }
    lemma_sum_ext(edges, a, b);
}

proof fn lemma_triangle_none(
    edges: Seq<Edge>,
    f1: spec_fn(Edge) -> bool,
    f2: spec_fn(Edge) -> bool,
    f3: spec_fn(Edge) -> bool,
)
    requires
        (forall|k: int| 0 <= k < edges.len() ==> !f1(#[trigger] edges[k])) || (forall|k: int|
            0 <= k < edges.len() ==> !f2(#[trigger] edges[k])) || (forall|k: int|
            0 <= k < edges.len() ==> !f3(#[trigger] edges[k])),
    ensures
        triangle_total(edges, f1, f2, f3) == 0,
{
    let a = |e1: Edge| from_first(edges, f1, f2, f3, e1);
    assert forall|k: int| 0 <= k < edges.len() implies a(#[trigger] edges[k]) == 0 by {
        let e1 = edges[k];
        let x = |e2: Edge| count(edges, |e3: Edge| triangle(f1, f2, f3, e1, e2, e3));
        assert forall|j: int| 0 <= j < edges.len() implies x(#[trigger] edges[j]) == 0 by {
            let e2 = edges[j];
            let p = |e3: Edge| triangle(f1, f2, f3, e1, e2, e3);
            lemma_sum_zero(edges, |e3: Edge| bit(p(e3)));
        }
        lemma_sum_zero(edges, x);
    }
    lemma_sum_zero(edges, a);
}

/// The edges of a snapshot that pass the masks are those that fill the hop.
proof fn lemma_hop_fills(
    c: Content,
    snap: CsrSnapshot,
    rel: Option<&str>,
    want: Option<TypeId>,
    from: spec_fn(NodeId) -> bool,
    to: spec_fn(NodeId) -> bool,
    m0: Option<Vec<bool>>,
    m1: Option<Vec<bool>>,
)
    requires
        images(snap, c),
        forall|ty: TypeId| #[trigger] type_admits(want, ty) == type_named(c, rel, ty),
        mask_is(m0, node_list(c), from),
        mask_is(m1, node_list(c), to),
    ensures
        same_hop(edge_list(c), hop(want, m0, m1), fills(c, rel, from, to)),
{
    let edges = edge_list(c);
    let ids = node_list(c);
    assert forall|k: int| 0 <= k < edges.len() implies hop(want, m0, m1)(#[trigger] edges[k])
        == fills(c, rel, from, to)(edges[k]) by {
        let e = edges[k];
        assert(0 <= e.src < snap.n() && 0 <= e.dst < snap.n());
        assert(mask_admits(m0, e.src) == from(ids[e.src]));
        assert(mask_admits(m1, e.dst) == to(ids[e.dst]));
        assert(type_admits(want, e.ty) == type_named(c, rel, e.ty));
    }
}

/// Marks the positions in `ids` of the nodes of a list.
fn id_mask(ids: &Vec<NodeId>, list: &[NodeId]) -> (mask: Vec<bool>)
    requires
        ascending(ids@),
    ensures
        mask@.len() == ids@.len(),
        forall|d: int| 0 <= d < ids@.len() ==> mask@[d] == list@.contains(#[trigger] ids@[d]),
{
    let mut mask: Vec<bool> = Vec::new();
    let mut d: usize = 0;
    while d < ids.len()
        invariant
            d <= ids@.len(),
            mask@.len() == d,
            forall|e: int| 0 <= e < d ==> !mask@[e],
        decreases ids@.len() - d,
    {
        mask.push(false);
        d = d + 1;
    }
    let mut i: usize = 0;
    assert(list@.take(0) =~= Seq::<NodeId>::empty());
    while i < list.len()
        invariant
            ascending(ids@),
            i <= list@.len(),
            mask@.len() == ids@.len(),
            forall|d: int|
                0 <= d < ids@.len() ==> mask@[d] == list@.take(i as int).contains(
                    #[trigger] ids@[d],
                ),
        decreases list@.len() - i,
    {
        let ghost before = mask@;
        let found: Option<usize> = position_of(ids, list[i]);
        if let Some(d) = found {
            mask.set(d, true);
        }
        proof {
            let (a, b) = (list@.take(i as int), list@.take(i + 1));
            assert forall|d: int| 0 <= d < ids@.len() implies mask@[d] == b.contains(
                #[trigger] ids@[d],
            ) by {
                if a.contains(ids@[d]) {
                    let j = a.index_of(ids@[d]);
                    assert(b[j] == ids@[d]);
                }
                assert(b[i as int] == list@[i as int]);
                if b.contains(ids@[d]) {
                    let j = b.index_of(ids@[d]);
                    if j < i {
                        assert(a[j] == ids@[d]);
                    }
                }
                if let Some(x) = found {
                    if ids@[d] == ids@[x as int] {
                        if d < x {
                            assert(ids@[d] < ids@[x as int]);
                        } else if x < d {
                            assert(ids@[x as int] < ids@[d]);
                        }
                    }
                } else {
                    assert(ids@.contains(ids@[d]));
                }
            }
        }
        i = i + 1;
    }
    assert(list@.take(i as int) =~= list@);
    mask
}

/// Narrows a mask.
fn narrow(mask: Option<Vec<bool>>, by: Vec<bool>) -> (r: Option<Vec<bool>>)
    requires
        mask_covers(mask, by@.len()),
    ensures
        mask_covers(r, by@.len()),
        forall|d: int|
            0 <= d < by@.len() ==> #[trigger] mask_admits(r, d) == (mask_admits(mask, d)
                && by@[d]),
{
    match mask {
        None => Some(by),
        Some(m) => {
            let mut both: Vec<bool> = Vec::new();
            let mut d: usize = 0;
            while d < by.len()
                invariant
                    d <= by@.len(),
                    m@.len() == by@.len(),
                    both@.len() == d,
                    forall|e: int| 0 <= e < d ==> both@[e] == (m@[e] && by@[e]),
                decreases by@.len() - d,
            {
                both.push(m[d] && by[d]);
                d = d + 1;
            }
            Some(both)
        },
    }
}

/// A list of nodes, where there is one.
pub open spec fn listed_nodes(allow: Option<&[NodeId]>) -> Option<Seq<NodeId>> {
    match allow {
        Some(a) => Some(a@),
        None => None,
    }
}

impl Graph {
    /// The mask of the nodes that carry a label and are in a list.
    fn vertex_mask(&self, label: Option<&str>, allow: Option<&[NodeId]>) -> (mask: Option<
        Vec<bool>,
    >)
        requires
            self.wf(),
            !self.stale(),
        ensures
            mask_is(mask, node_list(self@), vertex(self@, label, listed_nodes(allow))),
    {
        let ghost ids = node_list(self@);
        let mut mask: Option<Vec<bool>> = None;
        if let Some(name) = label {
            let with: Vec<NodeId> = self.store.nodes_by_label_impl(name);
            mask = Some(id_mask(&self.snapshot.dense_to_id, with.as_slice()));
            proof {
                assert forall|d: int| 0 <= d < ids.len() implies mask_admits(mask, d)
                    == self@.carries(#[trigger] ids[d], name@) by {
                    assert(with@.contains(ids[d]) <==> self@.carries(ids[d], name@));
                }
            }
        }
        if let Some(list) = allow {
            let by: Vec<bool> = id_mask(&self.snapshot.dense_to_id, list);
            let ghost before = mask;
            mask = narrow(mask, by);
            proof {
                assert forall|d: int| 0 <= d < ids.len() implies mask_admits(mask, d) == (
                mask_admits(before, d) && list@.contains(#[trigger] ids[d])) by {
                    assert(by@[d] == list@.contains(ids[d]));
                    assert(mask_admits(mask, d) == (mask_admits(before, d) && by@[d]));
                }
            }
        }
        mask
    }

    /// The mask of the nodes that have a value in a property.
    fn presence_mask(&self, prop: &str) -> (mask: Vec<bool>)
        requires
            self.wf(),
            !self.stale(),
        ensures
            mask@.len() == node_list(self@).len(),
            forall|d: int|
                0 <= d < mask@.len() ==> mask@[d] == !lacks(
                    self@.nodes[#[trigger] node_list(self@)[d]].props,
                    prop@,
                ),
    {
        let ghost ids = node_list(self@);
        let mut mask: Vec<bool> = Vec::new();
        let mut d: usize = 0;
        proof {
            lemma_store_lists(self.store);
        }
        while d < self.snapshot.dense_to_id.len()
            invariant
                self.wf(),
                !self.stale(),
                ids == node_list(self@),
                forall|id: NodeId| #[trigger]
                    ids.contains(id) <==> self@.nodes.dom().contains(id),
                d <= ids.len(),
                mask@.len() == d,
                forall|e: int|
                    0 <= e < d ==> mask@[e] == !lacks(self@.nodes[#[trigger] ids[e]].props, prop@),
            decreases ids.len() - d,
        {
            let id: NodeId = self.snapshot.dense_to_id[d];
            assert(ids.contains(ids[d as int]));
            let mut there: bool = false;
            if let Some(record) = self.store.nodes.get(id) {
                there = match record.props.get(prop) {
                    None => false,
                    Some(PropValue::Null) => false,
                    Some(_) => true,
                };
            }
            mask.push(there);
            d = d + 1;
        }
        mask
    }

    /// The number of a type that is asked for by name; `None` where no type has
    /// the name.
    fn resolve_type(&self, rel: Option<&str>) -> (r: Option<Option<TypeId>>)
        requires
            self.wf(),
        ensures
            r is None ==> forall|ty: TypeId| !#[trigger] type_named(self@, rel, ty),
            r matches Some(want) ==> forall|ty: TypeId| #[trigger]
                type_admits(want, ty) == type_named(self@, rel, ty),
    {
        match rel {
            None => Some(None),
            Some(name) => match self.store.types.scopes.number(name) {
                Some(t) => Some(Some(t)),
                None => None,
            },
        }
    }
}

/// The allow-set of a variable of a path pattern.
pub open spec fn path_allow(spec: PathCountSpec, i: int) -> Option<Seq<NodeId>> {
    if i < spec.vertex_allow@.len() {
        match spec.vertex_allow@[i] {
            Some(ids) => Some(ids@),
            None => None,
        }
    } else {
        None
    }
}

/// The nodes that a variable of a path pattern stands for.
pub open spec fn path_vertex(c: Content, spec: PathCountSpec, i: int) -> spec_fn(NodeId) -> bool {
    vertex(c, spec.labels@[i], path_allow(spec, i))
}

/// The edges that fill a hop of a path pattern.
pub open spec fn path_hop(c: Content, spec: PathCountSpec, i: int) -> spec_fn(Edge) -> bool {
    fills(c, spec.rel_types@[i], path_vertex(c, spec, i), path_vertex(c, spec, i + 1))
}

/// The ways to fill a path pattern.
pub open spec fn path_total(c: Content, spec: PathCountSpec) -> nat {
    if spec.rel_types@.len() == 1 {
        one_hop_total(edge_list(c), path_hop(c, spec, 0))
    } else {
        two_hop_total(edge_list(c), path_hop(c, spec, 0), path_hop(c, spec, 1))
    }
}

/// The nodes that a variable of a triangle pattern stands for.
pub open spec fn corner(c: Content, spec: TriangleCountSpec, i: int) -> spec_fn(NodeId) -> bool {
    vertex(c, spec.labels@[i], None)
}

/// The ways to fill a triangle pattern.
pub open spec fn cycle_total(c: Content, spec: TriangleCountSpec) -> nat {
    triangle_total(
        edge_list(c),
        fills(c, spec.rel_types@[0], corner(c, spec, 0), corner(c, spec, 1)),
        fills(c, spec.rel_types@[1], corner(c, spec, 1), corner(c, spec, 2)),
        fills(c, spec.rel_types@[2], corner(c, spec, 2), corner(c, spec, 0)),
    )
}

impl Graph {
    /// The mask of a variable of a path pattern.
    fn path_mask(&self, spec: &PathCountSpec, i: usize) -> (mask: Option<Vec<bool>>)
        requires
            self.wf(),
            !self.stale(),
            i < spec.labels@.len(),
        ensures
            mask_is(mask, node_list(self@), path_vertex(self@, *spec, i as int)),
    {
        if i < spec.vertex_allow.len() {
            match &spec.vertex_allow[i] {
                Some(ids) => self.vertex_mask(spec.labels[i], Some(ids.as_slice())),
                None => self.vertex_mask(spec.labels[i], None),
            }
        } else {
            self.vertex_mask(spec.labels[i], None)
        }
    }

    /// Counts the ways to fill a path pattern of one or two hops.
    pub fn count_linear_paths(&mut self, spec: &PathCountSpec) -> (total: u64)
        requires
            old(self).wf(),
            old(self).compressible(),
            1 <= spec.rel_types@.len() <= 2,
            spec.labels@.len() == spec.rel_types@.len() + 1,
            spec.vertex_allow@.len() <= spec.labels@.len(),
            path_total(old(self)@, *spec) <= u64::MAX,
        ensures
            total == path_total(old(self)@, *spec),
            old(self).refreshed(*final(self)) || *final(self) == *old(self),
    {
        let ghost c = self@;
        let t1: Option<TypeId> = match self.resolve_type(spec.rel_types[0]) {
            Some(want) => want,
            None => {
                proof {
                    let f = path_hop(c, *spec, 0);
                    if spec.rel_types@.len() == 1 {
                        lemma_sum_zero(edge_list(c), |e: Edge| bit(f(e)));
                    } else {
                        lemma_two_hop_none(edge_list(c), f, path_hop(c, *spec, 1));
                    }
                }
                return 0;
            },
        };
        if spec.rel_types.len() == 1 {
            self.ensure_snapshot_fresh();
            let m0: Option<Vec<bool>> = self.path_mask(spec, 0);
            let m1: Option<Vec<bool>> = self.path_mask(spec, 1);
            proof {
                lemma_hop_fills(
                    c,
                    self.snapshot,
                    spec.rel_types@[0],
                    t1,
                    path_vertex(c, *spec, 0),
                    path_vertex(c, *spec, 1),
                    m0,
                    m1,
                );
                lemma_one_hop_same(edge_list(c), hop(t1, m0, m1), path_hop(c, *spec, 0));
            }
            return count_one_hop(&self.snapshot, t1, &m0, &m1);
        }
        let t2: Option<TypeId> = match self.resolve_type(spec.rel_types[1]) {
            Some(want) => want,
            None => {
                proof {
                    lemma_two_hop_none(
                        edge_list(c),
                        path_hop(c, *spec, 0),
                        path_hop(c, *spec, 1),
                    );
                }
                return 0;
            },
        };
        self.ensure_snapshot_fresh();
        let m0: Option<Vec<bool>> = self.path_mask(spec, 0);
        let m1: Option<Vec<bool>> = self.path_mask(spec, 1);
        let m2: Option<Vec<bool>> = self.path_mask(spec, 2);
        proof {
            lemma_hop_fills(
                c,
                self.snapshot,
                spec.rel_types@[0],
                t1,
                path_vertex(c, *spec, 0),
                path_vertex(c, *spec, 1),
                m0,
                m1,
            );
            lemma_hop_fills(
                c,
                self.snapshot,
                spec.rel_types@[1],
                t2,
                path_vertex(c, *spec, 1),
                path_vertex(c, *spec, 2),
                m1,
                m2,
            );
            lemma_two_hop_same(
                edge_list(c),
                hop(t1, m0, m1),
                hop(t2, m1, m2),
                path_hop(c, *spec, 0),
                path_hop(c, *spec, 1),
            );
        }
        let work: usize = self.snapshot.dense_to_id.len().saturating_add(
            self.snapshot.col_idx.len(),
        );
        let workers: usize = kernel_threads(self.threads, work);
        count_two_hops(&self.snapshot, t1, t2, &m0, &m1, &m2, workers)
    }

    /// Counts the ways to fill a directed triangle pattern.
    pub fn count_triangle_cycles(&mut self, spec: &TriangleCountSpec) -> (total: u64)
        requires
            old(self).wf(),
            old(self).compressible(),
            cycle_total(old(self)@, *spec) <= u64::MAX,
        ensures
            total == cycle_total(old(self)@, *spec),
            old(self).refreshed(*final(self)) || *final(self) == *old(self),
    {
        let ghost c = self@;
        let ghost f1 = fills(c, spec.rel_types@[0], corner(c, *spec, 0), corner(c, *spec, 1));
        let ghost f2 = fills(c, spec.rel_types@[1], corner(c, *spec, 1), corner(c, *spec, 2));
        let ghost f3 = fills(c, spec.rel_types@[2], corner(c, *spec, 2), corner(c, *spec, 0));
        let r1: Option<Option<TypeId>> = self.resolve_type(spec.rel_types[0]);
        let r2: Option<Option<TypeId>> = self.resolve_type(spec.rel_types[1]);
        let r3: Option<Option<TypeId>> = self.resolve_type(spec.rel_types[2]);
        match (r1, r2, r3) {
            (Some(t1), Some(t2), Some(t3)) => {
                self.ensure_snapshot_fresh();
                let m0: Option<Vec<bool>> = self.vertex_mask(spec.labels[0], None);
                let m1: Option<Vec<bool>> = self.vertex_mask(spec.labels[1], None);
                let m2: Option<Vec<bool>> = self.vertex_mask(spec.labels[2], None);
                proof {
                    let s = self.snapshot;
                    lemma_hop_fills(
                        c,
                        s,
                        spec.rel_types@[0],
                        t1,
                        corner(c, *spec, 0),
                        corner(c, *spec, 1),
                        m0,
                        m1,
                    );
                    lemma_hop_fills(
                        c,
                        s,
                        spec.rel_types@[1],
                        t2,
                        corner(c, *spec, 1),
                        corner(c, *spec, 2),
                        m1,
                        m2,
                    );
                    lemma_hop_fills(
                        c,
                        s,
                        spec.rel_types@[2],
                        t3,
                        corner(c, *spec, 2),
                        corner(c, *spec, 0),
                        m2,
                        m0,
                    );
                    lemma_triangle_same(
                        edge_list(c),
                        hop(t1, m0, m1),
                        hop(t2, m1, m2),
                        hop(t3, m2, m0),
                        f1,
                        f2,
                        f3,
                    );
                }
                let types: [Option<TypeId>; 3] = [t1, t2, t3];
                count_triangles(&self.snapshot, types, &m0, &m1, &m2)
            },
            _ => {
                proof {
                    lemma_triangle_none(edge_list(c), f1, f2, f3);
                }
                0
            },
        }
    }
}

/// The edges that a group is counted over: those that enter it or those that
/// leave it.
pub open spec fn at_group(c: Content, by_dst: bool, d: int) -> Seq<Edge> {
    if by_dst {
        edge_list(c).filter(entering(d))
    } else {
        edge_list(c).filter(leaving(d))
    }
}

/// The edges between a wanted group node and a wanted counted node.
pub open spec fn grouped_hop(
    c: Content,
    spec: GroupedDegreeSpec,
    counted: spec_fn(NodeId) -> bool,
) -> spec_fn(Edge) -> bool {
    let group = vertex(c, spec.group_label, None);
    if spec.group_is_dst {
        fills(c, spec.rel_type, counted, group)
    } else {
        fills(c, spec.rel_type, group, counted)
    }
}

/// The counted nodes of a grouped count.
pub open spec fn counted_nodes(c: Content, spec: GroupedDegreeSpec) -> spec_fn(NodeId) -> bool {
    vertex(c, spec.counted_label, listed_nodes(spec.counted_allow))
}

/// How many edges count for the group `d`: those whose counted node has a value in the
/// property, where one is asked for.
pub open spec fn group_count(c: Content, spec: GroupedDegreeSpec, d: int) -> nat {
    count(
        at_group(c, spec.group_is_dst, d),
        grouped_hop(c, spec, valued(c, counted_nodes(c, spec), spec.counted_nonnull_prop)),
    )
}

/// The groups among the first `k` nodes with their counts; a node for which nothing
/// counts is no group.
pub open spec fn group_list(c: Content, spec: GroupedDegreeSpec, k: int) -> Seq<(NodeId, u64)>
    decreases k,
{
    if k <= 0 {
        Seq::empty()
    } else if group_count(c, spec, k - 1) > 0 {
        group_list(c, spec, k - 1).push(
            (node_list(c)[k - 1], group_count(c, spec, k - 1) as u64),
        )
    } else {
        group_list(c, spec, k - 1)
    }
}

/// Counting a row in which the same edges qualify.
proof fn lemma_row_same(
    edges: Seq<Edge>,
    p: spec_fn(Edge) -> bool,
    f: spec_fn(Edge) -> bool,
    g: spec_fn(Edge) -> bool,
)
    requires
        same_hop(edges, f, g),
    ensures
        count(edges.filter(p), f) == count(edges.filter(p), g),
{
    let row = edges.filter(p);
    assert forall|i: int| 0 <= i < row.len() implies (|e: Edge| bit(f(e)))(#[trigger] row[i]) == (
    |e: Edge| bit(g(e)))(row[i]) by {
        edges.lemma_filter_contains_rev(p, row[i]);
        assert(row.contains(row[i]));
        let k = edges.index_of(row[i]);
        assert(edges.contains(row[i]));
        assert(edges[k] == row[i]);
    }
    lemma_sum_ext(row, |e: Edge| bit(f(e)), |e: Edge| bit(g(e)));
}

/// No edge of a row qualifies where the node at its end does not.
proof fn lemma_row_none(edges: Seq<Edge>, p: spec_fn(Edge) -> bool, f: spec_fn(Edge) -> bool)
    requires
        forall|e: Edge| p(e) ==> !#[trigger] f(e),
    ensures
        count(edges.filter(p), f) == 0,
{
    let row = edges.filter(p);
    assert forall|i: int| 0 <= i < row.len() implies (|e: Edge| bit(f(e)))(#[trigger] row[i])
        == 0 by {
        edges.lemma_filter_pred(p, i);
    }
    lemma_sum_zero(row, |e: Edge| bit(f(e)));
}

impl Graph {
    /// Counts the qualifying edges of one node on one side, where the mask is
    /// that of the nodes at their other ends.
    fn count_at(
        &self,
        d: usize,
        incoming: bool,
        want: Option<TypeId>,
        rel: Ghost<Option<&str>>,
        here: Ghost<spec_fn(NodeId) -> bool>,
        mask: &Option<Vec<bool>>,
        there: Ghost<spec_fn(NodeId) -> bool>,
    ) -> (n: u64)
        requires
            self.wf(),
            !self.stale(),
            d < node_list(self@).len(),
            forall|ty: TypeId| #[trigger] type_admits(want, ty) == type_named(self@, rel@, ty),
            mask_is(*mask, node_list(self@), there@),
            here@(node_list(self@)[d as int]),
        ensures
            n == count(
                at_group(self@, incoming, d as int),
                if incoming {
                    fills(self@, rel@, there@, here@)
                } else {
                    fills(self@, rel@, here@, there@)
                },
            ),
    {
        let none: Option<Vec<bool>> = None;
        let ghost c = self@;
        let ghost edges = edge_list(c);
        let ghost ids = node_list(c);
        if incoming {
            proof {
                let f = hop(want, *mask, none);
                let g = fills(c, rel@, there@, here@);
                let any = fills(c, rel@, there@, any_node());
                lemma_hop_fills(c, self.snapshot, rel@, want, there@, any_node(), *mask, none);
                lemma_row_same(edges, entering(d as int), f, any);
                lemma_row_here(edges, entering(d as int), any, g);
            }
            count_in(&self.snapshot, d, want, mask, &none)
        } else {
            proof {
                let f = hop(want, none, *mask);
                let g = fills(c, rel@, here@, there@);
                let any = fills(c, rel@, any_node(), there@);
                lemma_hop_fills(c, self.snapshot, rel@, want, any_node(), there@, none, *mask);
                lemma_row_same(edges, leaving(d as int), f, any);
                lemma_row_here(edges, leaving(d as int), any, g);
            }
            count_out(&self.snapshot, d, want, &none, mask)
        }
    }

    /// Counts the edges of a type by one of their ends: a group for each node
    /// with a count that is not zero, in ascending order of the nodes.
    pub fn grouped_edge_counts(&mut self, spec: &GroupedDegreeSpec) -> (out: Vec<(NodeId, u64)>)
        requires
            old(self).wf(),
            old(self).compressible(),
        ensures
            out@ == group_list(old(self)@, *spec, node_list(old(self)@).len() as int),
            old(self).refreshed(*final(self)),
    {
        let ghost c = self@;
        self.ensure_snapshot_fresh();
        let n: usize = self.snapshot.dense_to_id.len();
        let want: Option<TypeId> = match self.resolve_type(spec.rel_type) {
            Some(want) => want,
            None => {
                proof {
                    lemma_no_groups(c, *spec, n as int);
                }
                return Vec::new();
            },
        };
        let group: Option<Vec<bool>> = self.vertex_mask(spec.group_label, None);
        let mut present: Option<Vec<bool>> = self.vertex_mask(
            spec.counted_label,
            spec.counted_allow,
        );
        let ghost all = counted_nodes(c, *spec);
        let ghost some = valued(c, all, spec.counted_nonnull_prop);
        let ghost in_group = vertex(c, spec.group_label, None);
        if let Some(prop) = spec.counted_nonnull_prop {
            let there: Vec<bool> = self.presence_mask(prop);
            let ghost before = present;
            present = narrow(present, there);
            proof {
                assert forall|d: int| 0 <= d < n implies mask_admits(present, d) == some(
                    #[trigger] node_list(c)[d],
                ) by {
                    assert(mask_admits(present, d) == (mask_admits(before, d) && there@[d]));
                    assert(mask_admits(before, d) == all(node_list(c)[d]));
                }
            }
        }
        assert(mask_is(present, node_list(c), some));
        let mut out: Vec<(NodeId, u64)> = Vec::new();
        let mut d: usize = 0;
        while d < n
            invariant
                self.wf(),
                !self.stale(),
                c == self@,
                n == node_list(c).len(),
                n == self.snapshot.dense_to_id@.len(),
                forall|ty: TypeId| #[trigger]
                    type_admits(want, ty) == type_named(c, spec.rel_type, ty),
                all == counted_nodes(c, *spec),
                some == valued(c, all, spec.counted_nonnull_prop),
                in_group == vertex(c, spec.group_label, None),
                mask_is(group, node_list(c), in_group),
                mask_is(present, node_list(c), some),
                d <= n,
                out@ == group_list(c, *spec, d as int),
            decreases n - d,
        {
            let grouped: bool = match &group {
                None => true,
                Some(m) => m[d],
            };
            assert(grouped == in_group(node_list(c)[d as int]));
            if grouped {
                let tally: u64 = self.count_at(
                    d,
                    spec.group_is_dst,
                    want,
                    Ghost(spec.rel_type),
                    Ghost(in_group),
                    &present,
                    Ghost(some),
                );
                assert(tally == group_count(c, *spec, d as int));
                if tally > 0 {
                    out.push((self.snapshot.dense_to_id[d], tally));
                }
            } else {
                proof {
                    let f = grouped_hop(c, *spec, some);
                    if spec.group_is_dst {
                        lemma_row_none(edge_list(c), entering(d as int), f);
                    } else {
                        lemma_row_none(edge_list(c), leaving(d as int), f);
                    }
                }
            }
            d = d + 1;
        }
        out
    }
}

/// Where the node that a row belongs to is wanted, its side of a hop does not matter.
proof fn lemma_row_here(
    edges: Seq<Edge>,
    p: spec_fn(Edge) -> bool,
    f: spec_fn(Edge) -> bool,
    g: spec_fn(Edge) -> bool,
)
    requires
        forall|e: Edge| p(e) ==> #[trigger] f(e) == g(e),
    ensures
        count(edges.filter(p), f) == count(edges.filter(p), g),
{
    let row = edges.filter(p);
    assert forall|i: int| 0 <= i < row.len() implies (|e: Edge| bit(f(e)))(#[trigger] row[i]) == (
    |e: Edge| bit(g(e)))(row[i]) by {
        edges.lemma_filter_pred(p, i);
        assert(f(row[i]) == g(row[i]));
    }
    lemma_sum_ext(row, |e: Edge| bit(f(e)), |e: Edge| bit(g(e)));
}

/// A type that is not there makes no groups.
proof fn lemma_no_groups(c: Content, spec: GroupedDegreeSpec, k: int)
    requires
        forall|ty: TypeId| !#[trigger] type_named(c, spec.rel_type, ty),
    ensures
        group_list(c, spec, k) == Seq::<(NodeId, u64)>::empty(),
    decreases k,
{
    if k > 0 {
        lemma_no_groups(c, spec, k - 1);
        let some = valued(c, counted_nodes(c, spec), spec.counted_nonnull_prop);
        let f = grouped_hop(c, spec, some);
        assert forall|e: Edge| !#[trigger] f(e) by {
            assert(!type_named(c, spec.rel_type, e.ty));
        }
        lemma_row_none(edge_list(c), entering(k - 1), f);
        lemma_row_none(edge_list(c), leaving(k - 1), f);
    }
}

/// Whether a node carries all of these labels.
pub open spec fn carries_all(c: Content, labels: Seq<&str>, id: NodeId) -> bool {
    forall|i: int| 0 <= i < labels.len() ==> c.carries(id, (#[trigger] labels[i])@)
}

/// The neighbors that qualify.
pub open spec fn neighbor_nodes(c: Content, spec: NeighborCountSpec) -> spec_fn(NodeId) -> bool {
    |id: NodeId|
        carries_all(c, spec.neighbor_labels@, id) && (listed_nodes(
            spec.neighbor_allow,
        ) matches Some(a) ==> a.contains(id))
}

/// How many edges at a source lead to a wanted neighbor.
pub open spec fn neighbor_count(
    c: Content,
    spec: NeighborCountSpec,
    source: NodeId,
    wanted: spec_fn(NodeId) -> bool,
) -> nat {
    if node_list(c).contains(source) {
        count(
            at_group(c, spec.incoming, node_list(c).index_of(source)),
            if spec.incoming {
                fills(c, spec.rel_type, wanted, any_node())
            } else {
                fills(c, spec.rel_type, any_node(), wanted)
            },
        )
    } else {
        0
    }
}

impl Graph {
    /// The mask of the nodes that carry all of these labels and are in a list.
    fn neighbor_mask(&self, labels: &[&str], allow: Option<&[NodeId]>) -> (mask: Option<Vec<bool>>)
        requires
            self.wf(),
            !self.stale(),
        ensures
            mask_covers(mask, node_list(self@).len()),
            forall|d: int|
                0 <= d < node_list(self@).len() ==> mask_admits(mask, d) == (carries_all(
                    self@,
                    labels@,
                    #[trigger] node_list(self@)[d],
                ) && (listed_nodes(allow) matches Some(a) ==> a.contains(node_list(self@)[d]))),
    {
        let ghost ids = node_list(self@);
        let mut mask: Option<Vec<bool>> = self.vertex_mask(None, allow);
        let mut i: usize = 0;
        while i < labels.len()
            invariant
                self.wf(),
                !self.stale(),
                ids == node_list(self@),
                i <= labels@.len(),
                mask_covers(mask, ids.len()),
                forall|d: int|
                    0 <= d < ids.len() ==> mask_admits(mask, d) == (carries_all(
                        self@,
                        labels@.take(i as int),
                        #[trigger] ids[d],
                    ) && (listed_nodes(allow) matches Some(a) ==> a.contains(ids[d]))),
            decreases labels@.len() - i,
        {
            let with: Vec<NodeId> = self.store.nodes_by_label_impl(labels[i]);
            let by: Vec<bool> = id_mask(&self.snapshot.dense_to_id, with.as_slice());
            let ghost before = mask;
            mask = narrow(mask, by);
            proof {
                assert forall|d: int| 0 <= d < ids.len() implies mask_admits(mask, d) == (
                carries_all(self@, labels@.take(i + 1), #[trigger] ids[d]) && (listed_nodes(
                    allow,
                ) matches Some(a) ==> a.contains(ids[d]))) by {
                    assert(mask_admits(mask, d) == (mask_admits(before, d) && by@[d]));
                    assert(by@[d] == with@.contains(ids[d]));
                    assert(with@.contains(ids[d]) <==> self@.carries(
                        ids[d],
                        labels@[i as int]@,
                    ));
                    let (a, b) = (labels@.take(i as int), labels@.take(i + 1));
                    assert(b[i as int] == labels@[i as int]);
                    if carries_all(self@, b, ids[d]) {
                        assert forall|j: int| 0 <= j < a.len() implies self@.carries(
                            ids[d],
                            (#[trigger] a[j])@,
                        ) by {
                            assert(b[j] == a[j]);
                        }
                    }
                    if carries_all(self@, a, ids[d]) && self@.carries(
                        ids[d],
                        labels@[i as int]@,
                    ) {
                        assert forall|j: int| 0 <= j < b.len() implies self@.carries(
                            ids[d],
                            (#[trigger] b[j])@,
                        ) by {
                            if j < i {
                                assert(a[j] == b[j]);
                            }
                        }
                    }
                }
            }
            i = i + 1;
        }
        assert(labels@.take(i as int) =~= labels@);
        mask
    }

    /// Counts each source's neighbors over one hop: those that qualify, and
    /// those of them that have a value in the property.
    pub fn typed_neighbor_counts(&mut self, sources: &[NodeId], spec: &NeighborCountSpec) -> (out:
        Vec<(u64, u64)>)
        requires
            old(self).wf(),
            old(self).compressible(),
        ensures
            out@.len() == sources@.len(),
            forall|i: int|
                0 <= i < out@.len() ==> (#[trigger] out@[i]).0 == neighbor_count(
                    old(self)@,
                    *spec,
                    sources@[i],
                    neighbor_nodes(old(self)@, *spec),
                ) && out@[i].1 == neighbor_count(
                    old(self)@,
                    *spec,
                    sources@[i],
                    valued(
                        old(self)@,
                        neighbor_nodes(old(self)@, *spec),
                        spec.neighbor_nonnull_prop,
                    ),
                ),
            old(self).refreshed(*final(self)),
    {
        let ghost c = self@;
        self.ensure_snapshot_fresh();
        let ghost all = neighbor_nodes(c, *spec);
        let ghost some = valued(c, all, spec.neighbor_nonnull_prop);
        let resolved: Option<Option<TypeId>> = self.resolve_type(spec.rel_type);
        let known: bool = match resolved {
            Some(_) => true,
            None => false,
        };
        let want: Option<TypeId> = match resolved {
            Some(want) => want,
            None => None,
        };
        let mask: Option<Vec<bool>> = self.neighbor_mask(spec.neighbor_labels, spec.neighbor_allow);
        let mut present: Option<Vec<bool>> = self.neighbor_mask(
            spec.neighbor_labels,
            spec.neighbor_allow,
        );
        if let Some(prop) = spec.neighbor_nonnull_prop {
            let there: Vec<bool> = self.presence_mask(prop);
            let ghost before = present;
            present = narrow(present, there);
            proof {
                assert forall|d: int| 0 <= d < node_list(c).len() implies mask_admits(present, d)
                    == some(#[trigger] node_list(c)[d]) by {
                    assert(mask_admits(present, d) == (mask_admits(before, d) && there@[d]));
                    assert(mask_admits(before, d) == all(node_list(c)[d]));
                }
            }
        }
        assert(mask_is(mask, node_list(c), all));
        assert(mask_is(present, node_list(c), some));
        let mut out: Vec<(u64, u64)> = Vec::new();
        let mut i: usize = 0;
        while i < sources.len()
            invariant
                self.wf(),
                !self.stale(),
                c == self@,
                known ==> forall|ty: TypeId| #[trigger]
                    type_admits(want, ty) == type_named(c, spec.rel_type, ty),
                !known ==> forall|ty: TypeId| !#[trigger] type_named(c, spec.rel_type, ty),
                all == neighbor_nodes(c, *spec),
                some == valued(c, all, spec.neighbor_nonnull_prop),
                mask_is(mask, node_list(c), all),
                mask_is(present, node_list(c), some),
                i <= sources@.len(),
                out@.len() == i,
                forall|j: int|
                    0 <= j < i ==> (#[trigger] out@[j]).0 == neighbor_count(
                        c,
                        *spec,
                        sources@[j],
                        all,
                    ) && out@[j].1 == neighbor_count(c, *spec, sources@[j], some),
            decreases sources@.len() - i,
        {
            match self.snapshot.dense(sources[i]) {
                Some(d) => {
                    proof {
                        lemma_index_unique(node_list(c), d as int);
                        assert(node_list(c).contains(sources@[i as int]));
                    }
                    if known {
                        let q: u64 = self.count_at(
                            d,
                            spec.incoming,
                            want,
                            Ghost(spec.rel_type),
                            Ghost(any_node()),
                            &mask,
                            Ghost(all),
                        );
                        let v: u64 = self.count_at(
                            d,
                            spec.incoming,
                            want,
                            Ghost(spec.rel_type),
                            Ghost(any_node()),
                            &present,
                            Ghost(some),
                        );
                        out.push((q, v));
                    } else {
                        proof {
                            lemma_no_neighbors(c, *spec, sources@[i as int], all);
                            lemma_no_neighbors(c, *spec, sources@[i as int], some);
                        }
                        out.push((0, 0));
                    }
                },
                None => {
                    out.push((0, 0));
                },
            }
            i = i + 1;
        }
        out
    }

    /// How long the rows of these sources are in one direction, all together.
    /// The snapshot is taken as it is, be it current or not; a source that it
    /// does not know counts nothing.
    pub fn adjacency_span(&self, sources: &[NodeId], incoming: bool) -> (span: u64)
        requires
            self.wf(),
        ensures
            span == span_of(self.snapshot, sources@, incoming, sources@.len() as int),
    {
        let mut span: u64 = 0;
        let mut i: usize = 0;
        while i < sources.len()
            invariant
                self.wf(),
                i <= sources@.len(),
                span == span_of(self.snapshot, sources@, incoming, i as int),
            decreases sources@.len() - i,
        {
            if let Some(d) = self.snapshot.dense(sources[i]) {
                proof {
                    lemma_index_unique(self.snapshot.dense_to_id@, d as int);
                    assert(self.snapshot.dense_to_id@.contains(sources@[i as int]));
                }
                let width: usize = if incoming {
                    self.snapshot.in_row_ptr[d + 1] - self.snapshot.in_row_ptr[d]
                } else {
                    self.snapshot.row_ptr[d + 1] - self.snapshot.row_ptr[d]
                };
                span = span.saturating_add(width as u64);
            }
            i = i + 1;
        }
        span
    }
}

/// How long the row of a node is in one direction; nothing where the snapshot
/// does not know it.
pub open spec fn row_width(snap: CsrSnapshot, id: NodeId, incoming: bool) -> int {
    let d = snap.dense_to_id@.index_of(id);
    if !snap.dense_to_id@.contains(id) {
        0
    } else if incoming {
        snap.in_row_ptr@[d + 1] - snap.in_row_ptr@[d]
    } else {
        snap.row_ptr@[d + 1] - snap.row_ptr@[d]
    }
}

/// How long the rows of the first `i` sources are, up to the largest `u64`.
pub open spec fn span_of(snap: CsrSnapshot, sources: Seq<NodeId>, incoming: bool, i: int) -> int
    decreases i,
{
    if i <= 0 {
        0
    } else {
        let whole = span_of(snap, sources, incoming, i - 1) + row_width(
            snap,
            sources[i - 1],
            incoming,
        );
        if whole > u64::MAX {
            u64::MAX as int
        } else {
            whole
        }
    }
}

/// A type that is not there leads to no neighbors.
proof fn lemma_no_neighbors(
    c: Content,
    spec: NeighborCountSpec,
    source: NodeId,
    wanted: spec_fn(NodeId) -> bool,
)
    requires
        forall|ty: TypeId| !#[trigger] type_named(c, spec.rel_type, ty),
    ensures
        neighbor_count(c, spec, source, wanted) == 0,
{
    let d = node_list(c).index_of(source);
    let f = fills(c, spec.rel_type, wanted, any_node());
    let g = fills(c, spec.rel_type, any_node(), wanted);
    assert forall|e: Edge| !#[trigger] f(e) by {
        assert(!type_named(c, spec.rel_type, e.ty));
    }
    assert forall|e: Edge| !#[trigger] g(e) by {
        assert(!type_named(c, spec.rel_type, e.ty));
    }
    lemma_row_none(edge_list(c), entering(d), f);
    lemma_row_none(edge_list(c), leaving(d), g);
}

/// The qualifying neighbors of the first `i` sources.
pub open spec fn qualifying(
    c: Content,
    spec: NeighborCountSpec,
    sources: Seq<NodeId>,
    i: int,
) -> nat
    decreases i,
{
    if i <= 0 {
        0
    } else {
        qualifying(c, spec, sources, i - 1) + neighbor_count(
            c,
            spec,
            sources[i - 1],
            neighbor_nodes(c, spec),
        )
    }
}

/// Over a current snapshot, the span of some sources is no less than what they count,
/// as far as a `u64` reaches, and no source counts more neighbors with a value than
/// neighbors.
pub proof fn lemma_span_bounds_counts(
    snap: CsrSnapshot,
    c: Content,
    spec: NeighborCountSpec,
    sources: Seq<NodeId>,
    i: int,
)
    requires
        images(snap, c),
        0 <= i <= sources.len(),
    ensures
        qualifying(c, spec, sources, i) <= span_of(snap, sources, spec.incoming, i)
            || span_of(snap, sources, spec.incoming, i) == u64::MAX,
        forall|source: NodeId|
            neighbor_count(
                c,
                spec,
                source,
                valued(c, neighbor_nodes(c, spec), spec.neighbor_nonnull_prop),
            ) <= #[trigger] neighbor_count(c, spec, source, neighbor_nodes(c, spec)),
    decreases i,
{
    let all = neighbor_nodes(c, spec);
    let some = valued(c, all, spec.neighbor_nonnull_prop);
    assert forall|source: NodeId|
        neighbor_count(c, spec, source, some) <= #[trigger] neighbor_count(
            c,
            spec,
            source,
            all,
        ) by {
        let row = at_group(c, spec.incoming, node_list(c).index_of(source));
        if spec.incoming {
            lemma_count_implied(
                row,
                fills(c, spec.rel_type, some, any_node()),
                fills(c, spec.rel_type, all, any_node()),
            );
        } else {
            lemma_count_implied(
                row,
                fills(c, spec.rel_type, any_node(), some),
                fills(c, spec.rel_type, any_node(), all),
            );
        }
    }
    if i > 0 {
        lemma_span_bounds_counts(snap, c, spec, sources, i - 1);
        let id = sources[i - 1];
        if node_list(c).contains(id) {
            let d = node_list(c).index_of(id);
            assert(snap.out_row(d) == snap.edges@.filter(leaving(d)));
            assert(snap.in_row(d) == snap.edges@.filter(entering(d)));
            assert(snap.row_ptr@[d] <= snap.row_ptr@[d + 1]);
            assert(snap.in_row_ptr@[d] <= snap.in_row_ptr@[d + 1]);
            lemma_count_bound(
                at_group(c, spec.incoming, d),
                if spec.incoming {
                    fills(c, spec.rel_type, all, any_node())
                } else {
                    fills(c, spec.rel_type, any_node(), all)
                },
            );
        }
    }
}

proof fn lemma_count_implied(s: Seq<Edge>, p: spec_fn(Edge) -> bool, q: spec_fn(Edge) -> bool)
    requires
        forall|e: Edge| #[trigger] p(e) ==> q(e),
    ensures
        count(s, p) <= count(s, q),
    decreases s.len(),
{
    if s.len() > 0 {
        lemma_count_implied(s.drop_last(), p, q);
        assert(p(s.last()) ==> q(s.last()));
    }
}

} // verus!
