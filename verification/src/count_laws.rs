//! What the pattern counts count: edges of the records, and pairs and triples of them.

use vstd::prelude::*;

use crate::counting::chained;
use crate::csr::{ascending, edges_ascending, entering, leaving, CsrSnapshot, Edge};
use crate::graph_counts::{
    any_node, corner, counted_nodes, cycle_total, fills, group_count, group_list, grouped_hop,
    neighbor_count, neighbor_nodes, path_hop, path_total, path_vertex, row_width, span_of, valued,
};
use crate::image::{edge_list, images, is_edge, lemma_store_lists, node_list};
use crate::laws::lemma_store_sound;
use crate::schema::{
    EdgeId, GroupedDegreeSpec, NeighborCountSpec, NodeId, PathCountSpec, TriangleCountSpec,
};
use crate::store::{Content, Store};
use crate::sums::{bit, count, lemma_count_bound, lemma_sum_ext, lemma_sum_filter, sum};
use crate::tables::number_of_name;
use crate::triangles::{from_first, triangle};

verus! {

/// A node has a label with this name.
pub open spec fn labelled(c: Content, id: NodeId, name: Seq<char>) -> bool {
    c.nodes.dom().contains(id) && exists|k: int|
        0 <= k < c.nodes[id].labels.len() && c.labels[(#[trigger] c.nodes[id].labels[k]) as int]
            == name
}

/// An edge has the type with this name.
pub open spec fn typed(c: Content, e: EdgeId, name: Seq<char>) -> bool {
    c.edges.dom().contains(e) && c.types[c.edges[e].ty as int] == name
}

/// A node carries a label exactly where one of its labels has that name.
pub proof fn lemma_carries_by_name(s: Store, id: NodeId, label: Seq<char>)
    requires
        s.wf(),
    ensures
        s@.carries(id, label) <==> labelled(s@, id, label),
{
    let c = s@;
    lemma_store_sound(s);
    if c.carries(id, label) {
        let l = number_of_name(c.labels, label)->0;
        let k = c.nodes[id].labels.index_of(l);
        assert(c.nodes[id].labels[k] == l);
    }
    if labelled(c, id, label) {
        let k = choose|k: int|
            0 <= k < c.nodes[id].labels.len() && c.labels[(
            #[trigger] c.nodes[id].labels[k]) as int] == label;
        let l = c.nodes[id].labels[k];
        assert(c.nodes[id].labels.contains(l));
        assert(c.labels.contains(label));
        assert(c.labels.index_of(label) == l);
    }
}

/// An edge has a type exactly where its type has that name.
pub proof fn lemma_type_by_name(s: Store, e: EdgeId, ty: Seq<char>)
    requires
        s.wf(),
    ensures
        s@.has_type(e, ty) <==> typed(s@, e, ty),
        s@.edges.dom().contains(e) ==> (number_of_name(s@.types, ty) == Some(s@.edges[e].ty)
            <==> typed(s@, e, ty)),
{
    let c = s@;
    lemma_store_sound(s);
    if typed(c, e, ty) {
        assert(c.types.contains(ty));
        assert(c.types.index_of(ty) == c.edges[e].ty);
    }
}

/// The edges of a list that satisfy `p`.
spec fn matched(list: Seq<Edge>, p: spec_fn(Edge) -> bool) -> Set<EdgeId> {
    Set::new(
        |e: EdgeId| exists|k: int| 0 <= k < list.len() && (#[trigger] list[k]).id == e && p(list[k]),
    )
}

/// The pairs of edges of a list that satisfy `r`.
spec fn pairs_matched(list: Seq<Edge>, r: spec_fn(Edge, Edge) -> bool) -> Set<(EdgeId, EdgeId)> {
    Set::new(
        |x: (EdgeId, EdgeId)|
            exists|i: int, j: int|
                0 <= i < list.len() && 0 <= j < list.len() && (#[trigger] list[i]).id == x.0 && (
                #[trigger] list[j]).id == x.1 && r(list[i], list[j]),
    )
}

proof fn lemma_matched(list: Seq<Edge>, p: spec_fn(Edge) -> bool)
    requires
        edges_ascending(list),
    ensures
        matched(list, p).finite(),
        matched(list, p).len() == count(list, p),
    decreases list.len(),
{
    let now = matched(list, p);
    if list.len() == 0 {
        assert(now =~= Set::empty());
    } else {
        let head = list.drop_last();
        let last = list.last();
        let before = matched(head, p);
        lemma_matched(head, p);
        assert(!before.contains(last.id));
        assert forall|e: EdgeId| #[trigger] now.contains(e) <==> before.contains(e) || (p(last) && e
            == last.id) by {
            if now.contains(e) {
                let k = choose|k: int|
                    0 <= k < list.len() && (#[trigger] list[k]).id == e && p(list[k]);
                if k < head.len() {
                    assert(head[k] == list[k]);
                }
            }
            if before.contains(e) {
                let k = choose|k: int|
                    0 <= k < head.len() && (#[trigger] head[k]).id == e && p(head[k]);
                assert(list[k] == head[k]);
            }
            if p(last) && e == last.id {
                assert(list[list.len() - 1].id == e);
            }
        }
        if p(last) {
            assert(now =~= before.insert(last.id));
        } else {
            assert(now =~= before);
        }
    }
}

/// Sets that stand under different edges are as large together as their sizes add up to.
proof fn lemma_union_size<B>(
    list: Seq<Edge>,
    inner: spec_fn(Edge) -> Set<B>,
    f: spec_fn(Edge) -> nat,
    whole: Set<(EdgeId, B)>,
)
    requires
        edges_ascending(list),
        forall|i: int|
            0 <= i < list.len() ==> inner(#[trigger] list[i]).finite() && inner(list[i]).len() == f(
                list[i],
            ),
        forall|x: (EdgeId, B)| #[trigger]
            whole.contains(x) <==> exists|i: int|
                0 <= i < list.len() && (#[trigger] list[i]).id == x.0 && inner(list[i]).contains(
                    x.1,
                ),
    ensures
        whole.finite(),
        whole.len() == sum(list, f),
    decreases list.len(),
{
    if list.len() == 0 {
        assert(whole =~= Set::empty());
    } else {
        let head = list.drop_last();
        let last = list.last();
        let before = Set::new(
            |x: (EdgeId, B)|
                exists|i: int|
                    0 <= i < head.len() && (#[trigger] head[i]).id == x.0 && inner(
                        head[i],
                    ).contains(x.1),
        );
        assert forall|i: int| 0 <= i < head.len() implies inner(#[trigger] head[i]).finite()
            && inner(head[i]).len() == f(head[i]) by {
            assert(head[i] == list[i]);
        }
        lemma_union_size(head, inner, f, before);
        let place = |b: B| (last.id, b);
        let here = inner(last);
        let more = here.map(place);
        assert(list[list.len() - 1] == last);
        assert(inner(last).finite() && inner(last).len() == f(last));
        assert(vstd::relations::injective_on(place, here)) by {
            assert forall|a: B, b: B|
                here.contains(a) && here.contains(b) && #[trigger] place(a) == #[trigger] place(
                    b,
                ) implies a == b by {
                assert(place(a).1 == a && place(b).1 == b);
            }
        }
        vstd::set_lib::lemma_map_size(here, more, place);
        assert forall|x: (EdgeId, B)| #[trigger] more.contains(x) <==> x.0 == last.id
            && here.contains(x.1) by {
            if x.0 == last.id && here.contains(x.1) {
                assert(place(x.1) == x);
            }
        }
        assert forall|x: (EdgeId, B)| #[trigger] whole.contains(x) <==> before.contains(x)
            || more.contains(x) by {
            if whole.contains(x) {
                let i = choose|i: int|
                    0 <= i < list.len() && (#[trigger] list[i]).id == x.0 && inner(
                        list[i],
                    ).contains(x.1);
                if i < head.len() {
                    assert(head[i] == list[i]);
                }
            }
            if before.contains(x) {
                let i = choose|i: int|
                    0 <= i < head.len() && (#[trigger] head[i]).id == x.0 && inner(
                        head[i],
                    ).contains(x.1);
                assert(list[i] == head[i]);
            }
            if more.contains(x) {
                assert(list[list.len() - 1].id == x.0);
            }
        }
        assert(whole =~= before + more);
        assert(before.disjoint(more)) by {
            assert forall|x: (EdgeId, B)| before.contains(x) implies !more.contains(x) by {
                let i = choose|i: int|
                    0 <= i < head.len() && (#[trigger] head[i]).id == x.0 && inner(
                        head[i],
                    ).contains(x.1);
                assert(head[i] == list[i]);
                assert(list[i].id < list[list.len() - 1].id);
            }
        }
        vstd::set_lib::lemma_set_disjoint_lens(before, more);
    }
}

proof fn lemma_pairs_matched(list: Seq<Edge>, r: spec_fn(Edge, Edge) -> bool)
    requires
        edges_ascending(list),
    ensures
        pairs_matched(list, r).finite(),
        pairs_matched(list, r).len() == sum(list, |a: Edge| count(list, |b: Edge| r(a, b))),
{
    let inner = |a: Edge| matched(list, |b: Edge| r(a, b));
    let f = |a: Edge| count(list, |b: Edge| r(a, b));
    let whole = pairs_matched(list, r);
    assert forall|i: int| 0 <= i < list.len() implies inner(#[trigger] list[i]).finite() && inner(
        list[i],
    ).len() == f(list[i]) by {
        let a = list[i];
        lemma_matched(list, |b: Edge| r(a, b));
    }
    assert forall|x: (EdgeId, EdgeId)| #[trigger] whole.contains(x) <==> exists|i: int|
        0 <= i < list.len() && (#[trigger] list[i]).id == x.0 && inner(list[i]).contains(x.1) by {
        if whole.contains(x) {
            let (i, j) = choose|i: int, j: int|
                0 <= i < list.len() && 0 <= j < list.len() && (#[trigger] list[i]).id == x.0 && (
                #[trigger] list[j]).id == x.1 && r(list[i], list[j]);
            assert(list[j].id == x.1);
            assert(inner(list[i]).contains(x.1));
        }
        if exists|i: int|
            0 <= i < list.len() && (#[trigger] list[i]).id == x.0 && inner(list[i]).contains(x.1) {
            let i = choose|i: int|
                0 <= i < list.len() && (#[trigger] list[i]).id == x.0 && inner(list[i]).contains(
                    x.1,
                );
            let a = list[i];
            let p = |b: Edge| r(a, b);
            assert(matched(list, p).contains(x.1));
            let j = choose|j: int| 0 <= j < list.len() && (#[trigger] list[j]).id == x.1 && p(list[j]);
            assert(list[i].id == x.0 && list[j].id == x.1 && r(list[i], list[j]));
        }
    }
    lemma_union_size(list, inner, f, whole);
}

/// A node is what a path pattern asks of its variable `i`.
pub open spec fn path_fits(c: Content, spec: PathCountSpec, i: int, id: NodeId) -> bool {
    &&& spec.labels@[i] matches Some(l) ==> labelled(c, id, l@)
    &&& i < spec.vertex_allow@.len() && spec.vertex_allow@[i] is Some
        ==> spec.vertex_allow@[i]->0@.contains(id)
}

/// An edge is what a path pattern asks of its hop `i`.
pub open spec fn hop_fits(c: Content, spec: PathCountSpec, i: int, e: EdgeId) -> bool {
    &&& c.edges.dom().contains(e)
    &&& spec.rel_types@[i] matches Some(t) ==> typed(c, e, t@)
    &&& path_fits(c, spec, i, c.edges[e].src)
    &&& path_fits(c, spec, i + 1, c.edges[e].dst)
}

/// The edges that a path pattern of one hop asks for.
pub open spec fn one_hop_edges(c: Content, spec: PathCountSpec) -> Set<EdgeId> {
    Set::new(|e: EdgeId| hop_fits(c, spec, 0, e))
}

/// The pairs of edges that a path pattern of two hops asks for: the second goes on from
/// where the first ends, and is another edge.
pub open spec fn two_hop_edges(c: Content, spec: PathCountSpec) -> Set<(EdgeId, EdgeId)> {
    Set::new(
        |x: (EdgeId, EdgeId)|
            hop_fits(c, spec, 0, x.0) && hop_fits(c, spec, 1, x.1) && c.edges[x.0].dst
                == c.edges[x.1].src && x.0 != x.1,
    )
}

/// A node is what a triangle pattern asks of its variable `i`.
pub open spec fn corner_fits(c: Content, spec: TriangleCountSpec, i: int, id: NodeId) -> bool {
    spec.labels@[i] matches Some(l) ==> labelled(c, id, l@)
}

/// An edge is what a triangle pattern asks of the hop from its variable `i` to `j`.
pub open spec fn side_fits(
    c: Content,
    spec: TriangleCountSpec,
    i: int,
    j: int,
    e: EdgeId,
) -> bool {
    &&& c.edges.dom().contains(e)
    &&& spec.rel_types@[i] matches Some(t) ==> typed(c, e, t@)
    &&& corner_fits(c, spec, i, c.edges[e].src)
    &&& corner_fits(c, spec, j, c.edges[e].dst)
}

/// The triples of edges that a triangle pattern asks for: each goes on from where the one
/// before it ends, the first from the last, and no two are the same.
pub open spec fn triangle_edges(c: Content, spec: TriangleCountSpec) -> Set<
    (EdgeId, (EdgeId, EdgeId)),
> {
    Set::new(
        |x: (EdgeId, (EdgeId, EdgeId))|
            {
                let (a, b, d) = (x.0, x.1.0, x.1.1);
                &&& side_fits(c, spec, 0, 1, a) && side_fits(c, spec, 1, 2, b) && side_fits(
                    c,
                    spec,
                    2,
                    0,
                    d,
                )
                &&& c.edges[a].dst == c.edges[b].src
                &&& c.edges[b].dst == c.edges[d].src
                &&& c.edges[d].dst == c.edges[a].src
                &&& a != b && b != d && a != d
            },
    )
}

/// Whether a node has a value in a property.
pub open spec fn has_some(c: Content, id: NodeId, name: Seq<char>) -> bool {
    c.nodes[id].props.dom().contains(name) && c.nodes[id].props[name] !is Null
}

/// The edges that count for a group: of the type, with the group at the end that groups,
/// and at the other end a node that counts.
pub open spec fn group_edges(c: Content, spec: GroupedDegreeSpec, group: NodeId) -> Set<EdgeId> {
    Set::new(
        |e: EdgeId|
            {
                let other = if spec.group_is_dst {
                    c.edges[e].src
                } else {
                    c.edges[e].dst
                };
                &&& c.edges.dom().contains(e)
                &&& spec.rel_type matches Some(t) ==> typed(c, e, t@)
                &&& group == (if spec.group_is_dst {
                    c.edges[e].dst
                } else {
                    c.edges[e].src
                })
                &&& spec.group_label matches Some(l) ==> labelled(c, group, l@)
                &&& spec.counted_label matches Some(l) ==> labelled(c, other, l@)
                &&& spec.counted_allow matches Some(a) ==> a@.contains(other)
                &&& spec.counted_nonnull_prop matches Some(p) ==> has_some(c, other, p@)
            },
    )
}

/// The edges that count for a source: of the type, in the direction that is followed, to
/// a neighbor that qualifies.
pub open spec fn neighbor_edges(c: Content, spec: NeighborCountSpec, source: NodeId) -> Set<
    EdgeId,
> {
    Set::new(
        |e: EdgeId|
            {
                let other = if spec.incoming {
                    c.edges[e].src
                } else {
                    c.edges[e].dst
                };
                &&& c.edges.dom().contains(e)
                &&& spec.rel_type matches Some(t) ==> typed(c, e, t@)
                &&& source == (if spec.incoming {
                    c.edges[e].dst
                } else {
                    c.edges[e].src
                })
                &&& forall|i: int|
                    0 <= i < spec.neighbor_labels@.len() ==> labelled(
                        c,
                        other,
                        (#[trigger] spec.neighbor_labels@[i])@,
                    )
                &&& spec.neighbor_allow matches Some(a) ==> a@.contains(other)
            },
    )
}

/// Those of them whose neighbor has a value in the property that is asked for.
pub open spec fn valued_neighbor_edges(
    c: Content,
    spec: NeighborCountSpec,
    source: NodeId,
) -> Set<EdgeId> {
    neighbor_edges(c, spec, source).filter(
        |e: EdgeId|
            spec.neighbor_nonnull_prop matches Some(p) ==> has_some(
                c,
                if spec.incoming {
                    c.edges[e].src
                } else {
                    c.edges[e].dst
                },
                p@,
            ),
    )
}

/// The edge list shows every edge once, between the positions of its ends.
proof fn lemma_listed(s: Store)
    requires
        s.wf(),
    ensures
        edges_ascending(edge_list(s@)),
        ascending(node_list(s@)),
        forall|k: int|
            0 <= k < edge_list(s@).len() ==> is_edge(
                s@.edges,
                node_list(s@),
                #[trigger] edge_list(s@)[k],
            ),
        forall|e: EdgeId| #[trigger]
            s@.edges.dom().contains(e) ==> exists|k: int|
                0 <= k < edge_list(s@).len() && (#[trigger] edge_list(s@)[k]).id == e,
        forall|e: EdgeId| #[trigger]
            s@.edges.dom().contains(e) ==> s@.nodes.dom().contains(s@.edges[e].src)
                && s@.nodes.dom().contains(s@.edges[e].dst),
{
    lemma_store_lists(s);
    assert forall|e: EdgeId| #[trigger] s@.edges.dom().contains(e) implies s@.nodes.dom().contains(
        s@.edges[e].src,
    ) && s@.nodes.dom().contains(s@.edges[e].dst) by {
        assert(s.edges@.dom().contains(e));
    }
}

proof fn lemma_hop_fits(s: Store, spec: PathCountSpec, i: int, k: int)
    requires
        s.wf(),
        0 <= i < spec.rel_types@.len(),
        spec.labels@.len() == spec.rel_types@.len() + 1,
        0 <= k < edge_list(s@).len(),
    ensures
        path_hop(s@, spec, i)(edge_list(s@)[k]) <==> hop_fits(s@, spec, i, edge_list(s@)[k].id),
{
    let c = s@;
    let e = edge_list(c)[k];
    lemma_listed(s);
    assert(is_edge(c.edges, node_list(c), e));
    let (a, b) = (c.edges[e.id].src, c.edges[e.id].dst);
    if spec.labels@[i] is Some {
        lemma_carries_by_name(s, a, spec.labels@[i]->0@);
    }
    if spec.labels@[i + 1] is Some {
        lemma_carries_by_name(s, b, spec.labels@[i + 1]->0@);
    }
    if spec.rel_types@[i] is Some {
        lemma_type_by_name(s, e.id, spec.rel_types@[i]->0@);
    }
    assert(path_vertex(c, spec, i)(a) <==> path_fits(c, spec, i, a));
    assert(path_vertex(c, spec, i + 1)(b) <==> path_fits(c, spec, i + 1, b));
}

/// A path pattern of one hop is filled as often as there are edges that it asks for, one
/// of two hops as often as there are such pairs of edges.
pub proof fn lemma_paths_are_edges(s: Store, spec: PathCountSpec)
    requires
        s.wf(),
        1 <= spec.rel_types@.len() <= 2,
        spec.labels@.len() == spec.rel_types@.len() + 1,
    ensures
        spec.rel_types@.len() == 1 ==> one_hop_edges(s@, spec).finite() && path_total(s@, spec)
            == one_hop_edges(s@, spec).len(),
        spec.rel_types@.len() == 2 ==> two_hop_edges(s@, spec).finite() && path_total(s@, spec)
            == two_hop_edges(s@, spec).len(),
{
    let c = s@;
    let list = edge_list(c);
    lemma_listed(s);
    let first = path_hop(c, spec, 0);
    if spec.rel_types@.len() == 1 {
        lemma_matched(list, first);
        assert forall|e: EdgeId| #[trigger] matched(list, first).contains(e) <==> hop_fits(
            c,
            spec,
            0,
            e,
        ) by {
            if matched(list, first).contains(e) {
                let k = choose|k: int|
                    0 <= k < list.len() && (#[trigger] list[k]).id == e && first(list[k]);
                lemma_hop_fits(s, spec, 0, k);
            }
            if hop_fits(c, spec, 0, e) {
                let k = choose|k: int| 0 <= k < list.len() && (#[trigger] list[k]).id == e;
                lemma_hop_fits(s, spec, 0, k);
            }
        }
        assert(matched(list, first) =~= one_hop_edges(c, spec));
    } else {
        let second = path_hop(c, spec, 1);
        let r = |a: Edge, b: Edge| chained(first, second, a, b);
        lemma_pairs_matched(list, r);
        let f = |a: Edge| count(list, |b: Edge| r(a, b));
        let g = |a: Edge| count(list, |b: Edge| chained(first, second, a, b));
        assert forall|i: int| 0 <= i < list.len() implies f(#[trigger] list[i]) == g(list[i]) by {
            let a = list[i];
            lemma_sum_ext(
                list,
                |b: Edge| bit((|b: Edge| r(a, b))(b)),
                |b: Edge| bit((|b: Edge| chained(first, second, a, b))(b)),
            );
        }
        lemma_sum_ext(list, f, g);
        assert forall|x: (EdgeId, EdgeId)| #[trigger] pairs_matched(list, r).contains(
            x,
        ) <==> two_hop_edges(c, spec).contains(x) by {
            if pairs_matched(list, r).contains(x) {
                let (i, j) = choose|i: int, j: int|
                    0 <= i < list.len() && 0 <= j < list.len() && (#[trigger] list[i]).id == x.0
                        && (#[trigger] list[j]).id == x.1 && r(list[i], list[j]);
                lemma_hop_fits(s, spec, 0, i);
                lemma_hop_fits(s, spec, 1, j);
                assert(is_edge(c.edges, node_list(c), list[i]));
                assert(is_edge(c.edges, node_list(c), list[j]));
            }
            if two_hop_edges(c, spec).contains(x) {
                let i = choose|i: int| 0 <= i < list.len() && (#[trigger] list[i]).id == x.0;
                let j = choose|j: int| 0 <= j < list.len() && (#[trigger] list[j]).id == x.1;
                lemma_hop_fits(s, spec, 0, i);
                lemma_hop_fits(s, spec, 1, j);
                lemma_meet(s, i, j);
                assert(r(list[i], list[j]));
            }
        }
        assert(pairs_matched(list, r) =~= two_hop_edges(c, spec));
    }
}

/// Two edges of the list meet exactly where those of the records do.
proof fn lemma_meet(s: Store, i: int, j: int)
    requires
        s.wf(),
        0 <= i < edge_list(s@).len(),
        0 <= j < edge_list(s@).len(),
    ensures
        edge_list(s@)[i].dst == edge_list(s@)[j].src <==> s@.edges[edge_list(s@)[i].id].dst
            == s@.edges[edge_list(s@)[j].id].src,
{
    let ids = node_list(s@);
    let (a, b) = (edge_list(s@)[i], edge_list(s@)[j]);
    lemma_listed(s);
    assert(is_edge(s@.edges, ids, a) && is_edge(s@.edges, ids, b));
    if ids[a.dst] == ids[b.src] && a.dst != b.src {
        if a.dst < b.src {
            assert(ids[a.dst] < ids[b.src]);
        } else {
            assert(ids[b.src] < ids[a.dst]);
        }
    }
}

proof fn lemma_side_fits(s: Store, spec: TriangleCountSpec, i: int, j: int, k: int)
    requires
        s.wf(),
        0 <= i < 3,
        0 <= j < 3,
        0 <= k < edge_list(s@).len(),
    ensures
        fills(s@, spec.rel_types@[i], corner(s@, spec, i), corner(s@, spec, j))(edge_list(s@)[k])
            <==> side_fits(s@, spec, i, j, edge_list(s@)[k].id),
{
    let c = s@;
    let e = edge_list(c)[k];
    lemma_listed(s);
    assert(is_edge(c.edges, node_list(c), e));
    let (a, b) = (c.edges[e.id].src, c.edges[e.id].dst);
    if spec.labels@[i] is Some {
        lemma_carries_by_name(s, a, spec.labels@[i]->0@);
    }
    if spec.labels@[j] is Some {
        lemma_carries_by_name(s, b, spec.labels@[j]->0@);
    }
    if spec.rel_types@[i] is Some {
        lemma_type_by_name(s, e.id, spec.rel_types@[i]->0@);
    }
    assert(corner(c, spec, i)(a) <==> corner_fits(c, spec, i, a));
    assert(corner(c, spec, j)(b) <==> corner_fits(c, spec, j, b));
}

/// A triangle pattern is filled as often as there are triples of edges that it asks for.
pub proof fn lemma_triangles_are_edges(s: Store, spec: TriangleCountSpec)
    requires
        s.wf(),
    ensures
        triangle_edges(s@, spec).finite(),
        cycle_total(s@, spec) == triangle_edges(s@, spec).len(),
{
    let c = s@;
    let list = edge_list(c);
    lemma_listed(s);
    let h1 = fills(c, spec.rel_types@[0], corner(c, spec, 0), corner(c, spec, 1));
    let h2 = fills(c, spec.rel_types@[1], corner(c, spec, 1), corner(c, spec, 2));
    let h3 = fills(c, spec.rel_types@[2], corner(c, spec, 2), corner(c, spec, 0));
    let f = |a: Edge| from_first(list, h1, h2, h3, a);
    let inner = |a: Edge| pairs_matched(list, |b: Edge, d: Edge| triangle(h1, h2, h3, a, b, d));
    let whole = triangle_edges(c, spec);
    assert forall|i: int| 0 <= i < list.len() implies inner(#[trigger] list[i]).finite() && inner(
        list[i],
    ).len() == f(list[i]) by {
        let a = list[i];
        let r = |b: Edge, d: Edge| triangle(h1, h2, h3, a, b, d);
        lemma_pairs_matched(list, r);
        let x = |b: Edge| count(list, |d: Edge| r(b, d));
        let y = |b: Edge| count(list, |d: Edge| triangle(h1, h2, h3, a, b, d));
        assert forall|j: int| 0 <= j < list.len() implies x(#[trigger] list[j]) == y(list[j]) by {
            let b = list[j];
            lemma_sum_ext(
                list,
                |d: Edge| bit((|d: Edge| r(b, d))(d)),
                |d: Edge| bit((|d: Edge| triangle(h1, h2, h3, a, b, d))(d)),
            );
        }
        lemma_sum_ext(list, x, y);
    }
    assert forall|x: (EdgeId, (EdgeId, EdgeId))| #[trigger] whole.contains(x) <==> exists|i: int|
        0 <= i < list.len() && (#[trigger] list[i]).id == x.0 && inner(list[i]).contains(x.1) by {
        if whole.contains(x) {
            let i = choose|i: int| 0 <= i < list.len() && (#[trigger] list[i]).id == x.0;
            let j = choose|j: int| 0 <= j < list.len() && (#[trigger] list[j]).id == x.1.0;
            let k = choose|k: int| 0 <= k < list.len() && (#[trigger] list[k]).id == x.1.1;
            lemma_side_fits(s, spec, 0, 1, i);
            lemma_side_fits(s, spec, 1, 2, j);
            lemma_side_fits(s, spec, 2, 0, k);
            lemma_meet(s, i, j);
            lemma_meet(s, j, k);
            lemma_meet(s, k, i);
            assert(triangle(h1, h2, h3, list[i], list[j], list[k]));
            let a = list[i];
            let r = |b: Edge, d: Edge| triangle(h1, h2, h3, a, b, d);
            assert(list[j].id == x.1.0 && list[k].id == x.1.1 && r(list[j], list[k]));
            assert(pairs_matched(list, r).contains(x.1));
            assert(inner(list[i]).contains(x.1));
        }
        if exists|i: int|
            0 <= i < list.len() && (#[trigger] list[i]).id == x.0 && inner(list[i]).contains(x.1) {
            let i = choose|i: int|
                0 <= i < list.len() && (#[trigger] list[i]).id == x.0 && inner(list[i]).contains(
                    x.1,
                );
            let a = list[i];
            let r = |b: Edge, d: Edge| triangle(h1, h2, h3, a, b, d);
            assert(pairs_matched(list, r).contains(x.1));
            let (j, k) = choose|j: int, k: int|
                0 <= j < list.len() && 0 <= k < list.len() && (#[trigger] list[j]).id == x.1.0 && (
                #[trigger] list[k]).id == x.1.1 && r(list[j], list[k]);
            lemma_side_fits(s, spec, 0, 1, i);
            lemma_side_fits(s, spec, 1, 2, j);
            lemma_side_fits(s, spec, 2, 0, k);
            lemma_meet(s, i, j);
            lemma_meet(s, j, k);
            lemma_meet(s, k, i);
        }
    }
    lemma_union_size(list, inner, f, whole);
}

/// Counting in a row is counting among all edges.
proof fn lemma_row_matched(
    list: Seq<Edge>,
    q: spec_fn(Edge) -> bool,
    p: spec_fn(Edge) -> bool,
    whole: Set<EdgeId>,
)
    requires
        edges_ascending(list),
        forall|e: EdgeId| #[trigger]
            whole.contains(e) <==> exists|k: int|
                0 <= k < list.len() && (#[trigger] list[k]).id == e && q(list[k]) && p(list[k]),
    ensures
        whole.finite(),
        whole.len() == count(list.filter(q), p),
        whole.len() <= list.len(),
{
    let both = |e: Edge| q(e) && p(e);
    let f = |e: Edge| bit(p(e));
    lemma_sum_filter(list, q, f);
    lemma_matched(list, both);
    lemma_count_bound(list, both);
    assert(whole =~= matched(list, both));
    lemma_sum_ext(
        list,
        |e: Edge| bit(both(e)),
        |e: Edge|
            if q(e) {
                f(e)
            } else {
                0
            },
    );
}

proof fn lemma_group_size(s: Store, spec: GroupedDegreeSpec, d: int)
    requires
        s.wf(),
        0 <= d < node_list(s@).len(),
    ensures
        group_edges(s@, spec, node_list(s@)[d]).finite(),
        group_count(s@, spec, d) == group_edges(s@, spec, node_list(s@)[d]).len(),
        group_count(s@, spec, d) <= edge_list(s@).len(),
{
    let c = s@;
    let list = edge_list(c);
    let ids = node_list(c);
    let whole = group_edges(c, spec, ids[d]);
    let p = grouped_hop(c, spec, valued(c, counted_nodes(c, spec), spec.counted_nonnull_prop));
    let q = if spec.group_is_dst {
        entering(d)
    } else {
        leaving(d)
    };
    lemma_listed(s);
    assert forall|k: int| 0 <= k < list.len() implies (q(#[trigger] list[k]) && p(list[k])
        <==> whole.contains(list[k].id)) by {
        let e = list[k];
        assert(is_edge(c.edges, ids, e));
        let (a, b) = if spec.group_is_dst {
            (e.dst, e.src)
        } else {
            (e.src, e.dst)
        };
        lemma_position(ids, a, d);
        if spec.group_label is Some {
            lemma_carries_by_name(s, ids[a], spec.group_label->0@);
        }
        if spec.counted_label is Some {
            lemma_carries_by_name(s, ids[b], spec.counted_label->0@);
        }
        if spec.rel_type is Some {
            lemma_type_by_name(s, e.id, spec.rel_type->0@);
        }
    }
    assert forall|e: EdgeId| #[trigger] whole.contains(e) <==> exists|k: int|
        0 <= k < list.len() && (#[trigger] list[k]).id == e && q(list[k]) && p(list[k]) by {
        if whole.contains(e) {
            let k = choose|k: int| 0 <= k < list.len() && (#[trigger] list[k]).id == e;
            assert(q(list[k]) && p(list[k]));
        }
    }
    lemma_row_matched(list, q, p, whole);
}

proof fn lemma_position(ids: Seq<NodeId>, i: int, j: int)
    requires
        ascending(ids),
        0 <= i < ids.len(),
        0 <= j < ids.len(),
    ensures
        ids[i] == ids[j] <==> i == j,
{
    if i < j {
        assert(ids[i] < ids[j]);
    } else if j < i {
        assert(ids[j] < ids[i]);
    }
}

proof fn lemma_group_list(s: Store, spec: GroupedDegreeSpec, k: int, group: NodeId, m: u64)
    requires
        s.wf(),
        0 <= k <= node_list(s@).len(),
        edge_list(s@).len() <= u64::MAX,
    ensures
        group_list(s@, spec, k).contains((group, m)) <==> node_list(s@).take(k).contains(group) && m
            > 0 && m == group_edges(s@, spec, group).len(),
        forall|i: int, j: int|
            0 <= i < j < group_list(s@, spec, k).len() ==> group_list(s@, spec, k)[i].0
                < group_list(s@, spec, k)[j].0,
        forall|i: int|
            0 <= i < group_list(s@, spec, k).len() ==> exists|d: int|
                0 <= d < k && node_list(s@)[d] == (#[trigger] group_list(s@, spec, k)[i]).0,
    decreases k,
{
    let c = s@;
    let ids = node_list(c);
    if k > 0 {
        let before = group_list(c, spec, k - 1);
        let now = group_list(c, spec, k);
        lemma_group_list(s, spec, k - 1, group, m);
        lemma_group_size(s, spec, k - 1);
        lemma_listed(s);
        let last = (ids[k - 1], group_count(c, spec, k - 1) as u64);
        assert(ids.take(k) =~= ids.take(k - 1).push(ids[k - 1]));
        assert(ids.take(k).contains(group) <==> ids.take(k - 1).contains(group) || group
            == ids[k - 1]) by {
            if ids.take(k).contains(group) {
                let i = ids.take(k).index_of(group);
                if i < k - 1 {
                    assert(ids.take(k - 1)[i] == group);
                }
            }
            if ids.take(k - 1).contains(group) {
                let i = ids.take(k - 1).index_of(group);
                assert(ids.take(k)[i] == group);
            }
            if group == ids[k - 1] {
                assert(ids.take(k)[k - 1] == group);
            }
        }
        if ids.take(k - 1).contains(group) {
            let i = ids.take(k - 1).index_of(group);
            assert(ids[i] == group);
            lemma_position(ids, i, k - 1);
        }
        assert forall|i: int| 0 <= i < before.len() implies (#[trigger] before[i]).0 < ids[k - 1] by {
            let d = choose|d: int| 0 <= d < k - 1 && ids[d] == before[i].0;
            assert(ids[d] < ids[k - 1]);
        }
        if group_count(c, spec, k - 1) > 0 {
            assert(now == before.push(last));
            assert(now.contains((group, m)) <==> before.contains((group, m)) || (group, m) == last)
                by {
                if now.contains((group, m)) {
                    let i = now.index_of((group, m));
                    if i < before.len() {
                        assert(before[i] == (group, m));
                    }
                }
                if before.contains((group, m)) {
                    let i = before.index_of((group, m));
                    assert(now[i] == (group, m));
                }
                if (group, m) == last {
                    assert(now[before.len() as int] == last);
                }
            }
        }
        assert forall|i: int| 0 <= i < now.len() implies exists|d: int|
            0 <= d < k && ids[d] == (#[trigger] now[i]).0 by {
            if i < before.len() {
                assert(now[i] == before[i]);
                let d = choose|d: int| 0 <= d < k - 1 && ids[d] == before[i].0;
                assert(ids[d] == now[i].0);
            } else {
                assert(ids[k - 1] == now[i].0);
            }
        }
        assert forall|i: int, j: int| 0 <= i < j < now.len() implies now[i].0 < now[j].0 by {
            assert(now[i] == before[i]);
            if j < before.len() {
                assert(now[j] == before[j]);
            }
        }
    }
}

/// A grouped count holds a group exactly where edges count for it, with their number, in
/// ascending order of the groups.
pub proof fn lemma_groups_are_edges(s: Store, spec: GroupedDegreeSpec, group: NodeId, m: u64)
    requires
        s.wf(),
        edge_list(s@).len() <= u64::MAX,
    ensures
        group_edges(s@, spec, group).finite(),
        group_list(s@, spec, node_list(s@).len() as int).contains((group, m)) <==> m > 0 && m
            == group_edges(s@, spec, group).len(),
        forall|i: int, j: int|
            0 <= i < j < group_list(s@, spec, node_list(s@).len() as int).len() ==> group_list(
                s@,
                spec,
                node_list(s@).len() as int,
            )[i].0 < group_list(s@, spec, node_list(s@).len() as int)[j].0,
{
    let c = s@;
    let ids = node_list(c);
    let n = ids.len() as int;
    let whole = group_edges(c, spec, group);
    lemma_listed(s);
    lemma_store_lists(s);
    lemma_group_list(s, spec, n, group, m);
    assert(ids.take(n) =~= ids);
    if ids.contains(group) {
        lemma_group_size(s, spec, ids.index_of(group));
    } else {
        assert forall|e: EdgeId| !whole.contains(e) by {
            if whole.contains(e) {
                assert(c.nodes.dom().contains(group));
            }
        }
        assert(whole =~= Set::empty());
    }
}

/// A count of neighbors is the number of edges at the source that lead to a neighbor that
/// qualifies; the second one leaves out those without a value.
pub proof fn lemma_neighbors_are_edges(s: Store, spec: NeighborCountSpec, source: NodeId)
    requires
        s.wf(),
    ensures
        neighbor_edges(s@, spec, source).finite(),
        neighbor_count(s@, spec, source, neighbor_nodes(s@, spec)) == neighbor_edges(
            s@,
            spec,
            source,
        ).len(),
        valued_neighbor_edges(s@, spec, source).finite(),
        neighbor_count(
            s@,
            spec,
            source,
            valued(s@, neighbor_nodes(s@, spec), spec.neighbor_nonnull_prop),
        ) == valued_neighbor_edges(s@, spec, source).len(),
{
    let c = s@;
    let ids = node_list(c);
    lemma_neighbor_size(
        s,
        spec,
        source,
        neighbor_nodes(c, spec),
        neighbor_edges(c, spec, source),
        false,
    );
    lemma_neighbor_size(
        s,
        spec,
        source,
        valued(c, neighbor_nodes(c, spec), spec.neighbor_nonnull_prop),
        valued_neighbor_edges(c, spec, source),
        true,
    );
}

proof fn lemma_neighbor_size(
    s: Store,
    spec: NeighborCountSpec,
    source: NodeId,
    wanted: spec_fn(NodeId) -> bool,
    whole: Set<EdgeId>,
    with_value: bool,
)
    requires
        s.wf(),
        !with_value ==> wanted == neighbor_nodes(s@, spec) && whole == neighbor_edges(
            s@,
            spec,
            source,
        ),
        with_value ==> wanted == valued(
            s@,
            neighbor_nodes(s@, spec),
            spec.neighbor_nonnull_prop,
        ) && whole == valued_neighbor_edges(s@, spec, source),
    ensures
        whole.finite(),
        neighbor_count(s@, spec, source, wanted) == whole.len(),
{
    let c = s@;
    let ids = node_list(c);
    let list = edge_list(c);
    lemma_listed(s);
    lemma_store_lists(s);
    if ids.contains(source) {
        let d = ids.index_of(source);
        let q = if spec.incoming {
            entering(d)
        } else {
            leaving(d)
        };
        let p = if spec.incoming {
            fills(c, spec.rel_type, wanted, any_node())
        } else {
            fills(c, spec.rel_type, any_node(), wanted)
        };
        assert forall|k: int| 0 <= k < list.len() implies (q(#[trigger] list[k]) && p(list[k])
            <==> whole.contains(list[k].id)) by {
            let e = list[k];
            assert(is_edge(c.edges, ids, e));
            let (a, b) = if spec.incoming {
                (e.dst, e.src)
            } else {
                (e.src, e.dst)
            };
            lemma_position(ids, a, d);
            assert forall|i: int| 0 <= i < spec.neighbor_labels@.len() implies (c.carries(
                ids[b],
                (#[trigger] spec.neighbor_labels@[i])@,
            ) <==> labelled(c, ids[b], spec.neighbor_labels@[i]@)) by {
                lemma_carries_by_name(s, ids[b], spec.neighbor_labels@[i]@);
            }
            if spec.rel_type is Some {
                lemma_type_by_name(s, e.id, spec.rel_type->0@);
            }
        }
        assert forall|e: EdgeId| #[trigger] whole.contains(e) <==> exists|k: int|
            0 <= k < list.len() && (#[trigger] list[k]).id == e && q(list[k]) && p(list[k]) by {
            if whole.contains(e) {
                assert(c.edges.dom().contains(e));
                let k = choose|k: int| 0 <= k < list.len() && (#[trigger] list[k]).id == e;
                assert(q(list[k]) && p(list[k]));
            }
        }
        lemma_row_matched(list, q, p, whole);
    } else {
        assert forall|e: EdgeId| !whole.contains(e) by {
            if whole.contains(e) {
                assert(c.edges.dom().contains(e));
                assert(c.nodes.dom().contains(source));
            }
        }
        assert(whole =~= Set::empty());
    }
}

/// The edges at a node: those that enter it, or those that leave it.
pub open spec fn edges_at(c: Content, id: NodeId, incoming: bool) -> Set<EdgeId> {
    Set::new(
        |e: EdgeId|
            c.edges.dom().contains(e) && id == (if incoming {
                c.edges[e].dst
            } else {
                c.edges[e].src
            }),
    )
}

proof fn lemma_count_all<A>(list: Seq<A>, p: spec_fn(A) -> bool)
    requires
        forall|a: A| #[trigger] p(a),
    ensures
        count(list, p) == list.len(),
    decreases list.len(),
{
    if list.len() > 0 {
        lemma_count_all(list.drop_last(), p);
        assert(p(list.last()));
    }
}

/// While the snapshot is current, the row of a node is as long as there are edges at it.
proof fn lemma_width_is_edges(s: Store, snap: CsrSnapshot, id: NodeId, incoming: bool)
    requires
        s.wf(),
        images(snap, s@),
    ensures
        edges_at(s@, id, incoming).finite(),
        row_width(snap, id, incoming) == edges_at(s@, id, incoming).len(),
{
    let c = s@;
    let ids = node_list(c);
    let list = edge_list(c);
    let whole = edges_at(c, id, incoming);
    lemma_listed(s);
    lemma_store_lists(s);
    if ids.contains(id) {
        let d = ids.index_of(id);
        let q = if incoming {
            entering(d)
        } else {
            leaving(d)
        };
        let p = |e: Edge| true;
        assert forall|k: int| 0 <= k < list.len() implies (q(#[trigger] list[k])
            <==> whole.contains(list[k].id)) by {
            assert(is_edge(c.edges, ids, list[k]));
            lemma_position(
                ids,
                if incoming {
                    list[k].dst
                } else {
                    list[k].src
                },
                d,
            );
        }
        assert forall|e: EdgeId| #[trigger] whole.contains(e) <==> exists|k: int|
            0 <= k < list.len() && (#[trigger] list[k]).id == e && q(list[k]) && p(list[k]) by {
            if whole.contains(e) {
                assert(c.edges.dom().contains(e));
                let k = choose|k: int| 0 <= k < list.len() && (#[trigger] list[k]).id == e;
                assert(q(list[k]) && p(list[k]));
            }
        }
        lemma_row_matched(list, q, p, whole);
        lemma_count_all(list.filter(q), p);
        if incoming {
            assert(snap.in_row(d) == list.filter(entering(d)));
            assert(snap.in_row_ptr@[d] <= snap.in_row_ptr@[d + 1]);
        } else {
            assert(snap.out_row(d) == list.filter(leaving(d)));
            assert(snap.row_ptr@[d] <= snap.row_ptr@[d + 1]);
        }
    } else {
        assert forall|e: EdgeId| !whole.contains(e) by {
            if whole.contains(e) {
                assert(c.edges.dom().contains(e));
                assert(c.nodes.dom().contains(id));
            }
        }
        assert(whole =~= Set::empty());
    }
}

/// While the snapshot is current, the span of some nodes is the number of edges at each,
/// added up, or the largest number where that is more.
pub proof fn lemma_span_counts_edges(
    s: Store,
    snap: CsrSnapshot,
    sources: Seq<NodeId>,
    incoming: bool,
    i: int,
)
    requires
        s.wf(),
        images(snap, s@),
        0 <= i <= sources.len(),
    ensures
        ({
            let all = sum(sources.take(i), |id: NodeId| edges_at(s@, id, incoming).len());
            span_of(snap, sources, incoming, i) == (if all > u64::MAX {
                u64::MAX as int
            } else {
                all as int
            })
        }),
    decreases i,
{
    if i > 0 {
        lemma_span_counts_edges(s, snap, sources, incoming, i - 1);
        lemma_width_is_edges(s, snap, sources[i - 1], incoming);
        assert(sources.take(i).drop_last() =~= sources.take(i - 1));
        assert(sources.take(i).last() == sources[i - 1]);
    }
}

} // verus!
