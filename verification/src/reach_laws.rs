//! What components, expansions and searches from several nodes find, in terms of the edges
//! that the records hold.

use vstd::prelude::*;

use crate::components::{
    all_links, lemma_connected_link, lemma_connected_mark, lemma_connected_self,
    lemma_connected_symmetric, lemma_connected_transitive, linked, smallest_connected,
};
use crate::counting::type_admits;
use crate::count_laws::typed;
use crate::csr::{ascending, edges_ascending, entering, leaving, CsrSnapshot, Edge};
use crate::graph_analytics::maps_nodes;
use crate::graph_kernels::{names_component, type_wanted};
use crate::image::{edge_list, images, is_edge, lemma_store_lists, node_list};
use crate::route_laws::{
    lemma_place, lemma_shortest_path_is_shortest_route, lemma_within_is_route, route, within_hops,
};
use crate::schema::{EdgeId, NodeId, TypeId};
use crate::scc::{components_of, reach, strongly_connected};
use crate::score_laws::{chosen, lemma_arcs_are_edges, lemma_count_is_size, points};
use crate::store::{Content, Store};
use crate::tables::number_of_name;
use crate::traversal::{
    admitted, arc, capped_at, capped_reach, dense_of, expansion, fits, known_seeds,
    lemma_within_mono, lists, member, row_triples, size, within, Triple,
};

verus! {

/// The nodes of an edge are in one component; a component is named by its smallest node;
/// and nodes between which some division of the graph cuts no edge are in different
/// components.
pub proof fn lemma_components_are_islands(
    s: Store,
    snap: CsrSnapshot,
    found: Map<NodeId, u64>,
    a: NodeId,
    b: NodeId,
    side: Set<NodeId>,
)
    requires
        s.wf(),
        images(snap, s@),
        named_components(s, snap, found),
        node_list(s@).contains(a),
        node_list(s@).contains(b),
    ensures
        points(s@, a, b) ==> found[a] == found[b],
        node_list(s@).contains(found[a]) && found[a] <= a && found[found[a]] == found[a],
        (forall|e: EdgeId| #[trigger]
            s@.edges.dom().contains(e) ==> (side.contains(s@.edges[e].src) <==> side.contains(
                s@.edges[e].dst,
            ))) && found[a] == found[b] ==> (side.contains(a) <==> side.contains(b)),
{
    lemma_component_name(s, snap, found, a);
    lemma_component_name(s, snap, found, b);
    if points(s@, a, b) {
        lemma_edge_in_component(s, snap, found, a, b);
    }
    if (forall|e: EdgeId| #[trigger]
        s@.edges.dom().contains(e) ==> (side.contains(s@.edges[e].src) <==> side.contains(
            s@.edges[e].dst,
        ))) && found[a] == found[b] {
        lemma_no_side(s, snap, found, a, b, side);
    }
}

/// A component is named by the smallest node in it.
proof fn lemma_component_name(s: Store, snap: CsrSnapshot, found: Map<NodeId, u64>, a: NodeId)
    requires
        s.wf(),
        images(snap, s@),
        named_components(s, snap, found),
        node_list(s@).contains(a),
    ensures
        node_list(s@).contains(found[a]),
        found[a] <= a,
        found[found[a]] == found[a],
{
    let ids = node_list(s@);
    let links = all_links(snap);
    let u = ids.index_of(a);
    let x = lemma_component_root(s, snap, found, a);
    lemma_connected_self(links, u);
    assert(x <= u);
    if x < u {
        assert(ids[x] < ids[u]);
    }
    assert(ids.contains(ids[x]));
    let z = lemma_component_root(s, snap, found, ids[x]);
    lemma_place(ids, x);
    lemma_connected_transitive(links, u, x, z);
    lemma_connected_self(links, x);
    assert(x <= z && z <= x);
}

/// Every node has the name of its component.
pub open spec fn named_components(s: Store, snap: CsrSnapshot, found: Map<NodeId, u64>) -> bool {
    forall|v: int|
        0 <= v < node_list(s@).len() ==> names_component(
            snap,
            v,
            found[#[trigger] node_list(s@)[v]],
        )
}

proof fn lemma_component_root(
    s: Store,
    snap: CsrSnapshot,
    found: Map<NodeId, u64>,
    a: NodeId,
) -> (x: int)
    requires
        s.wf(),
        images(snap, s@),
        named_components(s, snap, found),
        node_list(s@).contains(a),
    ensures
        smallest_connected(snap, node_list(s@).index_of(a), x),
        node_list(s@)[x] == found[a],
{
    let ids = node_list(s@);
    let u = ids.index_of(a);
    assert(names_component(snap, u, found[ids[u]]));
    choose|x: int| #[trigger] smallest_connected(snap, u, x) && snap.dense_to_id@[x] == found[a]
}

proof fn lemma_edge_in_component(
    s: Store,
    snap: CsrSnapshot,
    found: Map<NodeId, u64>,
    a: NodeId,
    b: NodeId,
)
    requires
        s.wf(),
        images(snap, s@),
        named_components(s, snap, found),
        node_list(s@).contains(a),
        node_list(s@).contains(b),
        points(s@, a, b),
    ensures
        found[a] == found[b],
{
    let (ids, edges) = (node_list(s@), edge_list(s@));
    let links = all_links(snap);
    let (u, v) = (ids.index_of(a), ids.index_of(b));
    let x = lemma_component_root(s, snap, found, a);
    let y = lemma_component_root(s, snap, found, b);
    lemma_arcs_are_edges(s, u, v);
    let k = choose|k: int|
        0 <= k < edges.len() && (#[trigger] edges[k]).src == u && edges[k].dst == v;
    assert(links[k] == (u, v));
    assert(linked(links, u, v));
    lemma_connected_link(links, u, v);
    lemma_connected_symmetric(links, u, v);
    lemma_connected_transitive(links, u, v, y);
    lemma_connected_transitive(links, v, u, x);
    assert(x <= y && y <= x);
}

proof fn lemma_no_side(
    s: Store,
    snap: CsrSnapshot,
    found: Map<NodeId, u64>,
    a: NodeId,
    b: NodeId,
    side: Set<NodeId>,
)
    requires
        s.wf(),
        images(snap, s@),
        named_components(s, snap, found),
        node_list(s@).contains(a),
        node_list(s@).contains(b),
        forall|e: EdgeId| #[trigger]
            s@.edges.dom().contains(e) ==> (side.contains(s@.edges[e].src) <==> side.contains(
                s@.edges[e].dst,
            )),
        found[a] == found[b],
    ensures
        side.contains(a) <==> side.contains(b),
{
    let (ids, edges) = (node_list(s@), edge_list(s@));
    let links = all_links(snap);
    let (u, v) = (ids.index_of(a), ids.index_of(b));
    let x = lemma_component_root(s, snap, found, a);
    let y = lemma_component_root(s, snap, found, b);
    lemma_store_lists(s);
    lemma_place(ids, x);
    lemma_place(ids, y);
    let mark = |d: int|
        if side.contains(ids[d]) {
            1int
        } else {
            0int
        };
    assert forall|k: int| 0 <= k < links.len() implies mark((#[trigger] links[k]).0) == mark(
        links[k].1,
    ) by {
        assert(is_edge(s@.edges, ids, edges[k]));
        assert(s@.edges.dom().contains(edges[k].id));
    }
    lemma_connected_symmetric(links, v, y);
    lemma_connected_transitive(links, u, x, v);
    lemma_connected_mark(links, mark, u, v);
}

/// Two nodes are in one strong component exactly where routes lead both ways between them;
/// a route leads to no component with a greater number, and no number is left out.
pub proof fn lemma_strong_components_are_routes(
    s: Store,
    values: Seq<u64>,
    found: Map<NodeId, u64>,
    a: NodeId,
    b: NodeId,
    number: u64,
)
    requires
        s.wf(),
        components_of(edge_list(s@), node_list(s@).len(), values),
        maps_nodes(node_list(s@), found, values),
        node_list(s@).contains(a),
        node_list(s@).contains(b),
    ensures
        found[a] == found[b] <==> (exists|p: Seq<NodeId>| route(s@, a, b, p)) && (exists|
            p: Seq<NodeId>,
        | route(s@, b, a, p)),
        (exists|p: Seq<NodeId>| route(s@, a, b, p)) ==> found[b] <= found[a],
        number <= found[a] ==> exists|id: NodeId|
            node_list(s@).contains(id) && #[trigger] found[id] == number,
{
    let (ids, edges) = (node_list(s@), edge_list(s@));
    let (u, v) = (ids.index_of(a), ids.index_of(b));
    assert(found[ids[u]] == values[u] && found[ids[v]] == values[v]);
    lemma_shortest_path_is_shortest_route(s, a, b, seq![]);
    lemma_shortest_path_is_shortest_route(s, b, a, seq![]);
    assert(reach(edges, u, v) <==> exists|p: Seq<NodeId>| route(s@, a, b, p));
    assert(reach(edges, v, u) <==> exists|p: Seq<NodeId>| route(s@, b, a, p));
    assert(values[u] == values[v] <==> strongly_connected(edges, u, v));
    if number <= found[a] {
        assert(number <= values[u] ==> values.contains(number));
        let w = values.index_of(number);
        assert(found[ids[w]] == number);
        assert(ids.contains(ids[w]));
    }
}

/// Whether an edge of a type that is asked for leads from one node to the other, or, for
/// incoming edges, to one from the other.
pub open spec fn steps(
    c: Content,
    rel: Option<&str>,
    incoming: bool,
    t: Triple,
) -> bool {
    &&& c.edges.dom().contains(t.1)
    &&& rel matches Some(name) ==> typed(c, t.1, name@)
    &&& if incoming {
        c.edges[t.1].dst == t.0 && c.edges[t.1].src == t.2
    } else {
        c.edges[t.1].src == t.0 && c.edges[t.1].dst == t.2
    }
}

/// What an expansion gives for a type that is asked for.
pub open spec fn expanded(c: Content, sources: Seq<NodeId>, rel: Option<&str>, incoming: bool) -> Seq<
    Triple,
> {
    match type_wanted(c, rel) {
        None => Seq::empty(),
        Some(want) => expansion(node_list(c), edge_list(c), sources, want, incoming),
    }
}

/// Expanding two lists of nodes in turn is expanding them together.
pub proof fn lemma_expansions_join(
    c: Content,
    first: Seq<NodeId>,
    second: Seq<NodeId>,
    rel: Option<&str>,
    incoming: bool,
)
    ensures
        expanded(c, first + second, rel, incoming) == expanded(c, first, rel, incoming) + expanded(
            c,
            second,
            rel,
            incoming,
        ),
    decreases second.len(),
{
    if second.len() == 0 {
        assert(first + second =~= first);
        assert(expanded(c, second, rel, incoming) =~= Seq::empty());
        assert(expanded(c, first, rel, incoming) + Seq::empty() =~= expanded(
            c,
            first,
            rel,
            incoming,
        ));
    } else {
        lemma_expansions_join(c, first, second.drop_last(), rel, incoming);
        assert((first + second).drop_last() =~= first + second.drop_last());
        assert((first + second).last() == second.last());
        assert(expanded(c, first + second, rel, incoming) =~= expanded(c, first, rel, incoming)
            + expanded(c, second, rel, incoming));
    }
}

proof fn lemma_row_triples(
    ids: Seq<NodeId>,
    row: Seq<Edge>,
    want: Option<TypeId>,
    incoming: bool,
    t: Triple,
)
    requires
        edges_ascending(row),
    ensures
        ({
            let out = row_triples(ids, row, want, incoming);
            &&& out.contains(t) <==> exists|k: int|
                0 <= k < row.len() && #[trigger] type_admits(want, row[k].ty) && t == (if incoming {
                    (ids[row[k].dst], row[k].id, ids[row[k].src])
                } else {
                    (ids[row[k].src], row[k].id, ids[row[k].dst])
                })
            &&& forall|i: int, j: int| 0 <= i < j < out.len() ==> out[i].1 < out[j].1
            &&& forall|i: int|
                0 <= i < out.len() ==> row.len() > 0 && (#[trigger] out[i]).1 <= row.last().id
        }),
    decreases row.len(),
{
    let out = row_triples(ids, row, want, incoming);
    if row.len() > 0 {
        let head = row.drop_last();
        let before = row_triples(ids, head, want, incoming);
        lemma_row_triples(ids, head, want, incoming, t);
        let e = row.last();
        let x = if incoming {
            (ids[e.dst], e.id, ids[e.src])
        } else {
            (ids[e.src], e.id, ids[e.dst])
        };
        assert forall|i: int| 0 <= i < before.len() implies (#[trigger] before[i]).1 < e.id by {
            assert(head.last().id < e.id);
        }
        if type_admits(want, e.ty) {
            assert(out == before.push(x));
            assert(out.contains(t) <==> before.contains(t) || t == x) by {
                if out.contains(t) {
                    let i = out.index_of(t);
                    if i < before.len() {
                        assert(before[i] == t);
                    }
                }
                if before.contains(t) {
                    let i = before.index_of(t);
                    assert(out[i] == t);
                }
                if t == x {
                    assert(out[before.len() as int] == t);
                }
            }
        }
        let fits_at = |r: Seq<Edge>, k: int|
            0 <= k < r.len() && type_admits(want, r[k].ty) && t == (if incoming {
                (ids[r[k].dst], r[k].id, ids[r[k].src])
            } else {
                (ids[r[k].src], r[k].id, ids[r[k].dst])
            });
        if before.contains(t) {
            let k = choose|k: int|
                0 <= k < head.len() && #[trigger] type_admits(want, head[k].ty) && t == (
                if incoming {
                    (ids[head[k].dst], head[k].id, ids[head[k].src])
                } else {
                    (ids[head[k].src], head[k].id, ids[head[k].dst])
                });
            assert(row[k] == head[k]);
            assert(type_admits(want, row[k].ty));
        }
        if type_admits(want, e.ty) && t == x {
            assert(type_admits(want, row[row.len() - 1].ty));
        }
        if exists|k: int| #[trigger] fits_at(row, k) {
            let k = choose|k: int| #[trigger] fits_at(row, k);
            if k < head.len() {
                assert(row[k] == head[k]);
                assert(type_admits(want, head[k].ty));
            }
        }
        assert forall|k: int|
            0 <= k < row.len() && #[trigger] type_admits(want, row[k].ty) && t == (if incoming {
                (ids[row[k].dst], row[k].id, ids[row[k].src])
            } else {
                (ids[row[k].src], row[k].id, ids[row[k].dst])
            }) implies out.contains(t) by {
            if k < head.len() {
                assert(row[k] == head[k]);
                assert(type_admits(want, head[k].ty));
            }
        }
    }
}

/// The expansion of one node lists the edges at it that are of the type and lead the way
/// that is asked for, each once, in ascending order.
pub proof fn lemma_expansion_of_one(
    s: Store,
    id: NodeId,
    rel: Option<&str>,
    incoming: bool,
    t: Triple,
)
    requires
        s.wf(),
    ensures
        ({
            let out = expanded(s@, seq![id], rel, incoming);
            &&& out.contains(t) <==> t.0 == id && steps(s@, rel, incoming, t)
            &&& forall|i: int, j: int| 0 <= i < j < out.len() ==> out[i].1 < out[j].1
        }),
{
    let c = s@;
    let (ids, edges) = (node_list(c), edge_list(c));
    let out = expanded(c, seq![id], rel, incoming);
    lemma_store_lists(s);
    if steps(c, rel, incoming, t) {
        if rel is Some {
            crate::count_laws::lemma_type_by_name(s, t.1, rel->0@);
            assert(number_of_name(c.types, rel->0@) is Some);
        }
        let k = choose|k: int| 0 <= k < edges.len() && (#[trigger] edges[k]).id == t.1;
        assert(is_edge(c.edges, ids, edges[k]));
    }
    if type_wanted(c, rel) is Some {
        let want = type_wanted(c, rel)->0;
        assert(seq![id].drop_last() =~= Seq::empty());
        assert(expansion(ids, edges, Seq::empty(), want, incoming) =~= Seq::empty());
        if ids.contains(id) {
            let d = dense_of(ids, id);
            let p = if incoming {
                entering(d)
            } else {
                leaving(d)
            };
            let row = edges.filter(p);
            assert(out =~= row_triples(ids, row, want, incoming));
            lemma_filter_keeps_order(edges, p);
            lemma_row_triples(ids, row, want, incoming, t);
            if out.contains(t) {
                let k = choose|k: int|
                    0 <= k < row.len() && #[trigger] type_admits(want, row[k].ty) && t == (
                    if incoming {
                        (ids[row[k].dst], row[k].id, ids[row[k].src])
                    } else {
                        (ids[row[k].src], row[k].id, ids[row[k].dst])
                    });
                assert(row.contains(row[k]));
                edges.filter_lemma(p);
                assert(p(row[k]));
                assert(edges.contains(row[k]));
                let h = edges.index_of(row[k]);
                assert(is_edge(c.edges, ids, edges[h]));
                if rel is Some {
                    crate::count_laws::lemma_type_by_name(s, t.1, rel->0@);
                }
            }
            if t.0 == id && steps(c, rel, incoming, t) {
                let k = choose|k: int| 0 <= k < edges.len() && (#[trigger] edges[k]).id == t.1;
                assert(is_edge(c.edges, ids, edges[k]));
                let at = if incoming {
                    edges[k].dst
                } else {
                    edges[k].src
                };
                assert(at == d) by {
                    if at < d {
                        assert(ids[at] < ids[d]);
                    } else if d < at {
                        assert(ids[d] < ids[at]);
                    }
                }
                assert(p(edges[k]));
                edges.filter_lemma(p);
                assert(row.contains(edges[k]));
                let h = row.index_of(edges[k]);
                assert(row[h] == edges[k]);
                assert(type_admits(want, row[h].ty));
            }
        } else if t.0 == id && steps(c, rel, incoming, t) {
            let k = choose|k: int| 0 <= k < edges.len() && (#[trigger] edges[k]).id == t.1;
            assert(is_edge(c.edges, ids, edges[k]));
            assert(ids.contains(id)) by {
                assert(ids[edges[k].src] == c.edges[t.1].src);
                assert(ids[edges[k].dst] == c.edges[t.1].dst);
            }
        }
    }
}

proof fn lemma_filter_keeps_order(edges: Seq<Edge>, p: spec_fn(Edge) -> bool)
    requires
        edges_ascending(edges),
    ensures
        edges_ascending(edges.filter(p)),
        forall|i: int|
            0 <= i < edges.filter(p).len() ==> edges.contains(#[trigger] edges.filter(p)[i]),
    decreases edges.len(),
{
    reveal(Seq::filter);
    if edges.len() > 0 {
        let head = edges.drop_last();
        lemma_filter_keeps_order(head, p);
        let before = head.filter(p);
        assert forall|i: int| 0 <= i < before.len() implies (#[trigger] before[i]).id
            < edges.last().id && edges.contains(before[i]) by {
            let k = head.index_of(before[i]);
            assert(head.contains(before[i]));
            assert(edges[k] == before[i]);
        }
        assert(edges.contains(edges.last())) by {
            assert(edges[edges.len() - 1] == edges.last());
        }
    }
}

/// Whether a route of at most `hops` edges leads to a node from one of several.
pub open spec fn near_some(c: Content, seeds: Seq<NodeId>, to: NodeId, hops: nat) -> bool {
    exists|i: int| 0 <= i < seeds.len() && #[trigger] within_hops(c, seeds[i], to, hops)
}

/// `out` is what a search from several nodes finds, and `cut` says whether the cap left
/// something out.
pub open spec fn searched(
    c: Content,
    seeds: Seq<NodeId>,
    hops: nat,
    max: Option<usize>,
    out: Seq<NodeId>,
    cut: bool,
) -> bool {
    let ids = node_list(c);
    let known = known_seeds(ids, seeds);
    let from = admitted(known, max).to_set();
    let kept = Set::new(|d: int| 0 <= d < ids.len() && out.contains(ids[d]));
    &&& lists(ids, kept, out)
    &&& capped_reach(edge_list(c), from, hops, max, ids.len(), kept)
    &&& fits(max, out.len())
    &&& cut == (!fits(max, known.len()) || !fits(
        max,
        size(within(edge_list(c), from, hops), ids.len()),
    ))
}

/// A node is within a number of steps of several where it is of one of them.
proof fn lemma_within_some(edges: Seq<Edge>, seeds: Set<int>, k: nat, v: int)
    ensures
        within(edges, seeds, k).contains(v) <==> exists|u: int|
            seeds.contains(u) && #[trigger] within(edges, set![u], k).contains(v),
    decreases k,
{
    if k == 0 {
        if seeds.contains(v) {
            assert(within(edges, set![v], 0).contains(v));
        }
    } else {
        let j = (k - 1) as nat;
        lemma_within_some(edges, seeds, j, v);
        if within(edges, seeds, k).contains(v) {
            if within(edges, seeds, j).contains(v) {
                let u = choose|u: int|
                    seeds.contains(u) && #[trigger] within(edges, set![u], j).contains(v);
                assert(within(edges, set![u], k).contains(v));
            } else {
                let w = choose|w: int| within(edges, seeds, j).contains(w) && #[trigger] arc(
                    edges,
                    w,
                    v,
                );
                lemma_within_some(edges, seeds, j, w);
                let u = choose|u: int|
                    seeds.contains(u) && #[trigger] within(edges, set![u], j).contains(w);
                assert(within(edges, set![u], k).contains(v));
            }
        }
        if exists|u: int| seeds.contains(u) && #[trigger] within(edges, set![u], k).contains(v) {
            let u = choose|u: int|
                seeds.contains(u) && #[trigger] within(edges, set![u], k).contains(v);
            if !within(edges, set![u], j).contains(v) {
                let w = choose|w: int| within(edges, set![u], j).contains(w) && #[trigger] arc(
                    edges,
                    w,
                    v,
                );
                lemma_within_some(edges, seeds, j, w);
            }
        }
    }
}

/// The known seeds are those that are nodes, each once, in the order of first mention.
proof fn lemma_known(ids: Seq<NodeId>, seeds: Seq<NodeId>)
    requires
        ascending(ids),
    ensures
        known_seeds(ids, seeds).no_duplicates(),
        forall|x: int|
            0 <= x < known_seeds(ids, seeds).len() ==> 0 <= #[trigger] known_seeds(ids, seeds)[x]
                < ids.len() && seeds.contains(ids[known_seeds(ids, seeds)[x]]),
        forall|i: int|
            0 <= i < seeds.len() && ids.contains(#[trigger] seeds[i]) ==> known_seeds(
                ids,
                seeds,
            ).contains(dense_of(ids, seeds[i])),
        forall|x: int, y: int, i: int|
            0 <= x < y < known_seeds(ids, seeds).len() && 0 <= i < seeds.len()
                && ids[#[trigger] known_seeds(ids, seeds)[y]] == #[trigger] seeds[i]
                ==> seeds.take(i).contains(ids[#[trigger] known_seeds(ids, seeds)[x]]),
    decreases seeds.len(),
{
    if seeds.len() > 0 {
        let head = seeds.drop_last();
        let id = seeds.last();
        let before = known_seeds(ids, head);
        let now = known_seeds(ids, seeds);
        lemma_known(ids, head);
        let d = dense_of(ids, id);
        assert forall|x: int| 0 <= x < now.len() implies 0 <= #[trigger] now[x] < ids.len()
            && seeds.contains(ids[now[x]]) by {
            if x < before.len() {
                assert(now[x] == before[x]);
                assert(head.contains(ids[before[x]]));
                let i = head.index_of(ids[before[x]]);
                assert(seeds[i] == ids[now[x]]);
            } else {
                assert(ids[d] == id);
                assert(seeds[seeds.len() - 1] == id);
            }
        }
        assert forall|i: int| 0 <= i < seeds.len() && ids.contains(#[trigger] seeds[i]) implies now.contains(
            dense_of(ids, seeds[i]),
        ) by {
            if i < head.len() {
                assert(head[i] == seeds[i]);
                assert(before.contains(dense_of(ids, head[i])));
                let x = before.index_of(dense_of(ids, head[i]));
                assert(now[x] == before[x]);
            } else if before.contains(d) {
                let x = before.index_of(d);
                assert(now[x] == d);
            } else {
                assert(now[before.len() as int] == d);
            }
        }
        assert forall|x: int, y: int, i: int|
            0 <= x < y < now.len() && 0 <= i < seeds.len() && ids[#[trigger] now[y]]
                == #[trigger] seeds[i] implies seeds.take(i).contains(ids[#[trigger] now[x]]) by {
            assert(now[x] == before[x]);
            assert(head.contains(ids[before[x]]));
            if i < head.len() {
                assert(head[i] == seeds[i]);
                if y < before.len() {
                    assert(now[y] == before[y]);
                    assert(head.take(i).contains(ids[before[x]]));
                    assert(seeds.take(i) =~= head.take(i));
                } else {
                    assert(ids.contains(head[i])) by {
                        assert(ids[now[y]] == head[i]);
                    }
                    lemma_place(ids, now[y]);
                    assert(before.contains(dense_of(ids, head[i])));
                }
            } else {
                assert(seeds.take(i) =~= head);
            }
        }
        assert(now.no_duplicates());
    }
}

/// The size of a set of positions is the length of a list of their nodes.
proof fn lemma_size_is_len(ids: Seq<NodeId>, set: Set<int>, list: Seq<NodeId>)
    requires
        ascending(ids),
        list.no_duplicates(),
        forall|i: int| 0 <= i < list.len() ==> ids.contains(#[trigger] list[i]),
        forall|d: int| 0 <= d < ids.len() ==> (list.contains(#[trigger] ids[d]) <==> set.contains(d)),
    ensures
        size(set, ids.len()) == list.len(),
{
    let n = ids.len();
    let p = member(set);
    lemma_count_is_size(ids, p, n);
    list.unique_seq_to_set();
    let all = chosen(ids, p, n as int);
    assert forall|v: NodeId| #[trigger] all.contains(v) <==> list.to_set().contains(v) by {
        if all.contains(v) {
            let i = choose|i: int| 0 <= i < n && p(i) && #[trigger] ids[i] == v;
            assert(list.contains(ids[i]));
        }
        if list.to_set().contains(v) {
            let i = list.index_of(v);
            assert(ids.contains(list[i]));
            let d = ids.index_of(v);
            assert(ids[d] == v);
        }
    }
    assert(all =~= list.to_set());
}

/// Where the cap does not even admit the seeds, exactly the first of them are kept.
proof fn lemma_seeds_cut(
    s: Store,
    seeds: Seq<NodeId>,
    hops: nat,
    max: Option<usize>,
    out: Seq<NodeId>,
    cut: bool,
)
    requires
        s.wf(),
        searched(s@, seeds, hops, max, out, cut),
        !fits(max, known_seeds(node_list(s@), seeds).len()),
    ensures
        out.len() == max->0,
        forall|id: NodeId| #[trigger]
            out.contains(id) <==> exists|x: int|
                0 <= x < max->0 && node_list(s@)[#[trigger] known_seeds(node_list(s@), seeds)[x]]
                    == id,
{
    let (ids, edges) = (node_list(s@), edge_list(s@));
    let known = known_seeds(ids, seeds);
    let first = admitted(known, max);
    let from = first.to_set();
    let kept = Set::new(|d: int| 0 <= d < ids.len() && out.contains(ids[d]));
    lemma_store_lists(s);
    lemma_known(ids, seeds);
    let list = first.map_values(|d: int| ids[d]);
    assert forall|x: int| 0 <= x < first.len() implies out.contains(ids[#[trigger] first[x]]) by {
        assert(first[x] == known[x]);
        assert(from.contains(first[x]));
        if fits(max, size(within(edges, from, hops), ids.len())) {
            lemma_within_mono(edges, from, 0, hops);
            assert(within(edges, from, hops).contains(first[x]));
            assert(kept.contains(first[x]));
        } else {
            let h = choose|h: nat|
                h < hops && #[trigger] capped_at(edges, from, h, max, ids.len(), kept);
            lemma_within_mono(edges, from, 0, h);
            assert(within(edges, from, h).contains(first[x]));
            assert(kept.contains(first[x]));
        }
    }
    assert(list.no_duplicates()) by {
        assert forall|i: int, j: int| 0 <= i < list.len() && 0 <= j < list.len() && i != j implies list[i]
            != list[j] by {
            assert(first[i] == known[i] && first[j] == known[j]);
            lemma_place(ids, known[i]);
            lemma_place(ids, known[j]);
        }
    }
    list.unique_seq_to_set();
    assert(out.no_duplicates());
    out.unique_seq_to_set();
    assert(list.to_set().subset_of(out.to_set())) by {
        assert forall|v: NodeId| list.to_set().contains(v) implies out.to_set().contains(v) by {
            let i = list.index_of(v);
            assert(out.contains(ids[first[i]]));
        }
    }
    vstd::set_lib::lemma_len_subset(list.to_set(), out.to_set());
    vstd::set_lib::lemma_subset_equality(list.to_set(), out.to_set());
    assert forall|id: NodeId| #[trigger] out.contains(id) <==> exists|x: int|
        0 <= x < max->0 && ids[#[trigger] known[x]] == id by {
        assert(out.contains(id) <==> list.to_set().contains(id)) by {
            assert(out.to_set().contains(id) <==> out.contains(id));
        }
        if list.to_set().contains(id) {
            let x = list.index_of(id);
            assert(first[x] == known[x]);
        }
        if exists|x: int| 0 <= x < max->0 && ids[#[trigger] known[x]] == id {
            let x = choose|x: int| 0 <= x < max->0 && ids[#[trigger] known[x]] == id;
            assert(first[x] == known[x]);
            assert(list[x] == id);
            assert(list.to_set().contains(id));
        }
    }
}

/// A search from several nodes finds only what routes from one of them lead to. Without a
/// cut it finds all of it; a cut leaves as many nodes as the cap admits, keeps the nearer
/// nodes before the farther ones, and of the seeds those that are mentioned first.
pub proof fn lemma_search_from_several(
    s: Store,
    seeds: Seq<NodeId>,
    hops: nat,
    max: Option<usize>,
    out: Seq<NodeId>,
    cut: bool,
    a: NodeId,
    b: NodeId,
    k: nat,
)
    requires
        s.wf(),
        searched(s@, seeds, hops, max, out, cut),
    ensures
        out.contains(a) ==> near_some(s@, seeds, a, hops),
        !cut && near_some(s@, seeds, a, hops) ==> out.contains(a),
        max is None ==> !cut,
        max matches Some(m) ==> out.len() <= m && (cut ==> out.len() == m),
        out.contains(a) && !out.contains(b) && k <= hops && near_some(s@, seeds, b, k)
            ==> near_some(s@, seeds, a, k),
        forall|i: int|
            out.contains(a) && !out.contains(b) && 0 <= i < seeds.len() && #[trigger] seeds[i] == b
                && s@.nodes.dom().contains(b) ==> seeds.take(i).contains(a),
{
    let c = s@;
    let (ids, edges) = (node_list(c), edge_list(c));
    let known = known_seeds(ids, seeds);
    let from = admitted(known, max).to_set();
    let kept = Set::new(|d: int| 0 <= d < ids.len() && out.contains(ids[d]));
    lemma_store_lists(s);
    lemma_known(ids, seeds);
    if !fits(max, known.len()) {
        lemma_seeds_cut(s, seeds, hops, max, out, cut);
        if out.contains(a) {
            let x = choose|x: int| 0 <= x < max->0 && ids[#[trigger] known[x]] == a;
            assert(seeds.contains(ids[known[x]]));
            let i = seeds.index_of(a);
            assert(c.nodes.dom().contains(a)) by {
                assert(ids.contains(ids[known[x]]));
            }
            assert(route(c, a, a, seq![a]));
            assert(within_hops(c, seeds[i], a, hops));
            assert(within_hops(c, seeds[i], a, k));
            assert forall|i: int|
                !out.contains(b) && 0 <= i < seeds.len() && #[trigger] seeds[i] == b
                    && s@.nodes.dom().contains(b) implies seeds.take(i).contains(a) by {
                assert(ids.contains(seeds[i]));
                let y = known.index_of(dense_of(ids, b));
                assert(known.contains(dense_of(ids, seeds[i])));
                assert(ids[known[y]] == b);
                assert(y >= max->0);
                assert(seeds.take(i).contains(ids[known[x]]));
            }
        }
    } else {
        assert(admitted(known, max) =~= known);
        assert forall|v: int, h: nat| 0 <= v < ids.len() implies (#[trigger] within(
            edges,
            from,
            h,
        ).contains(v) <==> near_some(c, seeds, ids[v], h)) by {
            lemma_seeds_reach(s, seeds, v, h);
        }
        if near_some(c, seeds, a, hops) {
            lemma_near_is_node(s, seeds, a, hops);
        }
        if near_some(c, seeds, b, k) {
            lemma_near_is_node(s, seeds, b, k);
        }
        if out.contains(a) {
            let i = out.index_of(a);
            assert(ids.contains(out[i]));
        }
        let (u, v) = (ids.index_of(a), ids.index_of(b));
        if fits(max, size(within(edges, from, hops), ids.len())) {
            if ids.contains(a) {
                assert(kept.contains(u) <==> within(edges, from, hops).contains(u));
            }
            if ids.contains(b) && k <= hops {
                assert(kept.contains(v) <==> within(edges, from, hops).contains(v));
                lemma_within_mono(edges, from, k, hops);
                assert(within(edges, from, k).contains(v) <==> near_some(c, seeds, b, k));
            }
        } else {
            let h = choose|h: nat|
                h < hops && #[trigger] capped_at(edges, from, h, max, ids.len(), kept);
            let (whole, next) = (within(edges, from, h), within(edges, from, h + 1));
            lemma_within_mono(edges, from, h + 1, hops);
            lemma_size_is_len(ids, kept, out);
            if out.contains(a) {
                assert(kept.contains(u) && next.contains(u));
                assert(within(edges, from, hops).contains(u));
                if !out.contains(b) && near_some(c, seeds, b, k) {
                    assert(within(edges, from, k).contains(v));
                    if k <= h {
                        lemma_within_mono(edges, from, k, h);
                        assert(whole.contains(v));
                        assert(kept.contains(v));
                    } else {
                        lemma_within_mono(edges, from, h + 1, k);
                        assert(within(edges, from, k).contains(u));
                    }
                }
            }
        }
        assert forall|i: int|
            out.contains(a) && !out.contains(b) && 0 <= i < seeds.len() && #[trigger] seeds[i] == b
                && s@.nodes.dom().contains(b) implies seeds.take(i).contains(a) by {
            assert(ids.contains(seeds[i]));
            assert(known.contains(v));
            assert(from.contains(v));
            if fits(max, size(within(edges, from, hops), ids.len())) {
                lemma_within_mono(edges, from, 0, hops);
                assert(within(edges, from, hops).contains(v));
                assert(kept.contains(v));
            } else {
                let h = choose|h: nat|
                    h < hops && #[trigger] capped_at(edges, from, h, max, ids.len(), kept);
                lemma_within_mono(edges, from, 0, h);
                assert(within(edges, from, h).contains(v));
                assert(kept.contains(v));
            }
        }
    }
}

proof fn lemma_near_is_node(s: Store, seeds: Seq<NodeId>, a: NodeId, hops: nat)
    requires
        s.wf(),
        near_some(s@, seeds, a, hops),
    ensures
        node_list(s@).contains(a),
{
    lemma_store_lists(s);
    let i = choose|i: int| 0 <= i < seeds.len() && #[trigger] within_hops(s@, seeds[i], a, hops);
    let p = choose|p: Seq<NodeId>| #[trigger] route(s@, seeds[i], a, p) && p.len() <= hops + 1;
    assert(s@.nodes.dom().contains(p[p.len() - 1]));
}

proof fn lemma_seeds_reach(s: Store, seeds: Seq<NodeId>, v: int, h: nat)
    requires
        s.wf(),
        0 <= v < node_list(s@).len(),
    ensures
        within(
            edge_list(s@),
            known_seeds(node_list(s@), seeds).to_set(),
            h,
        ).contains(v) <==> near_some(s@, seeds, node_list(s@)[v], h),
{
    let c = s@;
    let (ids, edges) = (node_list(c), edge_list(c));
    let known = known_seeds(ids, seeds);
    let from = known.to_set();
    lemma_store_lists(s);
    lemma_known(ids, seeds);
    lemma_within_some(edges, from, h, v);
    if within(edges, from, h).contains(v) {
        let u = choose|u: int| from.contains(u) && #[trigger] within(edges, set![u], h).contains(v);
        let x = known.index_of(u);
        assert(known.contains(u));
        assert(seeds.contains(ids[known[x]]));
        let i = seeds.index_of(ids[u]);
        lemma_place(ids, u);
        assert(ids.contains(seeds[i]));
        lemma_within_is_route(s, seeds[i], v, h);
        assert(within_hops(c, seeds[i], ids[v], h));
    }
    if near_some(c, seeds, ids[v], h) {
        let i = choose|i: int|
            0 <= i < seeds.len() && #[trigger] within_hops(c, seeds[i], ids[v], h);
        let p = choose|p: Seq<NodeId>| #[trigger]
            route(c, seeds[i], ids[v], p) && p.len() <= h + 1;
        assert(c.nodes.dom().contains(p[0]));
        assert(ids.contains(seeds[i]));
        lemma_within_is_route(s, seeds[i], v, h);
        let u = dense_of(ids, seeds[i]);
        assert(known.contains(u));
        assert(from.contains(u) && within(edges, set![u], h).contains(v));
    }
}

} // verus!
