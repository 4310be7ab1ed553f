//! What the searches find, in terms of the edges that the records hold.

use vstd::prelude::*;

use crate::csr::{ascending, Edge};
use crate::depth_first::{has_cycle, is_cycle, lemma_dfs_reach, no_visit, visit};
use crate::image::{edge_list, is_edge, lemma_store_lists, node_list};
use crate::neighborhoods::feeds;
use crate::paths::{
    ids_of, is_walk, lemma_level_walk, lemma_walk_within, lemma_walks_to, traced, walk_between,
    walks_to,
};
use crate::schema::{EdgeId, NodeId};
use crate::score_laws::{lemma_arcs_are_edges, points};
use crate::simple_paths::{
    extensions, ids_option, lemma_distinct_bound, lemma_longer, lemma_simple_paths, longer,
    simple_path,
};
use crate::store::{Content, Store};
use crate::traversal::{
    arc, at_level, dense_of, lemma_within_mono, lemma_within_range, lemma_within_step, lists,
    reachable, within,
};

verus! {

/// Nodes of the graph, each of which an edge leads to from the one before it.
pub open spec fn is_route(c: Content, p: Seq<NodeId>) -> bool {
    &&& p.len() > 0
    &&& forall|i: int| 0 <= i < p.len() ==> c.nodes.dom().contains(#[trigger] p[i])
    &&& forall|i: int| 0 <= i < p.len() - 1 ==> points(c, #[trigger] p[i], p[i + 1])
}

/// A route from one node to another.
pub open spec fn route(c: Content, from: NodeId, to: NodeId, p: Seq<NodeId>) -> bool {
    is_route(c, p) && p[0] == from && p.last() == to
}

/// The positions of nodes.
spec fn places(ids: Seq<NodeId>, p: Seq<NodeId>) -> Seq<int> {
    p.map_values(|id: NodeId| ids.index_of(id))
}

/// All within the graph.
spec fn inside(p: Seq<int>, n: nat) -> bool {
    forall|i: int| 0 <= i < p.len() ==> 0 <= #[trigger] p[i] < n
}

/// A walk from a node of the graph stays in it.
proof fn lemma_inside(s: Store, p: Seq<int>)
    requires
        s.wf(),
        is_walk(edge_list(s@), p),
        0 <= p[0] < node_list(s@).len(),
    ensures
        inside(p, node_list(s@).len()),
{
    let edges = edge_list(s@);
    let n = node_list(s@).len();
    lemma_store_lists(s);
    assert forall|i: int| 0 <= i < p.len() implies 0 <= #[trigger] p[i] < n by {
        if i > 0 {
            assert(arc(edges, p[i - 1], p[i]));
            let k = choose|k: int|
                0 <= k < edges.len() && (#[trigger] edges[k]).src == p[i - 1] && edges[k].dst
                    == p[i];
            assert(is_edge(s@.edges, node_list(s@), edges[k]));
        }
    }
}

/// A walk over positions is a route over nodes.
proof fn lemma_walk_is_route(s: Store, p: Seq<int>)
    requires
        s.wf(),
        is_walk(edge_list(s@), p),
        0 <= p[0] < node_list(s@).len(),
    ensures
        route(
            s@,
            node_list(s@)[p[0]],
            node_list(s@)[p.last()],
            ids_of(node_list(s@), p),
        ),
        0 <= p.last() < node_list(s@).len(),
{
    let ids = node_list(s@);
    let q = ids_of(ids, p);
    lemma_inside(s, p);
    lemma_store_lists(s);
    assert forall|i: int| 0 <= i < q.len() implies s@.nodes.dom().contains(#[trigger] q[i]) by {
        assert(0 <= p[i] < ids.len());
        assert(ids.contains(ids[p[i]]));
    }
    assert forall|i: int| 0 <= i < q.len() - 1 implies points(s@, #[trigger] q[i], q[i + 1]) by {
        assert(0 <= p[i] < ids.len() && 0 <= p[i + 1] < ids.len());
        assert(arc(edge_list(s@), p[i], p[i + 1]));
        lemma_arcs_are_edges(s, p[i], p[i + 1]);
    }
}

/// A route over nodes is a walk over their positions.
proof fn lemma_route_is_walk(s: Store, p: Seq<NodeId>)
    requires
        s.wf(),
        is_route(s@, p),
    ensures
        is_walk(edge_list(s@), places(node_list(s@), p)),
        inside(places(node_list(s@), p), node_list(s@).len()),
        ids_of(node_list(s@), places(node_list(s@), p)) == p,
{
    let ids = node_list(s@);
    let q = places(ids, p);
    lemma_store_lists(s);
    assert forall|i: int| 0 <= i < q.len() implies 0 <= #[trigger] q[i] < ids.len() && ids[q[i]]
        == p[i] by {
        assert(s@.nodes.dom().contains(p[i]));
        assert(ids.contains(p[i]));
    }
    assert forall|i: int| 0 <= i < q.len() - 1 implies arc(
        edge_list(s@),
        #[trigger] q[i],
        q[i + 1],
    ) by {
        assert(points(s@, p[i], p[i + 1]));
        assert(ids[q[i]] == p[i] && ids[q[i + 1]] == p[i + 1]);
        lemma_arcs_are_edges(s, q[i], q[i + 1]);
    }
    assert(ids_of(ids, q) =~= p);
}

pub(crate) proof fn lemma_place(ids: Seq<NodeId>, i: int)
    requires
        ascending(ids),
        0 <= i < ids.len(),
    ensures
        ids.index_of(ids[i]) == i,
{
    let j = ids.index_of(ids[i]);
    assert(ids.contains(ids[i]));
    if j < i {
        assert(ids[j] < ids[i]);
    } else if i < j {
        assert(ids[i] < ids[j]);
    }
}

/// Whether a route of at most `hops` edges leads from one node to another.
pub open spec fn within_hops(c: Content, from: NodeId, to: NodeId, hops: nat) -> bool {
    exists|p: Seq<NodeId>| #[trigger] route(c, from, to, p) && p.len() <= hops + 1
}

/// A node is within a number of steps exactly where a route of so many edges leads to it.
pub proof fn lemma_within_is_route(s: Store, start: NodeId, v: int, hops: nat)
    requires
        s.wf(),
        node_list(s@).contains(start),
        0 <= v < node_list(s@).len(),
    ensures
        within(
            edge_list(s@),
            set![dense_of(node_list(s@), start)],
            hops,
        ).contains(v) <==> within_hops(s@, start, node_list(s@)[v], hops),
{
    let (ids, edges) = (node_list(s@), edge_list(s@));
    let d = dense_of(ids, start);
    let seeds = set![d];
    let to = ids[v];
    lemma_store_lists(s);
    if within(edges, seeds, hops).contains(v) {
        let l = lemma_first_within(edges, seeds, v, hops);
        let p = lemma_level_walk(edges, d, v, l);
        lemma_walk_is_route(s, p);
        let q = ids_of(ids, p);
        assert(route(s@, start, to, q) && q.len() <= hops + 1);
    }
    if within_hops(s@, start, to, hops) {
        let p = choose|p: Seq<NodeId>| #[trigger] route(s@, start, to, p) && p.len() <= hops + 1;
        lemma_route_is_walk(s, p);
        let q = places(ids, p);
        lemma_walk_within(edges, q);
        lemma_place(ids, v);
        assert(q[0] == d && q.last() == v);
        lemma_within_mono(edges, seeds, (q.len() - 1) as nat, hops);
    }
}

/// The first number of steps within which a node is.
proof fn lemma_first_within(edges: Seq<Edge>, seeds: Set<int>, v: int, k: nat) -> (l: nat)
    requires
        within(edges, seeds, k).contains(v),
    ensures
        l <= k,
        at_level(edges, seeds, v, l),
    decreases k,
{
    if k > 0 && within(edges, seeds, (k - 1) as nat).contains(v) {
        lemma_first_within(edges, seeds, v, (k - 1) as nat)
    } else {
        k
    }
}

/// A breadth-first search lists exactly the nodes that routes of at most `hops` edges lead
/// to, the start among them, in ascending order.
pub proof fn lemma_bfs_lists_routes(
    s: Store,
    start: NodeId,
    hops: nat,
    out: Seq<NodeId>,
    id: NodeId,
)
    requires
        s.wf(),
        node_list(s@).contains(start),
        lists(
            node_list(s@),
            within(edge_list(s@), set![dense_of(node_list(s@), start)], hops),
            out,
        ),
    ensures
        out.contains(id) <==> within_hops(s@, start, id, hops),
        ascending(out),
        out.contains(start),
{
    let ids = node_list(s@);
    lemma_store_lists(s);
    let alone = seq![start];
    assert(s@.nodes.dom().contains(start));
    assert(route(s@, start, start, alone));
    assert(within_hops(s@, start, start, hops));
    lemma_within_is_route(s, start, dense_of(ids, start), hops);
    if ids.contains(id) {
        let v = ids.index_of(id);
        lemma_within_is_route(s, start, v, hops);
    } else {
        if out.contains(id) {
            let i = out.index_of(id);
            assert(ids.contains(out[i]));
        }
        if within_hops(s@, start, id, hops) {
            let p = choose|p: Seq<NodeId>| #[trigger] route(s@, start, id, p) && p.len() <= hops + 1;
            assert(s@.nodes.dom().contains(p[p.len() - 1]));
        }
    }
}

/// A depth-first search lists the start first, and each node that a route of at most
/// `hops` edges leads to once.
pub proof fn lemma_dfs_lists_routes(s: Store, start: NodeId, hops: nat, id: NodeId)
    requires
        s.wf(),
        node_list(s@).contains(start),
    ensures
        ({
            let ids = node_list(s@);
            let out = ids_of(
                ids,
                visit(edge_list(s@), no_visit(), dense_of(ids, start), 0, hops).order,
            );
            &&& out.len() > 0 && out[0] == start
            &&& out.no_duplicates()
            &&& out.contains(id) <==> within_hops(s@, start, id, hops)
        }),
{
    let (ids, edges) = (node_list(s@), edge_list(s@));
    let d = dense_of(ids, start);
    lemma_store_lists(s);
    lemma_dfs_reach(edges, d, hops);
    let order = visit(edges, no_visit(), d, 0, hops).order;
    let out = ids_of(ids, order);
    assert forall|i: int| 0 <= i < edges.len() implies 0 <= (#[trigger] edges[i]).dst
        < ids.len() by {
        assert(is_edge(s@.edges, ids, edges[i]));
    }
    lemma_within_range(edges, set![d], hops, ids.len() as int);
    assert forall|i: int| 0 <= i < order.len() implies 0 <= #[trigger] order[i] < ids.len() by {
        assert(order.contains(order[i]));
    }
    assert forall|i: int, j: int| 0 <= i < out.len() && 0 <= j < out.len() && i != j implies out[i]
        != out[j] by {
        assert(order[i] != order[j]);
        lemma_place(ids, order[i]);
        lemma_place(ids, order[j]);
    }
    if out.contains(id) {
        let i = out.index_of(id);
        assert(order.contains(order[i]));
        lemma_within_is_route(s, start, order[i], hops);
    }
    if within_hops(s@, start, id, hops) {
        let p = choose|p: Seq<NodeId>| #[trigger] route(s@, start, id, p) && p.len() <= hops + 1;
        assert(s@.nodes.dom().contains(p[p.len() - 1]));
        let v = ids.index_of(id);
        assert(ids.contains(id));
        lemma_within_is_route(s, start, v, hops);
        assert(order.contains(v));
        let i = order.index_of(v);
        assert(out[i] == id);
    }
}

/// A node can be reached exactly where a route leads to it, and a traced path is a route
/// that no other is shorter than.
pub proof fn lemma_shortest_path_is_shortest_route(s: Store, src: NodeId, dst: NodeId, q: Seq<int>)
    requires
        s.wf(),
        node_list(s@).contains(src),
        node_list(s@).contains(dst),
    ensures
        ({
            let ids = node_list(s@);
            let (a, b) = (dense_of(ids, src), dense_of(ids, dst));
            &&& reachable(edge_list(s@), set![a], b) <==> exists|p: Seq<NodeId>|
                route(s@, src, dst, p)
            &&& traced(edge_list(s@), a, b, q) ==> route(s@, src, dst, ids_of(ids, q)) && forall|
                p: Seq<NodeId>,
            | #[trigger]
                route(s@, src, dst, p) ==> q.len() <= p.len()
        }),
{
    let (ids, edges) = (node_list(s@), edge_list(s@));
    let (a, b) = (dense_of(ids, src), dense_of(ids, dst));
    if reachable(edges, set![a], b) {
        let k = choose|k: nat| #[trigger] within(edges, set![a], k).contains(b);
        lemma_within_is_route(s, src, b, k);
    }
    if exists|p: Seq<NodeId>| route(s@, src, dst, p) {
        let p = choose|p: Seq<NodeId>| route(s@, src, dst, p);
        lemma_within_is_route(s, src, b, p.len());
        assert(within(edges, set![a], p.len()).contains(b));
    }
    if traced(edges, a, b, q) {
        lemma_walk_is_route(s, q);
        assert forall|p: Seq<NodeId>| #[trigger] route(s@, src, dst, p) implies q.len()
            <= p.len() by {
            lemma_route_is_walk(s, p);
            assert(walk_between(edges, a, b, places(ids, p)));
        }
    }
}

/// All shortest paths are the routes that no other is shorter than, each once.
pub proof fn lemma_shortest_paths_are_shortest_routes(
    s: Store,
    src: NodeId,
    dst: NodeId,
    l: nat,
    p: Seq<NodeId>,
)
    requires
        s.wf(),
        node_list(s@).contains(src),
        node_list(s@).contains(dst),
        at_level(
            edge_list(s@),
            set![dense_of(node_list(s@), src)],
            dense_of(node_list(s@), dst),
            l,
        ),
    ensures
        ({
            let ids = node_list(s@);
            let (a, b) = (dense_of(ids, src), dense_of(ids, dst));
            let out = walks_to(ids, edge_list(s@), a, b, l).map_values(
                |q: Seq<int>| ids_of(ids, q),
            );
            &&& out.no_duplicates()
            &&& out.contains(p) <==> route(s@, src, dst, p) && forall|r: Seq<NodeId>| #[trigger]
                route(s@, src, dst, r) ==> p.len() <= r.len()
        }),
{
    let (ids, edges) = (node_list(s@), edge_list(s@));
    let (a, b) = (dense_of(ids, src), dense_of(ids, dst));
    let list = walks_to(ids, edges, a, b, l);
    let out = list.map_values(|q: Seq<int>| ids_of(ids, q));
    lemma_store_lists(s);
    lemma_walks_to(ids, edges, a, b, l);
    let some = lemma_level_walk(edges, a, b, l);
    lemma_walk_is_route(s, some);
    assert forall|r: Seq<NodeId>| #[trigger] route(s@, src, dst, r) implies l + 1 <= r.len() by {
        if r.len() <= l {
            assert(within_hops(s@, src, dst, (r.len() - 1) as nat));
            lemma_within_is_route(s, src, b, (r.len() - 1) as nat);
            lemma_within_mono(edges, set![a], (r.len() - 1) as nat, (l - 1) as nat);
        }
    }
    assert forall|i: int| 0 <= i < list.len() implies walk_between(edges, a, b, #[trigger] list[i])
        && list[i].len() == l + 1 && inside(list[i], ids.len()) by {
        assert(list.contains(list[i]));
        lemma_inside(s, list[i]);
    }
    assert forall|i: int, j: int| 0 <= i < out.len() && 0 <= j < out.len() && i != j implies out[i]
        != out[j] by {
        assert(list[i] != list[j]);
        if out[i] == out[j] {
            lemma_ids_injective(ids, list[i], list[j]);
        }
    }
    if out.contains(p) {
        let i = out.index_of(p);
        lemma_walk_is_route(s, list[i]);
    }
    if route(s@, src, dst, p) && forall|r: Seq<NodeId>| #[trigger]
        route(s@, src, dst, r) ==> p.len() <= r.len() {
        lemma_route_is_walk(s, p);
        let q = places(ids, p);
        assert(p.len() <= ids_of(ids, some).len());
        assert(walk_between(edges, a, b, q));
        assert(list.contains(q));
        let i = list.index_of(q);
        assert(out[i] == p);
    }
}

proof fn lemma_ids_injective(ids: Seq<NodeId>, p: Seq<int>, q: Seq<int>)
    requires
        ascending(ids),
        inside(p, ids.len()),
        inside(q, ids.len()),
        ids_of(ids, p) == ids_of(ids, q),
    ensures
        p == q,
{
    assert(ids_of(ids, p).len() == p.len() && ids_of(ids, q).len() == q.len());
    assert forall|i: int| 0 <= i < p.len() implies p[i] == q[i] by {
        assert(ids_of(ids, p)[i] == ids[p[i]] && ids_of(ids, q)[i] == ids[q[i]]);
        lemma_place(ids, p[i]);
        lemma_place(ids, q[i]);
    }
    assert(p =~= q);
}

/// All paths are the routes that visit no node twice; the longest path is one that none of
/// them is longer than.
pub proof fn lemma_paths_are_simple_routes(s: Store, src: NodeId, dst: NodeId, p: Seq<NodeId>)
    requires
        s.wf(),
        node_list(s@).contains(src),
        node_list(s@).contains(dst),
    ensures
        ({
            let ids = node_list(s@);
            let found = extensions(
                edge_list(s@),
                seq![dense_of(ids, src)],
                dense_of(ids, dst),
                (ids.len() - 1) as nat,
            );
            let longest = ids_option(ids, longer(None, found));
            &&& found.map_values(|q: Seq<int>| ids_of(ids, q)).contains(p) <==> route(
                s@,
                src,
                dst,
                p,
            ) && p.no_duplicates()
            &&& longest matches Some(q) ==> route(s@, src, dst, q) && q.no_duplicates()
            &&& route(s@, src, dst, p) && p.no_duplicates() ==> (longest matches Some(q) && p.len()
                <= q.len())
        }),
{
    let (ids, edges) = (node_list(s@), edge_list(s@));
    let (a, b) = (dense_of(ids, src), dense_of(ids, dst));
    let found = extensions(edges, seq![a], b, (ids.len() - 1) as nat);
    let out = found.map_values(|q: Seq<int>| ids_of(ids, q));
    lemma_store_lists(s);
    assert forall|i: int| 0 <= i < edges.len() implies 0 <= (#[trigger] edges[i]).dst
        < ids.len() by {
        assert(is_edge(s@.edges, ids, edges[i]));
    }
    lemma_simple_paths(edges, a, b, ids.len());
    lemma_longer(found);
    if out.contains(p) {
        let i = out.index_of(p);
        assert(found.contains(found[i]));
        lemma_simple_route(s, src, dst, found[i]);
    }
    if route(s@, src, dst, p) && p.no_duplicates() {
        let q = places(ids, p);
        lemma_route_is_walk(s, p);
        assert(q.no_duplicates()) by {
            assert forall|i: int, j: int| 0 <= i < q.len() && 0 <= j < q.len() && i != j implies q[i]
                != q[j] by {
                assert(ids_of(ids, q)[i] == ids[q[i]] && ids_of(ids, q)[j] == ids[q[j]]);
                assert(p[i] != p[j]);
            }
        }
        assert(simple_path(edges, a, b, q));
        assert(found.contains(q));
        let i = found.index_of(q);
        assert(out[i] == p);
        assert(found[i].len() == p.len());
    }
    if longer(None, found) is Some {
        let q = longer(None, found)->0;
        assert(found.contains(q));
        lemma_simple_route(s, src, dst, q);
    }
}

proof fn lemma_simple_route(s: Store, src: NodeId, dst: NodeId, q: Seq<int>)
    requires
        s.wf(),
        node_list(s@).contains(src),
        node_list(s@).contains(dst),
        simple_path(
            edge_list(s@),
            dense_of(node_list(s@), src),
            dense_of(node_list(s@), dst),
            q,
        ),
    ensures
        route(s@, src, dst, ids_of(node_list(s@), q)),
        ids_of(node_list(s@), q).no_duplicates(),
{
    let ids = node_list(s@);
    let p = ids_of(ids, q);
    lemma_store_lists(s);
    lemma_walk_is_route(s, q);
    lemma_inside(s, q);
    assert forall|i: int, j: int| 0 <= i < p.len() && 0 <= j < p.len() && i != j implies p[i]
        != p[j] by {
        assert(q[i] != q[j]);
        assert(0 <= q[i] < ids.len() && 0 <= q[j] < ids.len());
        lemma_place(ids, q[i]);
        lemma_place(ids, q[j]);
    }
}

/// Edges that all lead from a lower rank to a higher one close no cycle.
pub proof fn lemma_ranked_edges_close_no_cycle(s: Store, rank: spec_fn(NodeId) -> int)
    requires
        s.wf(),
        forall|e: EdgeId| #[trigger]
            s@.edges.dom().contains(e) ==> rank(s@.edges[e].src) < rank(s@.edges[e].dst),
    ensures
        !has_cycle(edge_list(s@)),
{
    let (ids, edges) = (node_list(s@), edge_list(s@));
    lemma_store_lists(s);
    if has_cycle(edges) {
        let p = choose|p: Seq<int>| is_cycle(edges, p);
        assert forall|u: int, v: int| #[trigger] arc(edges, u, v) implies rank(ids[u]) < rank(
            ids[v],
        ) by {
            let k = choose|k: int|
                0 <= k < edges.len() && (#[trigger] edges[k]).src == u && edges[k].dst == v;
            assert(is_edge(s@.edges, ids, edges[k]));
            assert(s@.edges.dom().contains(edges[k].id));
        }
        lemma_rank_rises(edges, ids, rank, p, p.len() - 1);
    }
}

proof fn lemma_rank_rises(
    edges: Seq<Edge>,
    ids: Seq<NodeId>,
    rank: spec_fn(NodeId) -> int,
    p: Seq<int>,
    i: int,
)
    requires
        is_walk(edges, p),
        0 < i < p.len(),
        forall|u: int, v: int| #[trigger] arc(edges, u, v) ==> rank(ids[u]) < rank(ids[v]),
    ensures
        rank(ids[p[0]]) < rank(ids[p[i]]),
    decreases i,
{
    assert(arc(edges, p[i - 1], p[i]));
    if i > 1 {
        lemma_rank_rises(edges, ids, rank, p, i - 1);
    }
}

/// Whether a walk over `k` edges ends at a node.
spec fn ends_walk(edges: Seq<Edge>, v: int, k: int) -> bool {
    exists|p: Seq<int>| #[trigger] is_walk(edges, p) && p.len() == k + 1 && p.last() == v
}

/// The most edges, up to `k`, of a walk that ends at a node.
spec fn depth(edges: Seq<Edge>, v: int, k: int) -> int
    decreases k,
{
    if k <= 0 || ends_walk(edges, v, k) {
        k
    } else {
        depth(edges, v, k - 1)
    }
}

proof fn lemma_depth(edges: Seq<Edge>, v: int, k: int, j: int)
    requires
        0 <= j <= k,
        ends_walk(edges, v, j),
    ensures
        j <= depth(edges, v, k) <= k,
        ends_walk(edges, v, depth(edges, v, k)),
    decreases k,
{
    if k > 0 && !ends_walk(edges, v, k) {
        lemma_depth(edges, v, k - 1, j);
    }
}

/// Without a cycle no walk comes to a node twice.
proof fn lemma_walk_is_simple(edges: Seq<Edge>, q: Seq<int>)
    requires
        !has_cycle(edges),
        is_walk(edges, q),
    ensures
        q.no_duplicates(),
{
    assert forall|i: int, j: int| 0 <= i < j < q.len() implies q[i] != q[j] by {
        if q[i] == q[j] {
            let r = q.subrange(i, j + 1);
            assert forall|x: int| 0 <= x < r.len() - 1 implies arc(
                edges,
                #[trigger] r[x],
                r[x + 1],
            ) by {
                assert(r[x] == q[i + x] && r[x + 1] == q[i + x + 1]);
                assert(arc(edges, q[i + x], q[i + x + 1]));
            }
            assert(is_cycle(edges, r));
        }
    }
}

proof fn lemma_depth_rises(edges: Seq<Edge>, n: nat, u: int, v: int)
    requires
        !has_cycle(edges),
        forall|k: int|
            0 <= k < edges.len() ==> 0 <= (#[trigger] edges[k]).src < n && 0 <= edges[k].dst < n,
        arc(edges, u, v),
    ensures
        depth(edges, u, n as int) < depth(edges, v, n as int),
{
    let one = seq![u];
    assert(is_walk(edges, one) && one.last() == u);
    assert(ends_walk(edges, u, 0));
    lemma_depth(edges, u, n as int, 0);
    let m = depth(edges, u, n as int);
    let p = choose|p: Seq<int>| #[trigger]
        is_walk(edges, p) && p.len() == m + 1 && p.last() == u;
    let q = p.push(v);
    lemma_walk_more(edges, p, v);
    lemma_walk_is_simple(edges, q);
    assert forall|i: int| 0 <= i < q.len() implies 0 <= #[trigger] q[i] < n by {
        let j = if i + 1 < q.len() {
            i
        } else {
            i - 1
        };
        let (a, b) = (q[j], q[j + 1]);
        assert(arc(edges, a, b));
        let h = choose|h: int|
            0 <= h < edges.len() && (#[trigger] edges[h]).src == a && edges[h].dst == b;
        assert(0 <= edges[h].src < n && 0 <= edges[h].dst < n);
    }
    lemma_distinct_bound(q, n);
    assert(ends_walk(edges, v, m + 1));
    lemma_depth(edges, v, n as int, m + 1);
}

/// Without a cycle the nodes can be ranked so that every edge leads from a lower rank to a
/// higher one.
pub proof fn lemma_no_cycle_is_ranked(s: Store) -> (rank: spec_fn(NodeId) -> int)
    requires
        s.wf(),
        !has_cycle(edge_list(s@)),
    ensures
        forall|e: EdgeId| #[trigger]
            s@.edges.dom().contains(e) ==> rank(s@.edges[e].src) < rank(s@.edges[e].dst),
{
    let (ids, edges) = (node_list(s@), edge_list(s@));
    lemma_store_lists(s);
    let rank = |id: NodeId| depth(edges, ids.index_of(id), ids.len() as int);
    assert forall|k: int| 0 <= k < edges.len() implies 0 <= (#[trigger] edges[k]).src < ids.len()
        && 0 <= edges[k].dst < ids.len() by {
        assert(is_edge(s@.edges, ids, edges[k]));
    }
    assert forall|e: EdgeId| #[trigger] s@.edges.dom().contains(e) implies rank(s@.edges[e].src)
        < rank(s@.edges[e].dst) by {
        let k = choose|k: int| 0 <= k < edges.len() && (#[trigger] edges[k]).id == e;
        assert(is_edge(s@.edges, ids, edges[k]));
        let (u, v) = (edges[k].src, edges[k].dst);
        lemma_place(ids, u);
        lemma_place(ids, v);
        assert(arc(edges, u, v));
        lemma_depth_rises(edges, ids.len(), u, v);
    }
    rank
}

/// A route that no other between its ends is shorter than, with `from` as its last node but
/// one.
pub open spec fn shortest_through(
    c: Content,
    src: NodeId,
    from: NodeId,
    to: NodeId,
    p: Seq<NodeId>,
) -> bool {
    &&& route(c, src, to, p)
    &&& p.len() >= 2 && p[p.len() - 2] == from
    &&& forall|q: Seq<NodeId>| #[trigger] route(c, src, to, q) ==> p.len() <= q.len()
}

/// A shortest path to a node can come from another exactly where that one is the last but
/// one of a shortest route.
pub proof fn lemma_steps_are_shortest_routes(s: Store, src: NodeId, v: int, w: int, l: nat)
    requires
        s.wf(),
        node_list(s@).contains(src),
        0 <= v < node_list(s@).len(),
        0 <= w < node_list(s@).len(),
        l > 0,
        at_level(edge_list(s@), set![dense_of(node_list(s@), src)], w, l),
    ensures
        feeds(edge_list(s@), dense_of(node_list(s@), src), l, v, w) <==> exists|p: Seq<NodeId>|
            #[trigger] shortest_through(s@, src, node_list(s@)[v], node_list(s@)[w], p),
{
    let (ids, edges) = (node_list(s@), edge_list(s@));
    let a = dense_of(ids, src);
    let to = ids[w];
    lemma_shortest_length(s, src, w, l);
    if feeds(edges, a, l, v, w) {
        let head = lemma_level_walk(edges, a, v, (l - 1) as nat);
        let q = head.push(w);
        lemma_walk_more(edges, head, w);
        lemma_walk_is_route(s, q);
        let p = ids_of(ids, q);
        assert(shortest_through(s@, src, ids[v], to, p));
    }
    if exists|p: Seq<NodeId>| #[trigger] shortest_through(s@, src, ids[v], to, p) {
        let p = choose|p: Seq<NodeId>| #[trigger] shortest_through(s@, src, ids[v], to, p);
        lemma_came_from(s, src, v, w, l, p);
    }
}

/// A route to a node `l` steps away has at least `l` edges, and one has no more.
proof fn lemma_shortest_length(s: Store, src: NodeId, w: int, l: nat)
    requires
        s.wf(),
        node_list(s@).contains(src),
        0 <= w < node_list(s@).len(),
        at_level(edge_list(s@), set![dense_of(node_list(s@), src)], w, l),
    ensures
        forall|q: Seq<NodeId>| #[trigger]
            route(s@, src, node_list(s@)[w], q) ==> l + 1 <= q.len(),
        exists|q: Seq<NodeId>| #[trigger]
            route(s@, src, node_list(s@)[w], q) && q.len() == l + 1,
{
    let (ids, edges) = (node_list(s@), edge_list(s@));
    let a = dense_of(ids, src);
    let to = ids[w];
    let some = lemma_level_walk(edges, a, w, l);
    lemma_walk_is_route(s, some);
    assert(route(s@, src, to, ids_of(ids, some)));
    assert forall|q: Seq<NodeId>| #[trigger] route(s@, src, to, q) implies l + 1 <= q.len() by {
        if q.len() <= l {
            assert(within_hops(s@, src, to, (q.len() - 1) as nat));
            lemma_within_is_route(s, src, w, (q.len() - 1) as nat);
            lemma_within_mono(edges, set![a], (q.len() - 1) as nat, (l - 1) as nat);
        }
    }
}

proof fn lemma_walk_more(edges: Seq<Edge>, p: Seq<int>, w: int)
    requires
        is_walk(edges, p),
        arc(edges, p.last(), w),
    ensures
        is_walk(edges, p.push(w)),
{
    let q = p.push(w);
    assert forall|i: int| 0 <= i < q.len() - 1 implies arc(edges, #[trigger] q[i], q[i + 1]) by {
        if i < p.len() - 1 {
            assert(arc(edges, p[i], p[i + 1]));
        }
    }
}

proof fn lemma_came_from(s: Store, src: NodeId, v: int, w: int, l: nat, p: Seq<NodeId>)
    requires
        s.wf(),
        node_list(s@).contains(src),
        0 <= v < node_list(s@).len(),
        0 <= w < node_list(s@).len(),
        l > 0,
        at_level(edge_list(s@), set![dense_of(node_list(s@), src)], w, l),
        shortest_through(s@, src, node_list(s@)[v], node_list(s@)[w], p),
        p.len() == l + 1,
    ensures
        feeds(edge_list(s@), dense_of(node_list(s@), src), l, v, w),
{
    let (ids, edges) = (node_list(s@), edge_list(s@));
    let a = dense_of(ids, src);
    lemma_store_lists(s);
    lemma_place(ids, w);
    lemma_place(ids, v);
    lemma_route_is_walk(s, p);
    let q = places(ids, p);
    let i = p.len() - 2;
    assert(q[i] == v && q[i + 1] == w);
    assert(arc(edges, q[i], q[i + 1]));
    let head = q.drop_last();
    assert forall|j: int| 0 <= j < head.len() - 1 implies arc(
        edges,
        #[trigger] head[j],
        head[j + 1],
    ) by {
        assert(arc(edges, q[j], q[j + 1]));
    }
    lemma_walk_within(edges, head);
    assert(head[0] == a && head.last() == v);
    if l > 1 && within(edges, set![a], (l - 2) as nat).contains(v) {
        lemma_within_step(edges, set![a], v, w, (l - 2) as nat);
    }
}

} // verus!
