//! What the scores of nodes mean: degrees, labels that spread, and distances.

use vstd::prelude::*;

use crate::analytics::{
    at_distance, degree, distance_by, distances_counted, from_label, near, next_label, reached_by,
    rounds, to_label, votes, wins,
};
use crate::csr::{ascending, entering, leaving, Edge};
use crate::graph_analytics::degrees_of;
use crate::image::{edge_list, is_edge, lemma_store_lists, node_list};
use crate::neighborhoods::{around, around_both, around_count, linked_pairs};
use crate::schema::{DegreeDirection, EdgeId, NodeId};
use crate::store::{Content, Store};
use crate::sums::{
    bit, count, lemma_count_bound, lemma_sum_ext, lemma_sum_filter, lemma_sum_le, lemma_sum_plus,
    lemma_sum_scale, lemma_sum_zero, sum, upto,
};
use crate::traversal::{arc, at_level, lemma_level_unique, reachable};

verus! {

/// An edge leads from one node to another.
pub open spec fn points(c: Content, from: NodeId, to: NodeId) -> bool {
    exists|e: EdgeId| #[trigger]
        c.edges.dom().contains(e) && c.edges[e].src == from && c.edges[e].dst == to
}

/// The nodes that edges lead to from a node.
pub open spec fn pointed_at(c: Content, id: NodeId) -> Set<NodeId> {
    Set::new(|v: NodeId| points(c, id, v))
}

/// The nodes from which edges lead to a node.
pub open spec fn pointing_at(c: Content, id: NodeId) -> Set<NodeId> {
    Set::new(|v: NodeId| points(c, v, id))
}

/// The kernels see an edge between two positions exactly where the records hold one
/// between the nodes there.
pub proof fn lemma_arcs_are_edges(s: Store, u: int, v: int)
    requires
        s.wf(),
        0 <= u < node_list(s@).len(),
        0 <= v < node_list(s@).len(),
    ensures
        arc(edge_list(s@), u, v) <==> points(s@, node_list(s@)[u], node_list(s@)[v]),
{
    let c = s@;
    let ids = node_list(c);
    let edges = edge_list(c);
    lemma_store_lists(s);
    if arc(edges, u, v) {
        let k = choose|k: int|
            0 <= k < edges.len() && (#[trigger] edges[k]).src == u && edges[k].dst == v;
        assert(is_edge(c.edges, ids, edges[k]));
        assert(c.edges.dom().contains(edges[k].id));
    }
    if points(c, ids[u], ids[v]) {
        let e = choose|e: EdgeId| #[trigger]
            c.edges.dom().contains(e) && c.edges[e].src == ids[u] && c.edges[e].dst == ids[v];
        let k = choose|k: int| 0 <= k < edges.len() && (#[trigger] edges[k]).id == e;
        assert(is_edge(c.edges, ids, edges[k]));
        lemma_position_unique(ids, edges[k].src, u);
        lemma_position_unique(ids, edges[k].dst, v);
    }
}

proof fn lemma_position_unique(ids: Seq<NodeId>, i: int, j: int)
    requires
        ascending(ids),
        0 <= i < ids.len(),
        0 <= j < ids.len(),
        ids[i] == ids[j],
    ensures
        i == j,
{
    if i < j {
        assert(ids[i] < ids[j]);
    } else if j < i {
        assert(ids[j] < ids[i]);
    }
}

/// The nodes at the first `k` positions that satisfy `p`.
pub(crate) open spec fn chosen(ids: Seq<NodeId>, p: spec_fn(int) -> bool, k: int) -> Set<NodeId> {
    Set::new(|v: NodeId| exists|i: int| 0 <= i < k && p(i) && #[trigger] ids[i] == v)
}

/// Counting positions is counting the nodes there.
pub(crate) proof fn lemma_count_is_size(ids: Seq<NodeId>, p: spec_fn(int) -> bool, k: nat)
    requires
        ascending(ids),
        k <= ids.len(),
    ensures
        chosen(ids, p, k as int).finite(),
        chosen(ids, p, k as int).len() == count(upto(k), p),
    decreases k,
{
    let now = chosen(ids, p, k as int);
    if k == 0 {
        assert(now =~= Set::empty());
    } else {
        let m = (k - 1) as nat;
        let before = chosen(ids, p, m as int);
        lemma_count_is_size(ids, p, m);
        assert(upto(k).drop_last() =~= upto(m));
        assert(upto(k).last() == m);
        let x = ids[m as int];
        assert(!before.contains(x)) by {
            if before.contains(x) {
                let i = choose|i: int| 0 <= i < m && p(i) && #[trigger] ids[i] == x;
                assert(ids[i] < ids[m as int]);
            }
        }
        assert forall|v: NodeId| #[trigger] now.contains(v) <==> before.contains(v) || (p(m as int)
            && v == x) by {
            if now.contains(v) {
                let i = choose|i: int| 0 <= i < k && p(i) && #[trigger] ids[i] == v;
                if i < m {
                    assert(ids[i] == v);
                }
            }
            if before.contains(v) {
                let i = choose|i: int| 0 <= i < m && p(i) && #[trigger] ids[i] == v;
                assert(ids[i] == v);
            }
            if p(m as int) && v == x {
                assert(ids[m as int] == v);
            }
        }
        if p(m as int) {
            assert(now =~= before.insert(x));
        } else {
            assert(now =~= before);
        }
    }
}

/// The outgoing degree of a node is the number of distinct nodes that its edges lead to,
/// and its incoming degree the number of distinct nodes whose edges lead to it; `Both`
/// is the two together.
pub proof fn lemma_degrees_count_neighbors(s: Store, d: int)
    requires
        s.wf(),
        0 <= d < node_list(s@).len(),
        node_list(s@).len() < u32::MAX,
    ensures
        pointed_at(s@, node_list(s@)[d]).finite(),
        pointing_at(s@, node_list(s@)[d]).finite(),
        degrees_of(s@, DegreeDirection::Out)[d] == pointed_at(s@, node_list(s@)[d]).len(),
        degrees_of(s@, DegreeDirection::In)[d] == pointing_at(s@, node_list(s@)[d]).len(),
        degrees_of(s@, DegreeDirection::Both)[d] == pointed_at(s@, node_list(s@)[d]).len()
            + pointing_at(s@, node_list(s@)[d]).len(),
{
    let c = s@;
    let ids = node_list(c);
    let n = ids.len();
    let edges = edge_list(c);
    lemma_store_lists(s);
    let p = near(edges, true, false, true, d);
    let q = near(edges, false, true, true, d);
    lemma_count_is_size(ids, p, n);
    lemma_count_is_size(ids, q, n);
    lemma_count_bound(upto(n), p);
    lemma_count_bound(upto(n), q);
    assert forall|v: NodeId| #[trigger] points(c, ids[d], v) || points(c, v, ids[d]) implies
        ids.contains(v) by {
        let e = choose|e: EdgeId| #[trigger]
            c.edges.dom().contains(e) && ((c.edges[e].src == ids[d] && c.edges[e].dst == v) || (
            c.edges[e].src == v && c.edges[e].dst == ids[d]));
        let k = choose|k: int| 0 <= k < edges.len() && (#[trigger] edges[k]).id == e;
        assert(is_edge(c.edges, ids, edges[k]));
        assert(ids[edges[k].src] == c.edges[e].src && ids[edges[k].dst] == c.edges[e].dst);
    }
    assert(chosen(ids, p, n as int) =~= pointed_at(c, ids[d])) by {
        assert forall|v: NodeId| chosen(ids, p, n as int).contains(v) <==> #[trigger] points(
            c,
            ids[d],
            v,
        ) by {
            if chosen(ids, p, n as int).contains(v) {
                let i = choose|i: int| 0 <= i < n && p(i) && #[trigger] ids[i] == v;
                lemma_arcs_are_edges(s, d, i);
            }
            if points(c, ids[d], v) {
                assert(ids.contains(v));
                let i = ids.index_of(v);
                lemma_arcs_are_edges(s, d, i);
                assert(p(i) && ids[i] == v);
            }
        }
    }
    assert(chosen(ids, q, n as int) =~= pointing_at(c, ids[d])) by {
        assert forall|v: NodeId| chosen(ids, q, n as int).contains(v) <==> #[trigger] points(
            c,
            v,
            ids[d],
        ) by {
            if chosen(ids, q, n as int).contains(v) {
                let i = choose|i: int| 0 <= i < n && q(i) && #[trigger] ids[i] == v;
                lemma_arcs_are_edges(s, i, d);
            }
            if points(c, v, ids[d]) {
                assert(points(c, ids[d], v) || points(c, v, ids[d]));
                assert(ids.contains(v)) by {
                    let e = choose|e: EdgeId| #[trigger]
                        c.edges.dom().contains(e) && c.edges[e].src == v && c.edges[e].dst
                            == ids[d];
                    let k = choose|k: int| 0 <= k < edges.len() && (#[trigger] edges[k]).id == e;
                    assert(is_edge(c.edges, ids, edges[k]));
                    assert(ids[edges[k].src] == v);
                }
                let i = ids.index_of(v);
                lemma_arcs_are_edges(s, i, d);
                assert(q(i) && ids[i] == v);
            }
        }
    }
    assert(degree(edges, n, DegreeDirection::Both, d) <= u64::MAX);
}

/// A node has an outgoing degree of zero exactly where no edge leaves it, and an incoming
/// degree of zero exactly where none enters it.
pub proof fn lemma_degree_zero(s: Store, d: int)
    requires
        s.wf(),
        0 <= d < node_list(s@).len(),
        node_list(s@).len() < u32::MAX,
    ensures
        degrees_of(s@, DegreeDirection::Out)[d] == 0 <==> forall|e: EdgeId| #[trigger]
            s@.edges.dom().contains(e) ==> s@.edges[e].src != node_list(s@)[d],
        degrees_of(s@, DegreeDirection::In)[d] == 0 <==> forall|e: EdgeId| #[trigger]
            s@.edges.dom().contains(e) ==> s@.edges[e].dst != node_list(s@)[d],
{
    let c = s@;
    let id = node_list(c)[d];
    lemma_degrees_count_neighbors(s, d);
    let (out, ins) = (pointed_at(c, id), pointing_at(c, id));
    if out.len() == 0 {
        assert(out =~= Set::empty());
        assert forall|e: EdgeId| #[trigger] c.edges.dom().contains(e) implies c.edges[e].src
            != id by {
            if c.edges[e].src == id {
                assert(points(c, id, c.edges[e].dst));
                assert(out.contains(c.edges[e].dst));
            }
        }
    } else {
        let v = out.choose();
        assert(out.contains(v)) by {
            if forall|x: NodeId| !out.contains(x) {
                assert(out =~= Set::empty());
            }
        }
        assert(points(c, id, v));
    }
    if ins.len() == 0 {
        assert(ins =~= Set::empty());
        assert forall|e: EdgeId| #[trigger] c.edges.dom().contains(e) implies c.edges[e].dst
            != id by {
            if c.edges[e].dst == id {
                assert(points(c, c.edges[e].src, id));
                assert(ins.contains(c.edges[e].src));
            }
        }
    } else {
        let v = ins.choose();
        assert(ins.contains(v)) by {
            if forall|x: NodeId| !ins.contains(x) {
                assert(ins =~= Set::empty());
            }
        }
        assert(points(c, v, id));
    }
}

/// The edges that leave `u` for a node with a label.
pub open spec fn goes_to(labels: Seq<u64>, u: int, m: u64) -> spec_fn(Edge) -> bool {
    |e: Edge| e.src == u && labels[e.dst] == m
}

/// The edges that come to `u` from a node with a label.
pub open spec fn comes_from(labels: Seq<u64>, u: int, m: u64) -> spec_fn(Edge) -> bool {
    |e: Edge| e.dst == u && labels[e.src] == m
}

/// How many edge ends at `u` have a node with the label `m` at the other end.
pub open spec fn ends_with(edges: Seq<Edge>, labels: Seq<u64>, u: int, m: u64) -> nat {
    count(edges, goes_to(labels, u, m)) + count(edges, comes_from(labels, u, m))
}

/// How many edge ends are at `u`.
pub open spec fn ends(edges: Seq<Edge>, u: int) -> nat {
    count(edges, |e: Edge| e.src == u) + count(edges, |e: Edge| e.dst == u)
}

proof fn lemma_votes(edges: Seq<Edge>, labels: Seq<u64>, u: int, m: u64)
    ensures
        votes(edges, labels, u, m) == ends_with(edges, labels, u, m),
{
    let (p, q) = (to_label(labels, m), from_label(labels, m));
    let (a, b) = (|e: Edge| bit(p(e)), |e: Edge| bit(q(e)));
    let (x, y) = (goes_to(labels, u, m), comes_from(labels, u, m));
    lemma_sum_filter(edges, leaving(u), a);
    lemma_sum_filter(edges, entering(u), b);
    lemma_sum_ext(
        edges,
        |e: Edge|
            if leaving(u)(e) {
                a(e)
            } else {
                0
            },
        |e: Edge| bit(x(e)),
    );
    lemma_sum_ext(
        edges,
        |e: Edge|
            if entering(u)(e) {
                b(e)
            } else {
                0
            },
        |e: Edge| bit(y(e)),
    );
}

/// Every edge joins two of `n` nodes.
pub open spec fn joins_nodes(edges: Seq<Edge>, n: nat) -> bool {
    forall|k: int|
        0 <= k < edges.len() ==> 0 <= (#[trigger] edges[k]).src < n && 0 <= edges[k].dst < n
}

/// `l` is the best of the first `k` labels of the list.
spec fn best_so_far(edges: Seq<Edge>, labels: Seq<u64>, u: int, l: u64, k: int) -> bool {
    forall|i: int|
        0 <= i < k ==> {
            let m = #[trigger] labels[i];
            votes(edges, labels, u, m) < votes(edges, labels, u, l) || (votes(edges, labels, u, m)
                == votes(edges, labels, u, l) && l <= m)
        }
}

proof fn lemma_best_so_far(edges: Seq<Edge>, labels: Seq<u64>, u: int, k: int) -> (l: u64)
    requires
        0 < k <= labels.len(),
    ensures
        best_so_far(edges, labels, u, l, k),
    decreases k,
{
    if k == 1 {
        labels[0]
    } else {
        let b = lemma_best_so_far(edges, labels, u, k - 1);
        let d = labels[k - 1];
        let (x, y) = (votes(edges, labels, u, b), votes(edges, labels, u, d));
        if y > x || (y == x && d < b) {
            d
        } else {
            b
        }
    }
}

/// A label that no node has is at no end.
proof fn lemma_unused_label(edges: Seq<Edge>, labels: Seq<u64>, u: int, m: u64)
    requires
        joins_nodes(edges, labels.len()),
        !labels.contains(m),
    ensures
        ends_with(edges, labels, u, m) == 0,
{
    let (x, y) = (goes_to(labels, u, m), comes_from(labels, u, m));
    assert forall|i: int| 0 <= i < edges.len() implies (|e: Edge| bit(x(e)))(#[trigger] edges[i])
        == 0 && (|e: Edge| bit(y(e)))(edges[i]) == 0 by {
        assert(labels.contains(labels[edges[i].dst]));
        assert(labels.contains(labels[edges[i].src]));
    }
    lemma_sum_zero(edges, |e: Edge| bit(x(e)));
    lemma_sum_zero(edges, |e: Edge| bit(y(e)));
}

/// An edge that satisfies a predicate is counted.
proof fn lemma_counts_one(edges: Seq<Edge>, p: spec_fn(Edge) -> bool, k: int)
    requires
        0 <= k < edges.len(),
        p(edges[k]),
    ensures
        count(edges, p) > 0,
    decreases edges.len(),
{
    if k < edges.len() - 1 {
        lemma_counts_one(edges.drop_last(), p, k);
    }
}

/// Where something is counted, there is an edge that is.
proof fn lemma_one_counted(edges: Seq<Edge>, p: spec_fn(Edge) -> bool) -> (k: int)
    requires
        count(edges, p) > 0,
    ensures
        0 <= k < edges.len(),
        p(edges[k]),
    decreases edges.len(),
{
    if p(edges.last()) {
        edges.len() - 1
    } else {
        lemma_one_counted(edges.drop_last(), p)
    }
}

/// Where a node has an edge, some label wins.
proof fn lemma_someone_wins(edges: Seq<Edge>, labels: Seq<u64>, u: int) -> (l: u64)
    requires
        joins_nodes(edges, labels.len()),
        ends(edges, u) > 0,
    ensures
        wins(edges, labels, u, l),
{
    let from = |e: Edge| e.src == u;
    let into = |e: Edge| e.dst == u;
    let seen = if count(edges, from) > 0 {
        let k = lemma_one_counted(edges, from);
        let m = labels[edges[k].dst];
        lemma_counts_one(edges, goes_to(labels, u, m), k);
        assert(labels.contains(m));
        m
    } else {
        let k = lemma_one_counted(edges, into);
        let m = labels[edges[k].src];
        lemma_counts_one(edges, comes_from(labels, u, m), k);
        assert(labels.contains(m));
        m
    };
    lemma_votes(edges, labels, u, seen);
    let l = lemma_best_so_far(edges, labels, u, labels.len() as int);
    let at = labels.index_of(seen);
    assert(labels[at] == seen);
    assert forall|m: u64| #[trigger]
        votes(edges, labels, u, m) < votes(edges, labels, u, l) || (votes(edges, labels, u, m)
            == votes(edges, labels, u, l) && l <= m) by {
        if labels.contains(m) {
            let i = labels.index_of(m);
            assert(labels[i] == m);
        } else {
            lemma_votes(edges, labels, u, m);
            lemma_unused_label(edges, labels, u, m);
        }
    }
    l
}

pub(crate) proof fn lemma_rows_are_ends(edges: Seq<Edge>, u: int)
    ensures
        edges.filter(leaving(u)).len() + edges.filter(entering(u)).len() == ends(edges, u),
{
    lemma_filter_counts(edges, leaving(u), |e: Edge| e.src == u);
    lemma_filter_counts(edges, entering(u), |e: Edge| e.dst == u);
}

proof fn lemma_filter_counts(
    edges: Seq<Edge>,
    p: spec_fn(Edge) -> bool,
    q: spec_fn(Edge) -> bool,
)
    requires
        forall|e: Edge| #[trigger] p(e) == q(e),
    ensures
        edges.filter(p).len() == count(edges, q),
    decreases edges.len(),
{
    reveal(Seq::filter);
    if edges.len() > 0 {
        lemma_filter_counts(edges.drop_last(), p, q);
        assert(p(edges.last()) == q(edges.last()));
    }
}

/// The ends with two labels are no more than the ends there are.
proof fn lemma_two_labels(edges: Seq<Edge>, labels: Seq<u64>, u: int, a: u64, b: u64)
    requires
        a != b,
    ensures
        ends_with(edges, labels, u, a) + ends_with(edges, labels, u, b) <= ends(edges, u),
{
    let (p, q) = (goes_to(labels, u, a), goes_to(labels, u, b));
    let (x, y) = (comes_from(labels, u, a), comes_from(labels, u, b));
    let from = |e: Edge| e.src == u;
    let into = |e: Edge| e.dst == u;
    let (f, g) = (|e: Edge| bit(p(e)), |e: Edge| bit(q(e)));
    let (h, i) = (|e: Edge| bit(x(e)), |e: Edge| bit(y(e)));
    lemma_sum_plus(edges, f, g);
    lemma_sum_plus(edges, h, i);
    lemma_sum_le(edges, |e: Edge| f(e) + g(e), |e: Edge| bit(from(e)));
    lemma_sum_le(edges, |e: Edge| h(e) + i(e), |e: Edge| bit(into(e)));
}

proof fn lemma_labels_len(edges: Seq<Edge>, labels: Seq<u64>, k: nat)
    ensures
        rounds(edges, labels, k).len() == labels.len(),
    decreases k,
{
    if k > 0 {
        lemma_labels_len(edges, labels, (k - 1) as nat);
    }
}

/// Before the first round every node has the label that it started with.
pub proof fn lemma_labels_start(edges: Seq<Edge>, ids: Seq<u64>)
    ensures
        rounds(edges, ids, 0) =~= ids,
{
}

/// One more round of label propagation: a node without edges keeps its label. Any other
/// takes the label at the other end of most of its edges, and of several such labels the
/// smallest; so it takes a label at more than half of them.
pub proof fn lemma_label_round(edges: Seq<Edge>, ids: Seq<u64>, k: nat, u: int)
    requires
        joins_nodes(edges, ids.len()),
        0 <= u < ids.len(),
    ensures
        ({
            let before = rounds(edges, ids, k);
            let taken = rounds(edges, ids, k + 1)[u];
            &&& before.len() == ids.len()
            &&& rounds(edges, ids, k + 1).len() == ids.len()
            &&& ends(edges, u) == 0 ==> taken == before[u]
            &&& ends(edges, u) > 0 ==> ends_with(edges, before, u, taken) > 0
            &&& ends(edges, u) > 0 ==> forall|m: u64| #[trigger]
                ends_with(edges, before, u, m) <= ends_with(edges, before, u, taken)
            &&& ends(edges, u) > 0 ==> forall|m: u64| #[trigger]
                ends_with(edges, before, u, m) == ends_with(edges, before, u, taken) ==> taken <= m
            &&& forall|m: u64|
                2 * #[trigger] ends_with(edges, before, u, m) > ends(edges, u) ==> taken == m
        }),
{
    let before = rounds(edges, ids, k);
    let after = rounds(edges, ids, k + 1);
    lemma_labels_len(edges, ids, k);
    lemma_labels_len(edges, ids, k + 1);
    let taken = after[u];
    assert(taken == next_label(edges, before, u));
    lemma_rows_are_ends(edges, u);
    if ends(edges, u) > 0 {
        let l = lemma_someone_wins(edges, before, u);
        assert(wins(edges, before, u, taken));
        lemma_votes(edges, before, u, taken);
        assert forall|m: u64|
            (#[trigger] ends_with(edges, before, u, m) <= ends_with(edges, before, u, taken)) && (
            ends_with(edges, before, u, m) == ends_with(edges, before, u, taken) ==> taken <= m) by {
            lemma_votes(edges, before, u, m);
            assert(votes(edges, before, u, m) == ends_with(edges, before, u, m));
        }
        assert forall|m: u64|
            2 * #[trigger] ends_with(edges, before, u, m) > ends(edges, u) implies taken == m by {
            if m != taken {
                lemma_two_labels(edges, before, u, m, taken);
                assert(ends_with(edges, before, u, m) <= ends_with(edges, before, u, taken));
            }
        }
    } else {
        assert forall|m: u64|
            2 * #[trigger] ends_with(edges, before, u, m) > ends(edges, u) implies taken == m by {
            if ends_with(edges, before, u, m) > 0 {
                if count(edges, goes_to(before, u, m)) > 0 {
                    let e = lemma_one_counted(edges, goes_to(before, u, m));
                    lemma_counts_one(edges, |e: Edge| e.src == u, e);
                } else {
                    let e = lemma_one_counted(edges, comes_from(before, u, m));
                    lemma_counts_one(edges, |e: Edge| e.dst == u, e);
                }
            }
        }
    }
}

/// `hops` gives every node that can be reached from `s` its distance.
pub open spec fn hop_counts(edges: Seq<Edge>, n: nat, s: int, hops: spec_fn(int) -> nat) -> bool {
    forall|v: int|
        0 <= v < n && #[trigger] reachable(edges, set![s], v) ==> at_level(
            edges,
            set![s],
            v,
            hops(v),
        )
}

/// The nodes other than `s` that can be reached from it.
pub open spec fn others_reached(edges: Seq<Edge>, s: int) -> spec_fn(int) -> bool {
    |v: int| v != s && reachable(edges, set![s], v)
}

/// The distance of each of them, and zero for any other node.
pub open spec fn hops_away(
    edges: Seq<Edge>,
    s: int,
    hops: spec_fn(int) -> nat,
) -> spec_fn(int) -> nat {
    |v: int|
        if others_reached(edges, s)(v) {
            hops(v)
        } else {
            0
        }
}

/// Those of them that are between one step and `k` steps away.
spec fn closer(edges: Seq<Edge>, s: int, hops: spec_fn(int) -> nat, k: int) -> spec_fn(int) -> bool {
    |v: int| others_reached(edges, s)(v) && hops(v) <= k
}

spec fn closer_hops(
    edges: Seq<Edge>,
    s: int,
    hops: spec_fn(int) -> nat,
    k: int,
) -> spec_fn(int) -> nat {
    |v: int|
        if closer(edges, s, hops, k)(v) {
            hops(v)
        } else {
            0
        }
}

proof fn lemma_source_level(edges: Seq<Edge>, s: int, v: int, l: nat)
    requires
        at_level(edges, set![s], v, l),
    ensures
        v == s <==> l == 0,
        reachable(edges, set![s], v),
{
    assert(at_level(edges, set![s], s, 0));
    if v == s {
        lemma_level_unique(edges, set![s], s, l, 0);
    }
}

proof fn lemma_totals_by_hops(
    edges: Seq<Edge>,
    n: nat,
    s: int,
    hops: spec_fn(int) -> nat,
    hist: Seq<u64>,
    k: int,
)
    requires
        hop_counts(edges, n, s, hops),
        distances_counted(edges, n, s, hist),
        0 <= k < hist.len(),
    ensures
        reached_by(hist, k) == count(upto(n), closer(edges, s, hops, k)),
        distance_by(hist, k) == sum(upto(n), closer_hops(edges, s, hops, k)),
    decreases k,
{
    let all = upto(n);
    let p = closer(edges, s, hops, k);
    if k == 0 {
        assert forall|i: int| 0 <= i < all.len() implies (|v: int| bit(p(v)))(#[trigger] all[i]) == 0
            && closer_hops(edges, s, hops, 0)(all[i]) == 0 by {
            let v = all[i];
            if p(v) {
                lemma_source_level(edges, s, v, hops(v));
            }
        }
        lemma_sum_zero(all, |v: int| bit(p(v)));
        lemma_sum_zero(all, closer_hops(edges, s, hops, 0));
    } else {
        lemma_totals_by_hops(edges, n, s, hops, hist, k - 1);
        let q = closer(edges, s, hops, k - 1);
        let r = at_distance(edges, s, k as nat);
        assert(count(all, r) == hist[k]);
        let (a, b) = (|v: int| bit(q(v)), |v: int| bit(r(v)));
        let (c, d) = (closer_hops(edges, s, hops, k - 1), |v: int| k as nat * bit(r(v)));
        assert forall|i: int| 0 <= i < all.len() implies (|v: int| a(v) + b(v))(#[trigger] all[i])
            == (|v: int| bit(p(v)))(all[i]) && (|v: int| c(v) + d(v))(all[i]) == closer_hops(
            edges,
            s,
            hops,
            k,
        )(all[i]) by {
            let v = all[i];
            if r(v) {
                lemma_source_level(edges, s, v, k as nat);
                lemma_level_unique(edges, set![s], v, k as nat, hops(v));
                assert(k as nat * 1 == k);
            } else {
                assert(k as nat * 0 == 0);
                if others_reached(edges, s)(v) {
                    assert(reachable(edges, set![s], v));
                    assert(hops(v) != k);
                }
            }
        }
        lemma_sum_plus(all, a, b);
        lemma_sum_ext(all, |v: int| a(v) + b(v), |v: int| bit(p(v)));
        lemma_sum_plus(all, c, d);
        lemma_sum_ext(all, |v: int| c(v) + d(v), closer_hops(edges, s, hops, k));
        lemma_sum_scale(all, k as nat, b);
        lemma_sum_ext(all, d, |v: int| k as nat * b(v));
    }
}

/// What is added up from the counts by distance: how many other nodes can be reached
/// from `s`, and, node by node, how far away they are.
pub proof fn lemma_reach_totals(
    edges: Seq<Edge>,
    n: nat,
    s: int,
    hops: spec_fn(int) -> nat,
    hist: Seq<u64>,
)
    requires
        hop_counts(edges, n, s, hops),
        distances_counted(edges, n, s, hist),
        0 <= s < n,
    ensures
        reached_by(hist, hist.len() - 1) == count(upto(n), others_reached(edges, s)),
        distance_by(hist, hist.len() - 1) == sum(upto(n), hops_away(edges, s, hops)),
        reached_by(hist, hist.len() - 1) <= distance_by(hist, hist.len() - 1),
        reached_by(hist, hist.len() - 1) == distance_by(hist, hist.len() - 1) <==> forall|v: int|
            0 <= v < n && v != s && #[trigger] reachable(edges, set![s], v) ==> hops(v) == 1,
{
    let all = upto(n);
    assert(all[s] == s);
    assert(at_level(edges, set![s], s, 0));
    let zero = at_distance(edges, s, 0);
    lemma_counts_node(n, zero, s);
    assert(hist.len() > 0);
    let last = hist.len() - 1;
    lemma_totals_by_hops(edges, n, s, hops, hist, last);
    let (p, q) = (closer(edges, s, hops, last), others_reached(edges, s));
    assert forall|i: int| 0 <= i < all.len() implies p(#[trigger] all[i]) == q(all[i]) by {
        let v = all[i];
        if q(v) {
            assert(reachable(edges, set![s], v));
            let r = at_distance(edges, s, hops(v));
            assert(r(v));
            lemma_counts_node(n, r, v);
            assert(count(all, r) > 0);
        }
    }
    lemma_sum_ext(all, |v: int| bit(p(v)), |v: int| bit(q(v)));
    lemma_sum_ext(all, closer_hops(edges, s, hops, last), hops_away(edges, s, hops));
    let f = |v: int| bit(q(v));
    let g = hops_away(edges, s, hops);
    assert forall|i: int| 0 <= i < all.len() implies f(#[trigger] all[i]) <= g(all[i]) by {
        let v = all[i];
        if q(v) {
            assert(reachable(edges, set![s], v));
            lemma_source_level(edges, s, v, hops(v));
        }
    }
    lemma_sum_le(all, f, g);
    if forall|v: int|
        0 <= v < n && v != s && #[trigger] reachable(edges, set![s], v) ==> hops(v) == 1 {
        lemma_sum_ext(all, f, g);
    }
    if sum(all, f) == sum(all, g) {
        assert forall|v: int| 0 <= v < n && v != s && #[trigger] reachable(
            edges,
            set![s],
            v,
        ) implies hops(v) == 1 by {
            lemma_sum_gap(all, f, g, v);
            assert(all[v] == v);
        }
    }
}

/// Where one sum is below another term by term, and they are the same, so are the terms.
proof fn lemma_sum_gap(s: Seq<int>, f: spec_fn(int) -> nat, g: spec_fn(int) -> nat, k: int)
    requires
        0 <= k < s.len(),
        forall|i: int| 0 <= i < s.len() ==> f(#[trigger] s[i]) <= g(s[i]),
        sum(s, f) == sum(s, g),
    ensures
        f(s[k]) == g(s[k]),
    decreases s.len(),
{
    let rest = s.drop_last();
    assert forall|i: int| 0 <= i < rest.len() implies f(#[trigger] rest[i]) <= g(rest[i]) by {
        assert(rest[i] == s[i]);
    }
    lemma_sum_le(rest, f, g);
    assert(f(s[s.len() - 1]) <= g(s[s.len() - 1]));
    if k < rest.len() {
        lemma_sum_gap(rest, f, g, k);
        assert(rest[k] == s[k]);
    }
}

/// A node that satisfies a predicate is counted.
proof fn lemma_counts_node(n: nat, p: spec_fn(int) -> bool, v: int)
    requires
        0 <= v < n,
        p(v),
    ensures
        count(upto(n), p) > 0,
    decreases n,
{
    let m = (n - 1) as nat;
    assert(upto(n).drop_last() =~= upto(m));
    assert(upto(n).last() == m);
    if v < m {
        lemma_counts_node(m, p, v);
    }
}

/// The other nodes that edges join with a node, in either direction.
pub open spec fn touching(c: Content, id: NodeId) -> Set<NodeId> {
    Set::new(|v: NodeId| v != id && (points(c, id, v) || points(c, v, id)))
}

/// The ordered pairs of neighbors of a node that are neighbors of each other.
pub open spec fn touching_pairs(c: Content, id: NodeId) -> Set<(NodeId, NodeId)> {
    Set::new(
        |x: (NodeId, NodeId)|
            touching(c, id).contains(x.0) && touching(c, id).contains(x.1) && touching(
                c,
                x.0,
            ).contains(x.1),
    )
}

/// The kernels see a neighbor at a position exactly where the records hold an edge with the
/// node there, in either direction.
pub proof fn lemma_around_is_touching(s: Store, u: int, v: int)
    requires
        s.wf(),
        0 <= u < node_list(s@).len(),
        0 <= v < node_list(s@).len(),
    ensures
        around(edge_list(s@), u)(v) <==> touching(s@, node_list(s@)[u]).contains(
            node_list(s@)[v],
        ),
{
    lemma_store_lists(s);
    lemma_arcs_are_edges(s, u, v);
    lemma_arcs_are_edges(s, v, u);
    if u != v && node_list(s@)[u] == node_list(s@)[v] {
        lemma_position_unique(node_list(s@), u, v);
    }
}

/// Edges join nodes.
proof fn lemma_points_at_nodes(s: Store, a: NodeId, b: NodeId)
    requires
        s.wf(),
        points(s@, a, b),
    ensures
        node_list(s@).contains(a),
        node_list(s@).contains(b),
{
    let c = s@;
    let (ids, edges) = (node_list(c), edge_list(c));
    lemma_store_lists(s);
    let e = choose|e: EdgeId| #[trigger]
        c.edges.dom().contains(e) && c.edges[e].src == a && c.edges[e].dst == b;
    let k = choose|k: int| 0 <= k < edges.len() && (#[trigger] edges[k]).id == e;
    assert(is_edge(c.edges, ids, edges[k]));
    assert(ids[edges[k].src] == a && ids[edges[k].dst] == b);
}

/// How many neighbors a node has, and how many ordered pairs of them are neighbors of each
/// other.
pub proof fn lemma_clustering_counts_neighbors(s: Store, d: int)
    requires
        s.wf(),
        0 <= d < node_list(s@).len(),
    ensures
        touching(s@, node_list(s@)[d]).finite(),
        around_count(edge_list(s@), node_list(s@).len(), d) == touching(
            s@,
            node_list(s@)[d],
        ).len(),
        touching_pairs(s@, node_list(s@)[d]).finite(),
        linked_pairs(
            edge_list(s@),
            node_list(s@).len(),
            d,
            node_list(s@).len() as int,
        ) == touching_pairs(s@, node_list(s@)[d]).len(),
{
    let c = s@;
    let (ids, edges) = (node_list(c), edge_list(c));
    let n = ids.len();
    lemma_store_lists(s);
    let p = around(edges, d);
    let near = touching(c, ids[d]);
    lemma_count_is_size(ids, p, n);
    assert forall|v: NodeId| #[trigger] near.contains(v) <==> chosen(ids, p, n as int).contains(
        v,
    ) by {
        if near.contains(v) {
            if points(c, ids[d], v) {
                lemma_points_at_nodes(s, ids[d], v);
            } else {
                lemma_points_at_nodes(s, v, ids[d]);
            }
            let i = ids.index_of(v);
            lemma_around_is_touching(s, d, i);
            assert(p(i) && ids[i] == v);
        }
        if chosen(ids, p, n as int).contains(v) {
            let i = choose|i: int| 0 <= i < n && p(i) && #[trigger] ids[i] == v;
            lemma_around_is_touching(s, d, i);
        }
    }
    assert(near =~= chosen(ids, p, n as int));
    lemma_pairs_size(s, d, n as int);
    let pairs = touching_pairs(c, ids[d]);
    assert forall|x: (NodeId, NodeId)| #[trigger] pairs.contains(x) <==> pairs_below(
        s,
        d,
        n as int,
    ).contains(x) by {
        if pairs.contains(x) {
            assert(near.contains(x.0) && near.contains(x.1));
            let i = choose|i: int| 0 <= i < n && p(i) && #[trigger] ids[i] == x.0;
            assert(ids[i] == x.0);
        }
    }
    assert(pairs =~= pairs_below(s, d, n as int));
}

/// Those whose first is one of the first `k` nodes.
spec fn pairs_below(s: Store, d: int, k: int) -> Set<(NodeId, NodeId)> {
    let ids = node_list(s@);
    Set::new(
        |x: (NodeId, NodeId)|
            touching_pairs(s@, ids[d]).contains(x) && exists|i: int|
                0 <= i < k && #[trigger] ids[i] == x.0,
    )
}

proof fn lemma_pairs_size(s: Store, d: int, k: int)
    requires
        s.wf(),
        0 <= d < node_list(s@).len(),
        0 <= k <= node_list(s@).len(),
    ensures
        pairs_below(s, d, k).finite(),
        pairs_below(s, d, k).len() == linked_pairs(edge_list(s@), node_list(s@).len(), d, k),
    decreases k,
{
    let c = s@;
    let (ids, edges) = (node_list(c), edge_list(c));
    let n = ids.len();
    let now = pairs_below(s, d, k);
    lemma_store_lists(s);
    if k == 0 {
        assert(now =~= Set::empty());
    } else {
        let before = pairs_below(s, d, k - 1);
        lemma_pairs_size(s, d, k - 1);
        let a = k - 1;
        let q = around_both(edges, d, a);
        lemma_count_is_size(ids, q, n);
        let here = chosen(ids, q, n as int);
        let place = |v: NodeId| (ids[a], v);
        let more = here.map(place);
        assert(vstd::relations::injective_on(place, here)) by {
            assert forall|x: NodeId, y: NodeId|
                here.contains(x) && here.contains(y) && #[trigger] place(x) == #[trigger] place(
                    y,
                ) implies x == y by {
                assert(place(x).1 == x && place(y).1 == y);
            }
        }
        vstd::set_lib::lemma_map_size(here, more, place);
        lemma_around_is_touching(s, d, a);
        assert forall|x: (NodeId, NodeId)| #[trigger] more.contains(x) <==> x.0 == ids[a] && touching(
            c,
            ids[d],
        ).contains(x.1) && touching(c, ids[a]).contains(x.1) by {
            if x.0 == ids[a] && touching(c, ids[d]).contains(x.1) && touching(c, ids[a]).contains(
                x.1,
            ) {
                if points(c, ids[d], x.1) {
                    lemma_points_at_nodes(s, ids[d], x.1);
                } else {
                    lemma_points_at_nodes(s, x.1, ids[d]);
                }
                let b = ids.index_of(x.1);
                lemma_around_is_touching(s, d, b);
                lemma_around_is_touching(s, a, b);
                assert(q(b) && ids[b] == x.1);
                assert(here.contains(x.1));
                assert(place(x.1) == x);
            }
            if more.contains(x) {
                let v = choose|v: NodeId| here.contains(v) && #[trigger] place(v) == x;
                let b = choose|b: int| 0 <= b < n && q(b) && #[trigger] ids[b] == v;
                lemma_around_is_touching(s, d, b);
                lemma_around_is_touching(s, a, b);
            }
        }
        assert forall|x: (NodeId, NodeId)| #[trigger] now.contains(x) <==> before.contains(x) || (
        around(edges, d)(a) && more.contains(x)) by {
            if now.contains(x) {
                let i = choose|i: int| 0 <= i < k && #[trigger] ids[i] == x.0;
                if i < a {
                    assert(ids[i] == x.0);
                }
            }
            if before.contains(x) {
                let i = choose|i: int| 0 <= i < k - 1 && #[trigger] ids[i] == x.0;
                assert(ids[i] == x.0);
            }
            if around(edges, d)(a) && more.contains(x) {
                assert(ids[a] == x.0);
            }
        }
        if around(edges, d)(a) {
            assert(now =~= before + more);
            assert(before.disjoint(more)) by {
                assert forall|x: (NodeId, NodeId)| before.contains(x) implies !more.contains(x) by {
                    let i = choose|i: int| 0 <= i < k - 1 && #[trigger] ids[i] == x.0;
                    assert(ids[i] < ids[a]);
                }
            }
            vstd::set_lib::lemma_set_disjoint_lens(before, more);
        } else {
            assert(now =~= before);
        }
    }
}

} // verus!
