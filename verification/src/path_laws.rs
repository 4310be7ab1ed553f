//! What shortest paths are to the kernels that count them, and what parallel edges
//! change: nothing.

use vstd::prelude::*;

use crate::analytics::{at_distance, distances_counted, near, near_count};
use crate::csr::{edges_ascending, Edge};
use crate::entries::{entry_row, lemma_entry_at, lemma_entry_of};
use crate::neighborhoods::{around, around_both, fed_by, feeds, linked_pairs, paths, ShortestDag};
use crate::paths::{lemma_sources_at, sources_at, walks_through, walks_to};
use crate::schema::NodeId;
use crate::sums::{count, upto};
use crate::traversal::{arc, at_level, grow, within};

verus! {

/// The numbers below `k` of a list, each with its value, added up.
spec fn sum_below(list: Seq<int>, f: spec_fn(int) -> nat, k: int) -> nat
    decreases list.len(),
{
    if list.len() == 0 {
        0
    } else {
        sum_below(list.drop_last(), f, k) + if list.last() < k {
            f(list.last())
        } else {
            0
        }
    }
}

proof fn lemma_sum_below_step(list: Seq<int>, f: spec_fn(int) -> nat, k: int)
    requires
        list.no_duplicates(),
    ensures
        sum_below(list, f, k + 1) == sum_below(list, f, k) + if list.contains(k) {
            f(k)
        } else {
            0
        },
    decreases list.len(),
{
    if list.len() > 0 {
        let rest = list.drop_last();
        lemma_sum_below_step(rest, f, k);
        assert(list[list.len() - 1] == list.last());
        if rest.contains(k) {
            let i = rest.index_of(k);
            assert(list[i] == k);
        }
        if list.contains(k) {
            let i = list.index_of(k);
            if i < rest.len() {
                assert(rest[i] == k);
            }
        }
    }
}

proof fn lemma_sum_below_none(list: Seq<int>, f: spec_fn(int) -> nat)
    requires
        forall|i: int| 0 <= i < list.len() ==> 0 <= #[trigger] list[i],
    ensures
        sum_below(list, f, 0) == 0,
    decreases list.len(),
{
    if list.len() > 0 {
        assert(0 <= list[list.len() - 1]);
        assert forall|i: int| 0 <= i < list.drop_last().len() implies 0
            <= #[trigger] list.drop_last()[i] by {
            assert(0 <= list[i]);
        }
        lemma_sum_below_none(list.drop_last(), f);
    }
}

/// How many shortest paths lead to a node that is one step nearer.
spec fn paths_before(edges: Seq<Edge>, n: nat, s: int, l: nat) -> spec_fn(int) -> nat {
    |v: int| paths(edges, n, s, (l - 1) as nat, v, n as int)
}

proof fn lemma_paths_are_sum(
    edges: Seq<Edge>,
    n: nat,
    s: int,
    l: nat,
    w: int,
    preds: Seq<int>,
    k: int,
)
    requires
        l > 0,
        0 <= k <= n,
        preds.no_duplicates(),
        forall|v: int| #[trigger] preds.contains(v) ==> 0 <= v,
        forall|v: int| 0 <= v < n ==> (#[trigger] preds.contains(v) <==> feeds(edges, s, l, v, w)),
    ensures
        paths(edges, n, s, l, w, k) == sum_below(preds, paths_before(edges, n, s, l), k),
    decreases k,
{
    let f = paths_before(edges, n, s, l);
    if k == 0 {
        assert forall|i: int| 0 <= i < preds.len() implies 0 <= #[trigger] preds[i] by {
            assert(preds.contains(preds[i]));
        }
        lemma_sum_below_none(preds, f);
    } else {
        lemma_paths_are_sum(edges, n, s, l, w, preds, k - 1);
        lemma_sum_below_step(preds, f, k - 1);
        assert(preds.contains(k - 1) <==> feeds(edges, s, l, k - 1, w));
    }
}

/// The shortest paths that are counted are those that are listed: a path is a
/// sequence of nodes to both.
pub proof fn lemma_counted_paths_are_listed(
    ids: Seq<NodeId>,
    edges: Seq<Edge>,
    n: nat,
    s: int,
    w: int,
    l: nat,
)
    requires
        edges_ascending(edges),
        forall|i: int|
            0 <= i < edges.len() ==> 0 <= (#[trigger] edges[i]).src < n && 0 <= edges[i].dst < n,
        at_level(edges, set![s], w, l),
    ensures
        paths(edges, n, s, l, w, n as int) == walks_to(ids, edges, s, w, l).len(),
    decreases l,
{
    if l > 0 {
        let row = entry_row(ids, edges, w);
        let preds = sources_at(row, edges, s, (l - 1) as nat);
        lemma_sources_at(row, edges, s, (l - 1) as nat);
        assert forall|v: int| #[trigger] preds.contains(v) <==> feeds(edges, s, l, v, w) by {
            if preds.contains(v) {
                let k = choose|k: int| 0 <= k < row.len() && (#[trigger] row[k]).src == v;
                let j = lemma_entry_at(ids, edges, w, k);
                assert(edges[j].src == v && edges[j].dst == w);
            }
            if feeds(edges, s, l, v, w) {
                let j = choose|j: int|
                    0 <= j < edges.len() && (#[trigger] edges[j]).src == v && edges[j].dst == w;
                let k = lemma_entry_of(ids, edges, w, j);
                assert(row[k].src == v);
            }
        }
        assert forall|v: int| #[trigger] preds.contains(v) implies 0 <= v < n by {
            assert(feeds(edges, s, l, v, w));
            let j = choose|j: int|
                0 <= j < edges.len() && (#[trigger] edges[j]).src == v && edges[j].dst == w;
            assert(0 <= edges[j].src < n);
        }
        lemma_paths_are_sum(edges, n, s, l, w, preds, n as int);
        assert forall|i: int| 0 <= i < preds.len() implies at_level(
            edges,
            set![s],
            #[trigger] preds[i],
            (l - 1) as nat,
        ) && preds[i] < n by {
            assert(preds.contains(preds[i]));
        }
        lemma_listed_are_sum(ids, edges, n, s, w, l, preds);
    } else {
        assert(set![s].contains(w));
    }
}

proof fn lemma_listed_are_sum(
    ids: Seq<NodeId>,
    edges: Seq<Edge>,
    n: nat,
    s: int,
    w: int,
    l: nat,
    preds: Seq<int>,
)
    requires
        edges_ascending(edges),
        forall|i: int|
            0 <= i < edges.len() ==> 0 <= (#[trigger] edges[i]).src < n && 0 <= edges[i].dst < n,
        l > 0,
        forall|i: int|
            0 <= i < preds.len() ==> at_level(
                edges,
                set![s],
                #[trigger] preds[i],
                (l - 1) as nat,
            ) && preds[i] < n,
    ensures
        walks_through(ids, edges, s, w, l, preds).len() == sum_below(
            preds,
            paths_before(edges, n, s, l),
            n as int,
        ),
    decreases l, preds.len(),
{
    if preds.len() > 0 {
        let rest = preds.drop_last();
        assert forall|i: int| 0 <= i < rest.len() implies at_level(
            edges,
            set![s],
            #[trigger] rest[i],
            (l - 1) as nat,
        ) && rest[i] < n by {
            assert(rest[i] == preds[i]);
        }
        lemma_listed_are_sum(ids, edges, n, s, w, l, rest);
        let v = preds[preds.len() - 1];
        assert(v == preds.last());
        lemma_counted_paths_are_listed(ids, edges, n, s, v, (l - 1) as nat);
    }
}

/// Edges join the same nodes, whatever their number.
pub open spec fn same_arcs(a: Seq<Edge>, b: Seq<Edge>) -> bool {
    forall|u: int, v: int| #[trigger] arc(a, u, v) == arc(b, u, v)
}

proof fn lemma_same_within(a: Seq<Edge>, b: Seq<Edge>, seeds: Set<int>, k: nat)
    requires
        same_arcs(a, b),
    ensures
        within(a, seeds, k) == within(b, seeds, k),
    decreases k,
{
    if k > 0 {
        lemma_same_within(a, b, seeds, (k - 1) as nat);
        let s = within(a, seeds, (k - 1) as nat);
        assert forall|v: int| grow(a, s).contains(v) == grow(b, s).contains(v) by {
            if exists|u: int| s.contains(u) && #[trigger] arc(a, u, v) {
                let u = choose|u: int| s.contains(u) && #[trigger] arc(a, u, v);
                assert(arc(b, u, v));
            }
            if exists|u: int| s.contains(u) && #[trigger] arc(b, u, v) {
                let u = choose|u: int| s.contains(u) && #[trigger] arc(b, u, v);
                assert(arc(a, u, v));
            }
        }
        assert(grow(a, s) =~= grow(b, s));
    }
}

proof fn lemma_same_level(a: Seq<Edge>, b: Seq<Edge>, seeds: Set<int>, v: int, l: nat)
    requires
        same_arcs(a, b),
    ensures
        at_level(a, seeds, v, l) == at_level(b, seeds, v, l),
{
    lemma_same_within(a, b, seeds, l);
    if l > 0 {
        lemma_same_within(a, b, seeds, (l - 1) as nat);
    }
}

/// A second edge between two nodes changes no distance.
pub proof fn lemma_parallel_edges_keep_distances(
    a: Seq<Edge>,
    b: Seq<Edge>,
    n: nat,
    s: int,
    hist: Seq<u64>,
)
    requires
        same_arcs(a, b),
    ensures
        distances_counted(a, n, s, hist) == distances_counted(b, n, s, hist),
{
    assert forall|l: nat| #[trigger] at_distance(a, s, l) == at_distance(b, s, l) by {
        assert forall|v: int| #[trigger] at_distance(a, s, l)(v) == at_distance(b, s, l)(v) by {
            lemma_same_level(a, b, set![s], v, l);
        }
        assert(at_distance(a, s, l) =~= at_distance(b, s, l));
    }
    if distances_counted(a, n, s, hist) {
        assert forall|l: nat|
            #![trigger at_distance(b, s, l)]
            count(upto(n), at_distance(b, s, l)) == (if l < hist.len() {
                hist[l as int] as nat
            } else {
                0
            }) by {
            assert(at_distance(a, s, l) == at_distance(b, s, l));
        }
    }
    if distances_counted(b, n, s, hist) {
        assert forall|l: nat|
            #![trigger at_distance(a, s, l)]
            count(upto(n), at_distance(a, s, l)) == (if l < hist.len() {
                hist[l as int] as nat
            } else {
                0
            }) by {
            assert(at_distance(a, s, l) == at_distance(b, s, l));
        }
    }
}

proof fn lemma_same_paths(a: Seq<Edge>, b: Seq<Edge>, n: nat, s: int, l: nat, w: int, k: int)
    requires
        same_arcs(a, b),
    ensures
        paths(a, n, s, l, w, k) == paths(b, n, s, l, w, k),
    decreases l, k,
{
    if l > 0 && k > 0 {
        lemma_same_paths(a, b, n, s, l, w, k - 1);
        lemma_same_paths(a, b, n, s, (l - 1) as nat, k - 1, n as int);
        lemma_same_level(a, b, set![s], k - 1, (l - 1) as nat);
        assert(arc(a, k - 1, w) == arc(b, k - 1, w));
    }
}

/// A second edge between two nodes makes no second shortest path.
pub proof fn lemma_parallel_edges_keep_paths(
    a: Seq<Edge>,
    b: Seq<Edge>,
    n: nat,
    s: int,
    dag: ShortestDag,
)
    requires
        same_arcs(a, b),
        dag.of(a, n, s),
    ensures
        dag.of(b, n, s),
{
    assert forall|v: int, l: nat| 0 <= v < n implies (#[trigger] at_level(b, set![s], v, l)
        <==> dag.levels@[v] != crate::traversal::UNREACHED && dag.levels@[v] == l) by {
        lemma_same_level(a, b, set![s], v, l);
        assert(at_level(a, set![s], v, l) == at_level(b, set![s], v, l));
    }
    assert forall|v: int| 0 <= v < n implies (#[trigger] dag.sigma@[v]) == (if dag.levels@[v]
        == crate::traversal::UNREACHED {
        0
    } else {
        paths(b, n, s, dag.levels@[v] as nat, v, n as int)
    }) by {
        lemma_same_paths(a, b, n, s, dag.levels@[v] as nat, v, n as int);
    }
    assert forall|w: int| 0 <= w < n implies fed_by(
        b,
        s,
        dag.levels@[w],
        w,
        n,
        (#[trigger] dag.pred@[w])@,
    ) by {
        let list = dag.pred@[w]@;
        assert(fed_by(a, s, dag.levels@[w], w, n, list));
        assert forall|v: u32| #[trigger]
            list.contains(v) <==> v < n && dag.levels@[w] != crate::traversal::UNREACHED && feeds(
                b,
                s,
                dag.levels@[w] as nat,
                v as int,
                w,
            ) by {
            if dag.levels@[w] > 0 {
                lemma_same_level(a, b, set![s], v as int, (dag.levels@[w] - 1) as nat);
            }
            assert(arc(a, v as int, w) == arc(b, v as int, w));
        }
    }
}

/// A second edge between two nodes changes no neighborhood.
pub proof fn lemma_parallel_edges_keep_neighborhoods(
    a: Seq<Edge>,
    b: Seq<Edge>,
    n: nat,
    out: bool,
    ins: bool,
    itself: bool,
    u: int,
)
    requires
        same_arcs(a, b),
    ensures
        near(a, out, ins, itself, u) == near(b, out, ins, itself, u),
        near_count(a, n, out, ins, itself, u) == near_count(b, n, out, ins, itself, u),
        linked_pairs(a, n, u, n as int) == linked_pairs(b, n, u, n as int),
{
    lemma_same_near(a, b, out, ins, itself, u);
    lemma_same_pairs(a, b, n, u, n as int);
}

proof fn lemma_same_near(a: Seq<Edge>, b: Seq<Edge>, out: bool, ins: bool, itself: bool, u: int)
    requires
        same_arcs(a, b),
    ensures
        near(a, out, ins, itself, u) == near(b, out, ins, itself, u),
{
    assert forall|v: int| #[trigger] near(a, out, ins, itself, u)(v) == near(b, out, ins, itself, u)(v) by {
        assert(arc(a, u, v) == arc(b, u, v));
        assert(arc(a, v, u) == arc(b, v, u));
    }
    assert(near(a, out, ins, itself, u) =~= near(b, out, ins, itself, u));
}

proof fn lemma_same_pairs(a: Seq<Edge>, b: Seq<Edge>, n: nat, u: int, k: int)
    requires
        same_arcs(a, b),
    ensures
        linked_pairs(a, n, u, k) == linked_pairs(b, n, u, k),
    decreases k,
{
    if k > 0 {
        lemma_same_pairs(a, b, n, u, k - 1);
        lemma_same_near(a, b, true, true, false, u);
        lemma_same_near(a, b, true, true, false, k - 1);
        assert(around(a, u) == around(b, u));
        assert(around_both(a, u, k - 1) =~= around_both(b, u, k - 1));
    }
}

} // verus!
