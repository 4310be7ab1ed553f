//! What the weighted searches find, with whole weights that are added up as numbers.

use vstd::prelude::*;

use crate::cost::Cost;
use crate::csr::{CsrSnapshot, Edge};
use crate::dijkstra::{answers, first_back, leads_back, trace, walk_at, WeightedPath};
use crate::entries::{entry_row, lemma_entry_at};
use crate::flow::{
    crossing, cut_capacity, describes, is_flow, is_maximum, lemma_flow_below_cut, lemma_slot_edge,
    most_carried, Network,
};
use crate::forest::{forest_of, links_to, owns, precedes};
use crate::graph_kernels::number_in;
use crate::image::{edge_list, images, is_edge, lemma_store_lists, node_list};
use crate::paths::ids_of;
use crate::schema::EdgeId;
use crate::spanning::{acyclic, forest_positions, lemma_forest_is_best, picked, positions};
use crate::store::Store;
use crate::sums::{lemma_sum_ext, sum, upto};
use crate::top_k::{
    cheapest_left, lemma_path_walk, lemma_walk_path, nodes_of, path_cost, proper, top_paths, Found,
};
use crate::value::{integral, lemma_integral_is_nearest, Val};
use crate::weighted::{anywhere, follows, in_row, least_costs, walk_cost, walk_end, walk_nodes};

verus! {

/// The node where a chain of edges is after its first `i`.
pub open spec fn stop(snap: CsrSnapshot, s: int, ks: Seq<int>, i: int) -> int {
    if i <= 0 {
        s
    } else {
        snap.col_idx@[ks[i - 1]] as int
    }
}

/// The `i`th of these slots holds an edge that leaves the node where the chain is.
pub open spec fn goes_on(snap: CsrSnapshot, s: int, ks: Seq<int>, i: int) -> bool {
    snap.row_ptr@[stop(snap, s, ks, i)] <= ks[i] < snap.row_ptr@[stop(snap, s, ks, i) + 1]
}

/// Slots of edges, each of which leaves the node that the one before it leads to.
pub open spec fn is_chain(snap: CsrSnapshot, s: int, ks: Seq<int>) -> bool {
    forall|i: int| 0 <= i < ks.len() ==> #[trigger] goes_on(snap, s, ks, i)
}

/// A chain of edges from one node to another.
pub open spec fn chain(snap: CsrSnapshot, s: int, t: int, ks: Seq<int>) -> bool {
    is_chain(snap, s, ks) && stop(snap, s, ks, ks.len() as int) == t
}

/// The nodes of a chain.
pub open spec fn stops(snap: CsrSnapshot, s: int, ks: Seq<int>) -> Seq<int> {
    Seq::new(ks.len() + 1, |i: int| stop(snap, s, ks, i))
}

/// The weights of a chain, added up.
pub open spec fn total(weights: Seq<u64>, ks: Seq<int>) -> nat {
    sum(ks, |k: int| weights[k] as nat)
}

/// The largest number where a sum is larger.
pub open spec fn capped(x: nat) -> nat {
    if x > u64::MAX {
        u64::MAX as nat
    } else {
        x
    }
}

proof fn lemma_chain_follows(snap: CsrSnapshot, s: int, ks: Seq<int>)
    ensures
        is_chain(snap, s, ks) <==> follows(snap, anywhere(), s, ks),
        stop(snap, s, ks, ks.len() as int) == walk_end(snap, s, ks),
        stops(snap, s, ks) == walk_nodes(snap, s, ks),
    decreases ks.len(),
{
    if ks.len() == 0 {
        assert(stops(snap, s, ks) =~= seq![s]);
    } else {
        let rest = ks.drop_last();
        let n = rest.len() as int;
        lemma_chain_follows(snap, s, rest);
        assert forall|i: int| 0 <= i <= n implies #[trigger] stop(snap, s, ks, i) == stop(
            snap,
            s,
            rest,
            i,
        ) by {}
        assert(ks[n] == ks.last());
        assert(goes_on(snap, s, ks, n) <==> in_row(snap, walk_end(snap, s, rest), ks.last())) by {
            assert(stop(snap, s, ks, n) == stop(snap, s, rest, n));
        }
        assert forall|i: int| 0 <= i < n implies goes_on(snap, s, ks, i) == #[trigger] goes_on(
            snap,
            s,
            rest,
            i,
        ) by {
            assert(rest[i] == ks[i]);
            assert(stop(snap, s, ks, i) == stop(snap, s, rest, i));
        }
        if is_chain(snap, s, ks) {
            assert forall|i: int| 0 <= i < rest.len() implies #[trigger] goes_on(
                snap,
                s,
                rest,
                i,
            ) by {
                assert(goes_on(snap, s, ks, i));
            }
            assert(goes_on(snap, s, ks, n));
        }
        if follows(snap, anywhere(), s, ks) {
            assert forall|i: int| 0 <= i < ks.len() implies #[trigger] goes_on(
                snap,
                s,
                ks,
                i,
            ) by {
                if i < n {
                    assert(goes_on(snap, s, rest, i));
                }
            }
        }
        assert(stops(snap, s, ks) =~= stops(snap, s, rest).push(snap.col_idx@[ks.last()] as int))
            by {
            assert forall|i: int| 0 <= i <= ks.len() implies stops(snap, s, ks)[i] == stops(
                snap,
                s,
                rest,
            ).push(snap.col_idx@[ks.last()] as int)[i] by {
                if i <= n {
                    assert(stop(snap, s, ks, i) == stop(snap, s, rest, i));
                } else {
                    assert(ks[n] == ks.last());
                }
            }
        }
    }
}

proof fn lemma_cost_is_total(weights: Seq<u64>, ks: Seq<int>)
    ensures
        walk_cost(weights, ks) == capped(total(weights, ks)),
    decreases ks.len(),
{
    if ks.len() > 0 {
        lemma_cost_is_total(weights, ks.drop_last());
    }
}

/// The source that a step back takes is that of an edge which accounts for the cost.
proof fn lemma_first_back<C: Cost>(
    snap: CsrSnapshot,
    weights: Seq<C>,
    dist: Seq<Option<C>>,
    cur: int,
    row: Seq<Edge>,
) -> (i: int)
    requires
        first_back(snap, weights, dist, cur, row) is Some,
    ensures
        0 <= i < row.len(),
        leads_back(snap, weights, dist, cur, row[i]),
        first_back(snap, weights, dist, cur, row) == Some(row[i].src),
    decreases row.len(),
{
    let rest = row.drop_last();
    if first_back(snap, weights, dist, cur, rest) is Some {
        lemma_first_back(snap, weights, dist, cur, rest)
    } else {
        row.len() - 1
    }
}

proof fn lemma_traced_chain(
    snap: CsrSnapshot,
    weights: Seq<u64>,
    dist: Seq<Option<u64>>,
    s: int,
    cur: int,
    fuel: nat,
) -> (ks: Seq<int>)
    requires
        snap.wf(),
        0 <= s < snap.n(),
        0 <= cur < snap.n(),
        dist[s] == Some(0u64),
        dist[cur] is Some,
        trace(snap, weights, dist, s, cur, fuel) is Some,
    ensures
        follows(snap, anywhere(), s, ks),
        walk_end(snap, s, ks) == cur,
        walk_nodes(snap, s, ks) == trace(snap, weights, dist, s, cur, fuel)->0,
        walk_cost(weights, ks) == dist[cur]->0,
    decreases fuel,
{
    if cur == s {
        let ks = Seq::<int>::empty();
        assert(walk_nodes(snap, s, ks) =~= seq![s]);
        ks
    } else {
        let row = entry_row(snap.dense_to_id@, snap.edges@, cur);
        let i = lemma_first_back(snap, weights, dist, cur, row);
        let j = lemma_entry_at(snap.dense_to_id@, snap.edges@, cur, i);
        let e = row[i];
        let u = e.src;
        let k = choose|k: int| #[trigger]
            in_row(snap, u, k) && snap.edge_id@[k] == e.id && dist[u]->0.plus(weights[k]).near(
                dist[cur]->0,
            );
        let h = lemma_slot_edge(snap, u, k);
        if h < j {
            assert(snap.edges@[h].id < snap.edges@[j].id);
        } else if j < h {
            assert(snap.edges@[j].id < snap.edges@[h].id);
        }
        let rest = lemma_traced_chain(snap, weights, dist, s, u, (fuel - 1) as nat);
        let ks = rest.push(k);
        assert(ks.drop_last() =~= rest);
        ks
    }
}

/// With whole weights, a cheapest path is that of a chain of edges whose weights add up to
/// its cost, and no chain weighs less; there is none exactly where no chain leads there.
pub proof fn lemma_cheapest_path_is_lightest(
    snap: CsrSnapshot,
    weights: Seq<u64>,
    s: int,
    t: int,
    dist: Seq<Option<u64>>,
    found: Option<WeightedPath<u64>>,
)
    requires
        snap.wf(),
        weights.len() == snap.edges@.len(),
        0 <= s < snap.n(),
        0 <= t < snap.n(),
        least_costs(snap, weights, anywhere(), s, dist),
        answers(snap, weights, s, t, dist, found),
    ensures
        found is None <==> forall|ks: Seq<int>| !#[trigger] chain(snap, s, t, ks),
        found matches Some(path) ==> {
            &&& exists|ks: Seq<int>| #[trigger]
                chain(snap, s, t, ks) && path.total_weight == capped(total(weights, ks))
                    && path.nodes@ == ids_of(snap.dense_to_id@, stops(snap, s, ks))
            &&& forall|ks: Seq<int>| #[trigger]
                chain(snap, s, t, ks) ==> path.total_weight <= total(weights, ks)
        },
{
    let none = Seq::<int>::empty();
    assert(follows(snap, anywhere(), s, none) && walk_end(snap, s, none) == s);
    assert(dist[s] is Some && dist[s]->0.le(walk_cost(weights, none)));
    assert(dist[s] == Some(0u64));
    assert forall|ks: Seq<int>| #[trigger] chain(snap, s, t, ks) implies dist[t] is Some
        && dist[t]->0 <= total(weights, ks) by {
        lemma_chain_follows(snap, s, ks);
        lemma_cost_is_total(weights, ks);
        assert(walk_cost(weights, ks).bounded());
    }
    if dist[t] is Some {
        let c = dist[t]->0;
        let some = choose|ks: Seq<int>| #[trigger]
            follows(snap, anywhere(), s, ks) && walk_end(snap, s, ks) == t && walk_cost(
                weights,
                ks,
            ) == c;
        lemma_chain_follows(snap, s, some);
        assert(chain(snap, s, t, some));
        let path = found->0;
        let p = choose|p: Seq<int>|
            path.nodes@ == #[trigger] ids_of(snap.dense_to_id@, p) && match trace(
                snap,
                weights,
                dist,
                s,
                t,
                snap.n(),
            ) {
                Some(q) => p == q,
                None => walk_at(snap, weights, s, t, c, p),
            };
        let ks = if trace(snap, weights, dist, s, t, snap.n()) is Some {
            lemma_traced_chain(snap, weights, dist, s, t, snap.n())
        } else {
            choose|ks: Seq<int>| #[trigger]
                follows(snap, anywhere(), s, ks) && walk_end(snap, s, ks) == t && walk_cost(
                    weights,
                    ks,
                ) == c && walk_nodes(snap, s, ks) == p
        };
        lemma_chain_follows(snap, s, ks);
        lemma_cost_is_total(weights, ks);
        assert(chain(snap, s, t, ks) && path.total_weight == capped(total(weights, ks))
            && path.nodes@ == ids_of(snap.dense_to_id@, stops(snap, s, ks)));
    }
}

/// With whole weights, the cheapest paths come in ascending order of their costs, each the
/// weight of a chain of edges that visits no node twice; every such chain that is not
/// listed weighs at least as much as all that are, and where fewer are listed than were
/// asked for there is none.
pub proof fn lemma_top_paths_are_lightest(
    snap: CsrSnapshot,
    weights: Seq<u64>,
    s: int,
    t: int,
    k: nat,
    list: Seq<Found<u64>>,
    ks: Seq<int>,
)
    requires
        snap.wf(),
        weights.len() == snap.edges@.len(),
        0 <= s < snap.n(),
        0 <= t < snap.n(),
        top_paths(snap, weights, s, t, k, list),
    ensures
        list.len() <= k,
        forall|i: int, j: int|
            #![trigger list[i], list[j]]
            0 <= i < j < list.len() ==> list[i].cost <= list[j].cost && nodes_of(list[i])
                != nodes_of(list[j]),
        forall|i: int|
            0 <= i < list.len() ==> nodes_of(#[trigger] list[i]).no_duplicates() && exists|
                js: Seq<int>,
            | #[trigger]
                chain(snap, s, t, js) && stops(snap, s, js) == nodes_of(list[i]) && list[i].cost
                    == capped(total(weights, js)),
        chain(snap, s, t, ks) && stops(snap, s, ks).no_duplicates() && (forall|b: int|
            0 <= b < list.len() ==> nodes_of(#[trigger] list[b]) != stops(snap, s, ks)) ==> list.len()
            == k && forall|i: int|
            0 <= i < list.len() ==> (#[trigger] list[i]).cost <= total(weights, ks),
{
    assert forall|i: int, j: int| #![trigger list[i], list[j]] 0 <= i < j < list.len() implies list[i].cost
        <= list[j].cost by {
        assert(proper(snap, weights, s, t, list[j]));
        let q = nodes_of(list[j]);
        assert(cheapest_left(snap, weights, s, t, list, i));
        assert forall|b: int| 0 <= b < i implies nodes_of(#[trigger] list[b]) != q by {
            assert(nodes_of(list[b]) != nodes_of(list[j]));
        }
        assert(path_cost(snap, weights, q).bounded());
        assert(list[i].cost.le(path_cost(snap, weights, q)));
    }
    assert forall|i: int| 0 <= i < list.len() implies nodes_of(#[trigger] list[i]).no_duplicates()
        && exists|js: Seq<int>| #[trigger]
        chain(snap, s, t, js) && stops(snap, s, js) == nodes_of(list[i]) && list[i].cost == capped(
            total(weights, js),
        ) by {
        assert(proper(snap, weights, s, t, list[i]));
        let p = nodes_of(list[i]);
        let js = lemma_path_walk(snap, weights, anywhere(), p);
        lemma_chain_follows(snap, s, js);
        lemma_cost_is_total(weights, js);
        assert(chain(snap, s, t, js));
    }
    if chain(snap, s, t, ks) && stops(snap, s, ks).no_duplicates() && (forall|b: int|
        0 <= b < list.len() ==> nodes_of(#[trigger] list[b]) != stops(snap, s, ks)) {
        let q = stops(snap, s, ks);
        lemma_chain_follows(snap, s, ks);
        lemma_cost_is_total(weights, ks);
        lemma_walk_path(snap, weights, anywhere(), s, ks);
        assert(crate::simple_paths::simple_path(snap.edges@, s, t, q));
        assert(path_cost(snap, weights, q).bounded());
        assert forall|i: int| 0 <= i < list.len() implies (#[trigger] list[i]).cost <= total(
            weights,
            ks,
        ) by {
            assert(cheapest_left(snap, weights, s, t, list, i));
            assert(list[i].cost.le(path_cost(snap, weights, q)));
        }
    }
}

/// Edge by edge, a spanning forest of least weight is no heavier than any set of edges
/// without a cycle, and one of greatest weight no lighter, both in the order in which the
/// edges were considered.
pub proof fn lemma_forest_weights<C: Cost>(
    snap: CsrSnapshot,
    weights: Seq<C>,
    maximum: bool,
    order: Seq<usize>,
    out: Seq<EdgeId>,
    tails: Seq<usize>,
    picks: Seq<int>,
)
    requires
        snap.wf(),
        weights.len() == snap.edges@.len(),
        forest_of(snap, weights, maximum, order, out),
        owns(snap, tails),
        positions(picks, order.len() as int),
        acyclic(picked(links_to(tails, snap.col_idx@, order, order.len() as int), picks)),
    ensures
        picks.len() <= out.len(),
        exists|at: Seq<int>|
            {
                &&& #[trigger] forest_positions(snap, order, out, at)
                &&& forall|k: int|
                    0 <= k < picks.len() ==> {
                        let (x, y) = (
                            weights[order[at[k]] as int],
                            weights[order[#[trigger] picks[k]] as int],
                        );
                        if maximum {
                            y.le(x)
                        } else {
                            x.le(y)
                        }
                    }
            },
        forall|i: int, j: int|
            0 <= i < j < order.len() ==> {
                let (x, y) = (
                    weights[#[trigger] order[i] as int],
                    weights[#[trigger] order[j] as int],
                );
                if maximum {
                    y.le(x)
                } else {
                    x.le(y)
                }
            },
{
    lemma_forest_is_best(snap, weights, maximum, order, out, tails, picks);
    let at = choose|at: Seq<int>|
        {
            &&& #[trigger] forest_positions(snap, order, out, at)
            &&& forall|k: int|
                0 <= k < picks.len() ==> at[k] == #[trigger] picks[k] || precedes(
                    weights,
                    maximum,
                    order[at[k]] as int,
                    order[picks[k]] as int,
                )
        };
    assert forall|k: int| 0 <= k < picks.len() implies {
        let (x, y) = (weights[order[at[k]] as int], weights[order[#[trigger] picks[k]] as int]);
        if maximum {
            y.le(x)
        } else {
            x.le(y)
        }
    } by {
        let (x, y) = (weights[order[at[k]] as int], weights[order[picks[k]] as int]);
        C::law_order(x, y, x);
        C::law_order(x, x, x);
    }
    assert forall|i: int, j: int| 0 <= i < j < order.len() implies {
        let (x, y) = (weights[#[trigger] order[i] as int], weights[#[trigger] order[j] as int]);
        if maximum {
            y.le(x)
        } else {
            x.le(y)
        }
    } by {
        let (x, y) = (weights[order[i] as int], weights[order[j] as int]);
        C::law_order(x, y, x);
        assert(precedes(weights, maximum, order[i] as int, order[j] as int));
    }
}

/// The node that an edge at a slot leaves.
pub open spec fn tail(snap: CsrSnapshot, k: int) -> int {
    choose|u: int|
        0 <= u < snap.n() && #[trigger] snap.row_ptr@[u] <= k < snap.row_ptr@[u + 1]
}

/// What the edges that lead out of a set of nodes can carry together.
pub open spec fn carried_out(snap: CsrSnapshot, caps: Seq<u64>, side: Set<int>) -> nat {
    sum(
        upto(snap.edges@.len()),
        |k: int|
            if side.contains(tail(snap, k)) && !side.contains(snap.col_idx@[k] as int) {
                caps[k] as nat
            } else {
                0
            },
    )
}

/// The most that can be carried from one node to another is what the narrowest cut between
/// them can carry.
pub proof fn lemma_flow_is_least_cut(
    snap: CsrSnapshot,
    caps: Seq<u64>,
    s: int,
    t: int,
    value: int,
    side: Set<int>,
)
    requires
        snap.wf(),
        caps.len() == snap.edges@.len(),
        0 <= s < snap.n(),
        0 <= t < snap.n(),
        s != t,
        most_carried(snap, caps, s, t, value),
    ensures
        side.contains(s) && !side.contains(t) ==> value <= carried_out(snap, caps, side),
        exists|least: Set<int>|
            least.contains(s) && !least.contains(t) && #[trigger] carried_out(snap, caps, least)
                == value,
{
    let (net, in_slot) = choose|net: Network, in_slot: Seq<usize>| #[trigger]
        describes(snap, net, in_slot) && net.caps@ == caps && is_maximum(
            net,
            snap.n() as int,
            s,
            t,
            value,
        );
    let f = choose|f: Seq<u64>| is_flow(net, snap.n() as int, s, t, f, value);
    if side.contains(s) && !side.contains(t) {
        lemma_flow_below_cut(net, snap.n(), s, t, f, value, side);
        lemma_cut(snap, caps, net, in_slot, side);
    }
    let least = choose|least: Set<int>|
        least.contains(s) && !least.contains(t) && #[trigger] cut_capacity(net, least) == value;
    lemma_cut(snap, caps, net, in_slot, least);
}

proof fn lemma_cut(
    snap: CsrSnapshot,
    caps: Seq<u64>,
    net: Network,
    in_slot: Seq<usize>,
    side: Set<int>,
)
    requires
        snap.wf(),
        describes(snap, net, in_slot),
        net.caps@ == caps,
    ensures
        cut_capacity(net, side) == carried_out(snap, caps, side),
{
    let ks = upto(net.m());
    let f = crossing(net, net.caps@, side);
    let g = |k: int|
        if side.contains(tail(snap, k)) && !side.contains(snap.col_idx@[k] as int) {
            caps[k] as nat
        } else {
            0
        };
    assert forall|i: int| 0 <= i < ks.len() implies f(#[trigger] ks[i]) == g(ks[i]) by {
        let u = net.tails@[i] as int;
        assert(in_row(snap, u, i));
        assert(snap.row_ptr@[u] <= i < snap.row_ptr@[u + 1]);
        let v = tail(snap, i);
        assert(in_row(snap, v, i));
    }
    lemma_sum_ext(ks, f, g);
}

/// While the snapshot is current, the edge at a slot of a node's row is one of the records,
/// which leaves that node and leads to the one that the slot names.
pub proof fn lemma_slot_is_record(s: Store, snap: CsrSnapshot, u: int, k: int)
    requires
        s.wf(),
        images(snap, s@),
        0 <= u < snap.n(),
        snap.row_ptr@[u] <= k < snap.row_ptr@[u + 1],
    ensures
        s@.edges.dom().contains(snap.edge_id@[k]),
        s@.edges[snap.edge_id@[k]].src == snap.dense_to_id@[u],
        s@.edges[snap.edge_id@[k]].dst == snap.dense_to_id@[snap.col_idx@[k] as int],
{
    lemma_store_lists(s);
    assert(in_row(snap, u, k));
    let i = lemma_slot_edge(snap, u, k);
    assert(is_edge(s@.edges, node_list(s@), edge_list(s@)[i]));
}

/// The weight of an edge is the number in the first of the named properties that it has.
pub proof fn lemma_number_is_first_present(
    props: Map<Seq<char>, Val>,
    names: Seq<&str>,
    i: int,
)
    requires
        0 <= i <= names.len(),
        forall|j: int| 0 <= j < i ==> !props.dom().contains((#[trigger] names[j])@),
    ensures
        i == names.len() ==> number_in(props, names, 0) is None,
        i < names.len() && props.dom().contains(names[i]@) ==> {
            let v = props[names[i]@];
            &&& number_in(props, names, 0) is Some <==> v is Int || v is UInt || v is Float
            &&& v matches Val::Float(bits) ==> number_in(props, names, 0) == Some(bits)
            &&& v matches Val::Int(x) ==> forall|bits: u64| #[trigger]
                integral(bits) == Some(x as int) && bits != 0x8000_0000_0000_0000
                    ==> number_in(props, names, 0) == Some(bits)
        },
{
    lemma_number_from(props, names, 0, i);
    if i < names.len() && props.dom().contains(names[i]@) {
        if let Val::Int(x) = props[names[i]@] {
            assert forall|bits: u64| #[trigger] integral(bits) == Some(x as int) && bits
                != 0x8000_0000_0000_0000 implies number_in(props, names, 0) == Some(bits) by {
                if bits as nat % 0x8000_0000_0000_0000 != 0 {
                    lemma_integral_is_nearest(bits);
                } else {
                    assert(bits == 0);
                }
            }
        }
    }
}

proof fn lemma_number_from(props: Map<Seq<char>, Val>, names: Seq<&str>, k: int, i: int)
    requires
        0 <= k <= i <= names.len(),
        forall|j: int| 0 <= j < i ==> !props.dom().contains((#[trigger] names[j])@),
    ensures
        number_in(props, names, k) == number_in(props, names, i),
    decreases i - k,
{
    if k < i {
        assert(!props.dom().contains(names[k]@));
        lemma_number_from(props, names, k + 1, i);
    }
}

} // verus!
