//! Maximum flow by shortest augmenting paths.

use vstd::prelude::*;

use crate::csr::{entering, leaving, CsrSnapshot};
use crate::dijkstra::slot_of_edge;
use crate::schema::{EdgeId, NodeId};
use crate::simple_paths::lemma_distinct_bound;
use crate::sums::{
    lemma_sum_ext, lemma_sum_le, lemma_sum_plus, lemma_sum_single, lemma_sum_swap, lemma_sum_zero,
    sum, upto,
};
use crate::weighted::in_row;

verus! {

/// Edges by their ends and capacities; the index is the slot of the edge.
pub struct Network {
    pub tails: Vec<usize>,
    pub heads: Vec<usize>,
    pub caps: Vec<u64>,
}

impl Network {
    /// The lists describe the same edges, between the nodes `0..n`.
    pub open spec fn wf(&self, n: int) -> bool {
        &&& self.heads@.len() == self.tails@.len()
        &&& self.caps@.len() == self.tails@.len()
        &&& forall|k: int| 0 <= k < self.tails@.len() ==> (#[trigger] self.tails@[k]) < n
        &&& forall|k: int| 0 <= k < self.tails@.len() ==> (#[trigger] self.heads@[k]) < n
    }

    /// The number of edges.
    pub open spec fn m(&self) -> nat {
        self.tails@.len()
    }
}

/// The flow that leaves `v`.
pub open spec fn outflow(net: Network, f: Seq<u64>, v: int) -> nat {
    sum(upto(net.m()), leaves(net, f, v))
}

/// The flow that enters `v`.
pub open spec fn inflow(net: Network, f: Seq<u64>, v: int) -> nat {
    sum(upto(net.m()), enters(net, f, v))
}

/// What edge `k` carries out of `v`.
pub open spec fn leaves(net: Network, f: Seq<u64>, v: int) -> spec_fn(int) -> nat {
    |k: int|
        if net.tails@[k] == v {
            f[k] as nat
        } else {
            0
        }
}

/// What edge `k` carries into `v`.
pub open spec fn enters(net: Network, f: Seq<u64>, v: int) -> spec_fn(int) -> nat {
    |k: int|
        if net.heads@[k] == v {
            f[k] as nat
        } else {
            0
        }
}

/// Where a surplus of `b` at `from` and a lack of `b` at `to` show at `v`.
pub open spec fn shift(from: int, to: int, b: int, v: int) -> int {
    (if v == from {
        b
    } else {
        0
    }) - (if v == to {
        b
    } else {
        0
    })
}

/// No edge carries more than its capacity.
pub open spec fn within_caps(net: Network, f: Seq<u64>) -> bool {
    &&& f.len() == net.m()
    &&& forall|k: int| 0 <= k < f.len() ==> #[trigger] f[k] <= net.caps@[k]
}

/// `f` takes `value` units from `s` to `t`: within the capacities, and what
/// enters a node leaves it, but for the two ends.
pub open spec fn is_flow(
    net: Network,
    n: int,
    s: int,
    t: int,
    f: Seq<u64>,
    value: int,
) -> bool {
    &&& within_caps(net, f)
    &&& forall|v: int|
        0 <= v < n ==> #[trigger] outflow(net, f, v) - inflow(net, f, v) == shift(s, t, value, v)
}

/// What the edges out of `side` can carry together.
pub open spec fn cut_capacity(net: Network, side: Set<int>) -> nat {
    sum(upto(net.m()), crossing(net, net.caps@, side))
}

/// What edge `k` carries out of `side`.
pub open spec fn crossing(net: Network, f: Seq<u64>, side: Set<int>) -> spec_fn(int) -> nat {
    |k: int|
        if side.contains(net.tails@[k] as int) && !side.contains(net.heads@[k] as int) {
            f[k] as nat
        } else {
            0
        }
}

/// What edge `k` carries into `side`.
pub open spec fn returning(net: Network, f: Seq<u64>, side: Set<int>) -> spec_fn(int) -> nat {
    |k: int|
        if !side.contains(net.tails@[k] as int) && side.contains(net.heads@[k] as int) {
            f[k] as nat
        } else {
            0
        }
}

/// What edge `k` carries inside `side`.
pub open spec fn staying(net: Network, f: Seq<u64>, side: Set<int>) -> spec_fn(int) -> nat {
    |k: int|
        if side.contains(net.tails@[k] as int) && side.contains(net.heads@[k] as int) {
            f[k] as nat
        } else {
            0
        }
}

/// The flow out of all nodes of `side` is what its edges carry, whether they
/// cross or stay; so is the flow into them.
proof fn lemma_side_flows(net: Network, n: nat, f: Seq<u64>, side: Set<int>)
    requires
        net.wf(n as int),
        f.len() == net.m(),
    ensures
        sum(upto(n), |v: int| if side.contains(v) { outflow(net, f, v) } else { 0 }) == sum(
            upto(net.m()),
            crossing(net, f, side),
        ) + sum(upto(net.m()), staying(net, f, side)),
        sum(upto(n), |v: int| if side.contains(v) { inflow(net, f, v) } else { 0 }) == sum(
            upto(net.m()),
            returning(net, f, side),
        ) + sum(upto(net.m()), staying(net, f, side)),
{
    let ks = upto(net.m());
    let vs = upto(n);
    let out_of = |v: int, k: int|
        if side.contains(v) && net.tails@[k] == v {
            f[k] as nat
        } else {
            0
        };
    let into = |v: int, k: int|
        if side.contains(v) && net.heads@[k] == v {
            f[k] as nat
        } else {
            0
        };
    let by_node_out = |v: int|
        if side.contains(v) {
            outflow(net, f, v)
        } else {
            0
        };
    let by_node_in = |v: int|
        if side.contains(v) {
            inflow(net, f, v)
        } else {
            0
        };
    assert forall|i: int| 0 <= i < vs.len() implies by_node_out(#[trigger] vs[i]) == (|v: int|
        sum(ks, |k: int| out_of(v, k)))(vs[i]) by {
        let v = vs[i];
        if side.contains(v) {
            lemma_sum_ext(ks, leaves(net, f, v), |k: int| out_of(v, k));
        } else {
            lemma_sum_zero(ks, |k: int| out_of(v, k));
        }
    }
    lemma_sum_ext(vs, by_node_out, |v: int| sum(ks, |k: int| out_of(v, k)));
    lemma_sum_swap(vs, ks, out_of);
    assert forall|i: int| 0 <= i < vs.len() implies by_node_in(#[trigger] vs[i]) == (|v: int|
        sum(ks, |k: int| into(v, k)))(vs[i]) by {
        let v = vs[i];
        if side.contains(v) {
            lemma_sum_ext(ks, enters(net, f, v), |k: int| into(v, k));
        } else {
            lemma_sum_zero(ks, |k: int| into(v, k));
        }
    }
    lemma_sum_ext(vs, by_node_in, |v: int| sum(ks, |k: int| into(v, k)));
    lemma_sum_swap(vs, ks, into);
    let col_out = |k: int| sum(vs, |v: int| out_of(v, k));
    let col_in = |k: int| sum(vs, |v: int| into(v, k));
    let c = crossing(net, f, side);
    let r = returning(net, f, side);
    let st = staying(net, f, side);
    assert forall|i: int| 0 <= i < ks.len() implies col_out(#[trigger] ks[i]) == (|k: int|
        c(k) + st(k))(ks[i]) by {
        let k = ks[i];
        lemma_sum_single(n, net.tails@[k] as int, |v: int| out_of(v, k));
    }
    assert forall|i: int| 0 <= i < ks.len() implies col_in(#[trigger] ks[i]) == (|k: int|
        r(k) + st(k))(ks[i]) by {
        let k = ks[i];
        lemma_sum_single(n, net.heads@[k] as int, |v: int| into(v, k));
    }
    lemma_sum_ext(ks, col_out, |k: int| c(k) + st(k));
    lemma_sum_ext(ks, col_in, |k: int| r(k) + st(k));
    lemma_sum_plus(ks, c, st);
    lemma_sum_plus(ks, r, st);
}

/// The value of a flow is what crosses any cut, less what comes back.
pub proof fn lemma_value_crosses(
    net: Network,
    n: nat,
    s: int,
    t: int,
    f: Seq<u64>,
    value: int,
    side: Set<int>,
)
    requires
        net.wf(n as int),
        is_flow(net, n as int, s, t, f, value),
        0 <= s < n,
        side.contains(s),
        !side.contains(t),
    ensures
        sum(upto(net.m()), crossing(net, f, side)) - sum(upto(net.m()), returning(net, f, side))
            == value,
{
    lemma_side_flows(net, n, f, side);
    lemma_side_balance(net, n, n, s, t, f, value, side);
}

/// Over the first `k` nodes, the flow out of a side exceeds the flow into it by
/// the value where the source is among them.
proof fn lemma_side_balance(
    net: Network,
    n: nat,
    k: nat,
    s: int,
    t: int,
    f: Seq<u64>,
    value: int,
    side: Set<int>,
)
    requires
        is_flow(net, n as int, s, t, f, value),
        side.contains(s),
        !side.contains(t),
        0 <= s < n,
        k <= n,
    ensures
        sum(upto(k), |v: int| if side.contains(v) { outflow(net, f, v) } else { 0 }) - sum(
            upto(k),
            |v: int| if side.contains(v) { inflow(net, f, v) } else { 0 },
        ) == (if s < k {
            value
        } else {
            0
        }),
    decreases k,
{
    if k > 0 {
        let j = (k - 1) as nat;
        assert(upto(k).drop_last() =~= upto(j));
        assert(upto(k).last() == j as int);
        lemma_side_balance(net, n, j, s, t, f, value, side);
        assert(outflow(net, f, j as int) - inflow(net, f, j as int) == shift(
            s,
            t,
            value,
            j as int,
        ));
    }
}

/// No flow carries more than a cut can.
pub proof fn lemma_flow_below_cut(
    net: Network,
    n: nat,
    s: int,
    t: int,
    f: Seq<u64>,
    value: int,
    side: Set<int>,
)
    requires
        net.wf(n as int),
        is_flow(net, n as int, s, t, f, value),
        0 <= s < n,
        side.contains(s),
        !side.contains(t),
    ensures
        value <= cut_capacity(net, side),
{
    lemma_value_crosses(net, n, s, t, f, value, side);
    lemma_sum_le(upto(net.m()), crossing(net, f, side), crossing(net, net.caps@, side));
}

/// Where nothing more can leave a side and nothing comes back into it, the flow
/// carries what the cut can.
proof fn lemma_saturated(
    net: Network,
    n: nat,
    s: int,
    t: int,
    f: Seq<u64>,
    value: int,
    side: Set<int>,
)
    requires
        net.wf(n as int),
        is_flow(net, n as int, s, t, f, value),
        0 <= s < n,
        side.contains(s),
        !side.contains(t),
        forall|k: int|
            0 <= k < net.m() && side.contains((#[trigger] net.tails@[k]) as int) && !side.contains(
                net.heads@[k] as int,
            ) ==> f[k] == net.caps@[k],
        forall|k: int|
            0 <= k < net.m() && !side.contains((#[trigger] net.tails@[k]) as int) && side.contains(
                net.heads@[k] as int,
            ) ==> f[k] == 0,
    ensures
        value == cut_capacity(net, side),
{
    lemma_value_crosses(net, n, s, t, f, value, side);
    let ks = upto(net.m());
    assert forall|i: int| 0 <= i < ks.len() implies crossing(net, f, side)(#[trigger] ks[i])
        == crossing(net, net.caps@, side)(ks[i]) by {
        assert(net.tails@[ks[i]] == net.tails@[i]);
    }
    lemma_sum_ext(ks, crossing(net, f, side), crossing(net, net.caps@, side));
    assert forall|i: int| 0 <= i < ks.len() implies returning(net, f, side)(#[trigger] ks[i])
        == 0 by {
        assert(net.tails@[ks[i]] == net.tails@[i]);
    }
    lemma_sum_zero(ks, returning(net, f, side));
}

/// Changing what one edge carries changes the flow at its two ends alone.
proof fn lemma_change_edge(net: Network, n: int, f: Seq<u64>, k: int, x: u64, v: int)
    requires
        net.wf(n),
        f.len() == net.m(),
        0 <= k < f.len(),
    ensures
        outflow(net, f.update(k, x), v) == outflow(net, f, v) + (if net.tails@[k] == v {
            x - f[k]
        } else {
            0
        }),
        inflow(net, f.update(k, x), v) == inflow(net, f, v) + (if net.heads@[k] == v {
            x - f[k]
        } else {
            0
        }),
{
    lemma_change_term(net.m(), leaves(net, f, v), leaves(net, f.update(k, x), v), k);
    lemma_change_term(net.m(), enters(net, f, v), enters(net, f.update(k, x), v), k);
}

proof fn lemma_change_term(m: nat, f: spec_fn(int) -> nat, g: spec_fn(int) -> nat, k: int)
    requires
        0 <= k < m,
        forall|i: int| 0 <= i < m && i != k ==> #[trigger] f(i) == g(i),
    ensures
        sum(upto(m), g) == sum(upto(m), f) + g(k) - f(k),
    decreases m,
{
    let s = upto(m);
    assert(s.drop_last() =~= upto((m - 1) as nat));
    assert(s.last() == m - 1);
    if k == m - 1 {
        lemma_sum_ext(s.drop_last(), f, g);
    } else {
        lemma_change_term((m - 1) as nat, f, g, k);
        assert(f(m - 1) == g(m - 1));
    }
}

/// How much more edge `k` can carry, forwards or by taking back.
pub open spec fn residual(net: Network, f: Seq<u64>, k: int, forward: bool) -> int {
    if forward {
        net.caps@[k] - f[k]
    } else {
        f[k] as int
    }
}

/// Where edge `k` is entered from, forwards or backwards.
pub open spec fn entry(net: Network, k: int, forward: bool) -> int {
    if forward {
        net.tails@[k] as int
    } else {
        net.heads@[k] as int
    }
}

/// Where edge `k` leads to, forwards or backwards.
pub open spec fn exit(net: Network, k: int, forward: bool) -> int {
    if forward {
        net.heads@[k] as int
    } else {
        net.tails@[k] as int
    }
}

/// A breadth-first search through edges that can carry more: the nodes in the
/// order of their discovery, and the edge that each was discovered by.
pub struct Search {
    pub queue: Vec<usize>,
    pub seen: Vec<bool>,
    pub slot: Vec<usize>,
    pub forward: Vec<bool>,
}

impl Search {
    /// Every node but the first was discovered through an edge that can carry
    /// more, from a node that was discovered before it.
    pub open spec fn wf(&self, net: Network, n: int, s: int, f: Seq<u64>) -> bool {
        &&& self.seen@.len() == n
        &&& self.slot@.len() == n
        &&& self.forward@.len() == n
        &&& self.queue@.len() > 0
        &&& self.queue@[0] == s
        &&& forall|i: int| 0 <= i < self.queue@.len() ==> (#[trigger] self.queue@[i]) < n
        &&& forall|i: int, j: int|
            0 <= i < j < self.queue@.len() ==> self.queue@[i] != self.queue@[j]
        &&& forall|v: int|
            0 <= v < n ==> (#[trigger] self.seen@[v] <==> self.queue@.contains(v as usize))
        &&& forall|i: int|
            0 < i < self.queue@.len() ==> self.reached(net, f, (#[trigger] self.queue@[i]) as int, i)
    }

    /// `v`, at position `i`, was discovered through its edge from an earlier position.
    #[verifier::opaque]
    pub open spec fn reached(&self, net: Network, f: Seq<u64>, v: int, i: int) -> bool {
        let k = self.slot@[v] as int;
        let fw = self.forward@[v];
        &&& 0 <= k < net.m()
        &&& exit(net, k, fw) == v
        &&& residual(net, f, k, fw) > 0
        &&& exists|j: int| 0 <= j < i && #[trigger] self.queue@[j] == entry(net, k, fw)
    }
}

/// Everything that can carry more out of the first `done` nodes leads to a seen node.
pub open spec fn explored(net: Network, f: Seq<u64>, search: Search, done: int) -> bool {
    forall|i: int, k: int, fw: bool|
        #![trigger search.queue@[i], residual(net, f, k, fw)]
        0 <= i < done && 0 <= k < net.m() && entry(net, k, fw) == search.queue@[i] && residual(
            net,
            f,
            k,
            fw,
        ) > 0 ==> search.seen@[exit(net, k, fw)]
}

/// The edges of a snapshot as a network, and the slots of the incoming edges of
/// each node.
pub open spec fn describes(snap: CsrSnapshot, net: Network, in_slot: Seq<usize>) -> bool {
    &&& net.wf(snap.n() as int)
    &&& net.m() == snap.edges@.len()
    &&& in_slot.len() == net.m()
    &&& forall|u: int, k: int|
        #![trigger in_row(snap, u, k)]
        0 <= u < snap.n() && in_row(snap, u, k) ==> net.tails@[k] == u && net.heads@[k]
            == snap.col_idx@[k]
    &&& forall|v: int, j: int|
        #![trigger snap.in_row_ptr@[v], in_slot[j]]
        0 <= v < snap.n() && snap.in_row_ptr@[v] <= j < snap.in_row_ptr@[v + 1] ==> in_slot[j]
            < net.m() && net.heads@[in_slot[j] as int] == v
    &&& forall|k: int|
        0 <= k < net.m() ==> in_row(snap, (#[trigger] net.tails@[k]) as int, k) && listed_in(
            snap,
            net,
            in_slot,
            k,
        )
}

/// Edge `k` is listed among the incoming edges of its head.
pub open spec fn listed_in(snap: CsrSnapshot, net: Network, in_slot: Seq<usize>, k: int) -> bool {
    exists|j: int|
        snap.in_row_ptr@[net.heads@[k] as int] <= j < snap.in_row_ptr@[net.heads@[k] + 1]
            && #[trigger] in_slot[j] == k
}

/// The edge at slot `k` of row `u`, and its position in the edge table.
pub proof fn lemma_slot_edge(snap: CsrSnapshot, u: int, k: int) -> (i: int)
    requires
        snap.wf(),
        0 <= u < snap.n(),
        in_row(snap, u, k),
    ensures
        0 <= i < snap.edges@.len(),
        snap.edges@[i].src == u,
        snap.edges@[i].dst == snap.col_idx@[k],
        snap.edges@[i].id == snap.edge_id@[k],
{
    let row = snap.out_row(u);
    let e = row[k - snap.row_ptr@[u]];
    assert(row == snap.edges@.filter(leaving(u)));
    assert(row.contains(e));
    snap.edges@.lemma_filter_contains_rev(leaving(u), e);
    choose|i: int| 0 <= i < snap.edges@.len() && snap.edges@[i] == e
}

/// The edge at slot `j` of the transposed row `v`, and its position in the edge table.
proof fn lemma_in_slot_edge(snap: CsrSnapshot, v: int, j: int) -> (i: int)
    requires
        snap.wf(),
        0 <= v < snap.n(),
        snap.in_row_ptr@[v] <= j < snap.in_row_ptr@[v + 1],
    ensures
        0 <= i < snap.edges@.len(),
        snap.edges@[i].src == snap.in_col_idx@[j],
        snap.edges@[i].dst == v,
        snap.edges@[i].id == snap.in_edge_id@[j],
{
    let row = snap.in_row(v);
    let e = row[j - snap.in_row_ptr@[v]];
    assert(row == snap.edges@.filter(entering(v)));
    assert(row.contains(e));
    snap.edges@.lemma_filter_contains_rev(entering(v), e);
    choose|i: int| 0 <= i < snap.edges@.len() && snap.edges@[i] == e
}

/// The slot of edge `i` in the row of its source.
pub proof fn lemma_edge_slot(snap: CsrSnapshot, i: int) -> (k: int)
    requires
        snap.wf(),
        0 <= i < snap.edges@.len(),
    ensures
        in_row(snap, snap.edges@[i].src, k),
        snap.edge_id@[k] == snap.edges@[i].id,
        snap.col_idx@[k] == snap.edges@[i].dst,
{
    let u = snap.edges@[i].src;
    assert(0 <= u < snap.n());
    let row = snap.out_row(u);
    assert(row == snap.edges@.filter(leaving(u)));
    snap.edges@.lemma_filter_contains(leaving(u), i);
    let j = choose|j: int| 0 <= j < row.len() && row[j] == snap.edges@[i];
    snap.row_ptr@[u] + j
}

/// The slot of edge `i` in the transposed row of its destination.
proof fn lemma_edge_in_slot(snap: CsrSnapshot, i: int) -> (j: int)
    requires
        snap.wf(),
        0 <= i < snap.edges@.len(),
    ensures
        snap.in_row_ptr@[snap.edges@[i].dst] <= j < snap.in_row_ptr@[snap.edges@[i].dst + 1],
        snap.in_edge_id@[j] == snap.edges@[i].id,
        snap.in_col_idx@[j] == snap.edges@[i].src,
{
    let v = snap.edges@[i].dst;
    assert(0 <= v < snap.n());
    let row = snap.in_row(v);
    assert(row == snap.edges@.filter(entering(v)));
    snap.edges@.lemma_filter_contains(entering(v), i);
    let j = choose|j: int| 0 <= j < row.len() && row[j] == snap.edges@[i];
    snap.in_row_ptr@[v] + j
}

/// Every slot belongs to the row of its owner.
pub fn slot_owners(snap: &CsrSnapshot) -> (tails: Vec<usize>)
    requires
        snap.wf(),
    ensures
        tails@.len() == snap.edges@.len(),
        forall|k: int|
            0 <= k < tails@.len() ==> (#[trigger] tails@[k]) < snap.n() && in_row(
                *snap,
                tails@[k] as int,
                k,
            ),
        forall|u: int, k: int|
            #![trigger in_row(*snap, u, k)]
            0 <= u < snap.n() && in_row(*snap, u, k) ==> tails@[k] == u,
{
    let n: usize = snap.dense_to_id.len();
    let mut tails: Vec<usize> = Vec::new();
    let mut u: usize = 0;
    while u < n
        invariant
            snap.wf(),
            n == snap.n(),
            u <= n,
            tails@.len() == snap.row_ptr@[u as int],
            forall|k: int|
                0 <= k < tails@.len() ==> (#[trigger] tails@[k]) < u && in_row(
                    *snap,
                    tails@[k] as int,
                    k,
                ),
            forall|w: int, k: int|
                #![trigger in_row(*snap, w, k)]
                0 <= w < u && in_row(*snap, w, k) ==> k < tails@.len() && tails@[k] == w,
        decreases n - u,
    {
        let hi: usize = snap.row_ptr[u + 1];
        let ghost before = tails@;
        while tails.len() < hi
            invariant
                snap.wf(),
                n == snap.n(),
                u < n,
                hi == snap.row_ptr@[u + 1],
                before.len() == snap.row_ptr@[u as int],
                before.len() <= tails@.len() <= hi,
                forall|k: int| 0 <= k < before.len() ==> #[trigger] tails@[k] == before[k],
                forall|k: int| before.len() <= k < tails@.len() ==> #[trigger] tails@[k] == u,
            decreases hi - tails@.len(),
        {
            tails.push(u);
        }
        proof {
            assert forall|k: int| 0 <= k < tails@.len() implies (#[trigger] tails@[k]) < u + 1
                && in_row(*snap, tails@[k] as int, k) by {
                if k < before.len() {
                    assert(before[k] < u && in_row(*snap, before[k] as int, k));
                }
            }
            assert forall|w: int, k: int|
                #![trigger in_row(*snap, w, k)]
                0 <= w < u + 1 && in_row(*snap, w, k) implies k < tails@.len() && tails@[k]
                == w by {
                if w < u {
                    assert(before[k] == w);
                }
            }
        }
        u = u + 1;
    }
    tails
}

/// The network of a snapshot whose slot `k` has capacity `caps[k]`.
#[verifier::rlimit(60)]
#[verifier::spinoff_prover]
fn build_network(snap: &CsrSnapshot, caps: &Vec<u64>) -> (r: (Network, Vec<usize>))
    requires
        snap.wf(),
        caps@.len() == snap.edges@.len(),
    ensures
        describes(*snap, r.0, r.1@),
        r.0.caps@ == caps@,
{
    let n: usize = snap.dense_to_id.len();
    let m: usize = snap.col_idx.len();
    let tails: Vec<usize> = slot_owners(snap);
    let mut heads: Vec<usize> = Vec::new();
    while heads.len() < m
        invariant
            snap.wf(),
            m == snap.edges@.len(),
            heads@.len() <= m,
            forall|k: int| 0 <= k < heads@.len() ==> #[trigger] heads@[k] == snap.col_idx@[k],
        decreases m - heads@.len(),
    {
        let k: usize = heads.len();
        heads.push(snap.col_idx[k] as usize);
    }
    let mut in_slot: Vec<usize> = Vec::new();
    let mut v: usize = 0;
    while v < n
        invariant
            snap.wf(),
            n == snap.n(),
            m == snap.edges@.len(),
            tails@.len() == m,
            forall|u: int, k: int|
                #![trigger in_row(*snap, u, k)]
                0 <= u < snap.n() && in_row(*snap, u, k) ==> tails@[k] == u,
            v <= n,
            in_slot@.len() == snap.in_row_ptr@[v as int],
            forall|w: int, j: int|
                #![trigger snap.in_row_ptr@[w], in_slot@[j]]
                0 <= w < v && snap.in_row_ptr@[w] <= j < snap.in_row_ptr@[w + 1] ==> in_slot@[j]
                    < m && in_row(*snap, snap.in_col_idx@[j] as int, in_slot@[j] as int)
                    && snap.edge_id@[in_slot@[j] as int] == snap.in_edge_id@[j]
                    && snap.col_idx@[in_slot@[j] as int] == w,
        decreases n - v,
    {
        let hi: usize = snap.in_row_ptr[v + 1];
        let ghost before = in_slot@;
        while in_slot.len() < hi
            invariant
                snap.wf(),
                n == snap.n(),
                m == snap.edges@.len(),
                v < n,
                hi == snap.in_row_ptr@[v + 1],
                before.len() == snap.in_row_ptr@[v as int],
                before.len() <= in_slot@.len() <= hi,
                forall|j: int| 0 <= j < before.len() ==> #[trigger] in_slot@[j] == before[j],
                forall|j: int|
                    before.len() <= j < in_slot@.len() ==> (#[trigger] in_slot@[j]) < m && in_row(
                        *snap,
                        snap.in_col_idx@[j] as int,
                        in_slot@[j] as int,
                    ) && snap.edge_id@[in_slot@[j] as int] == snap.in_edge_id@[j]
                        && snap.col_idx@[in_slot@[j] as int] == v,
            decreases hi - in_slot@.len(),
        {
            let j: usize = in_slot.len();
            let u: usize = snap.in_col_idx[j] as usize;
            let id: EdgeId = snap.in_edge_id[j];
            let ghost i = 0int;
            proof {
                i = lemma_in_slot_edge(*snap, v as int, j as int);
                let k = lemma_edge_slot(*snap, i);
                assert(in_row(*snap, u as int, k));
            }
            match slot_of_edge(snap, u, id) {
                Some(k) => {
                    proof {
                        let x = lemma_slot_edge(*snap, u as int, k as int);
                        assert(x == i);
                        assert(snap.row_ptr@[u + 1] <= m);
                    }
                    in_slot.push(k);
                },
                None => {
                    in_slot.push(0);
                },
            }
        }
        proof {
            assert forall|w: int, j: int|
                #![trigger snap.in_row_ptr@[w], in_slot@[j]]
                0 <= w < v + 1 && snap.in_row_ptr@[w] <= j < snap.in_row_ptr@[w + 1] implies
                in_slot@[j] < m && in_row(
                *snap,
                snap.in_col_idx@[j] as int,
                in_slot@[j] as int,
            ) && snap.edge_id@[in_slot@[j] as int] == snap.in_edge_id@[j]
                && snap.col_idx@[in_slot@[j] as int] == w by {
                if w < v {
                    lemma_bounds_ascend(snap.in_row_ptr@, n as int, m as int, w + 1, v as int);
                    assert(in_slot@[j] == before[j]);
                }
            }
        }
        v = v + 1;
    }
    let copy: Vec<u64> = caps.clone();
    assert(copy@ =~= caps@);
    let net = Network { tails, heads, caps: copy };
    proof {
        assert forall|k: int| 0 <= k < net.m() implies in_row(
            *snap,
            (#[trigger] net.tails@[k]) as int,
            k,
        ) && listed_in(*snap, net, in_slot@, k) by {
            let i = lemma_slot_edge(*snap, net.tails@[k] as int, k);
            let j = lemma_edge_in_slot(*snap, i);
            let v = net.heads@[k] as int;
            assert(snap.in_row_ptr@[v] <= j < snap.in_row_ptr@[v + 1]);
            let q = in_slot@[j] as int;
            let x = lemma_slot_edge(*snap, snap.in_col_idx@[j] as int, q);
            assert(x == i);
            lemma_slot_by_id(*snap, net.tails@[k] as int, k, q);
        }
        assert forall|u: int, k: int|
            #![trigger in_row(*snap, u, k)]
            0 <= u < snap.n() && in_row(*snap, u, k) implies net.tails@[k] == u && net.heads@[k]
            == snap.col_idx@[k] by {
            assert(snap.row_ptr@[u + 1] <= m);
        }
        assert forall|k: int| 0 <= k < net.m() implies (#[trigger] net.heads@[k]) < snap.n() by {
            assert(snap.col_idx@[k] < snap.n());
        }
        assert forall|w: int, j: int|
            #![trigger snap.in_row_ptr@[w], in_slot@[j]]
            0 <= w < snap.n() && snap.in_row_ptr@[w] <= j < snap.in_row_ptr@[w + 1] implies
            in_slot@[j] < net.m() && net.heads@[in_slot@[j] as int] == w by {}
        assert(net.wf(snap.n() as int));
        assert(describes(*snap, net, in_slot@));
    }
    (net, in_slot)
}

/// Row boundaries ascend.
proof fn lemma_bounds_ascend(ptr: Seq<usize>, n: int, m: int, a: int, b: int)
    requires
        crate::csr::row_bounds(ptr, n, m),
        0 <= a <= b <= n,
    ensures
        ptr[a] <= ptr[b],
    decreases b - a,
{
    if a < b {
        lemma_bounds_ascend(ptr, n, m, a, b - 1);
        assert(ptr[b - 1] <= ptr[b - 1 + 1]);
    }
}

/// A slot belongs to one row.
pub proof fn lemma_one_owner(snap: CsrSnapshot, u: int, w: int, k: int)
    requires
        snap.wf(),
        0 <= u < snap.n(),
        0 <= w < snap.n(),
        in_row(snap, u, k),
        in_row(snap, w, k),
    ensures
        u == w,
{
    let n = snap.n() as int;
    let m = snap.edges@.len() as int;
    if u < w {
        lemma_bounds_ascend(snap.row_ptr@, n, m, u + 1, w);
    } else if w < u {
        lemma_bounds_ascend(snap.row_ptr@, n, m, w + 1, u);
    }
}

/// In a row an edge id stands once.
proof fn lemma_slot_by_id(snap: CsrSnapshot, u: int, k: int, q: int)
    requires
        snap.wf(),
        0 <= u < snap.n(),
        in_row(snap, u, k),
        in_row(snap, u, q),
        snap.edge_id@[k] == snap.edge_id@[q],
    ensures
        k == q,
{
    crate::dijkstra::lemma_filter_ascending(snap.edges@, leaving(u));
    let row = snap.out_row(u);
    let a = k - snap.row_ptr@[u];
    let b = q - snap.row_ptr@[u];
    assert(row[a].id == row[b].id);
    if a < b {
        assert(row[a].id < row[b].id);
    } else if b < a {
        assert(row[b].id < row[a].id);
    }
}

/// Notes the end of an edge that can carry more.
fn discover(
    net: &Network,
    n: Ghost<int>,
    s: Ghost<int>,
    f: &Vec<u64>,
    search: &mut Search,
    at: Ghost<int>,
    v: usize,
    k: usize,
    fw: bool,
)
    requires
        net.wf(n@),
        f@.len() == net.m(),
        old(search).wf(*net, n@, s@, f@),
        0 <= at@ < old(search).queue@.len(),
        k < net.m(),
        exit(*net, k as int, fw) == v,
        entry(*net, k as int, fw) == old(search).queue@[at@],
        v < n@,
    ensures
        final(search).wf(*net, n@, s@, f@),
        old(search).queue@.is_prefix_of(final(search).queue@),
        residual(*net, f@, k as int, fw) > 0 ==> final(search).seen@[v as int],
        forall|x: int|
            0 <= x < n@ && #[trigger] old(search).seen@[x] ==> final(search).seen@[x],
{
    let ghost before = *search;
    let room: bool = if fw {
        f[k] < net.caps[k]
    } else {
        f[k] > 0
    };
    if room && !search.seen[v] {
        search.seen.set(v, true);
        search.slot.set(v, k);
        search.forward.set(v, fw);
        search.queue.push(v);
        proof {
            reveal(Search::reached);
            assert(!before.queue@.contains(v));
            assert(n@ <= usize::MAX) by {
                assert(search.seen.len() == n@);
            }
            let q = search.queue@;
            assert(q[before.queue@.len() as int] == v);
            assert forall|i: int| 0 < i < q.len() implies search.reached(
                *net,
                f@,
                (#[trigger] q[i]) as int,
                i,
            ) by {
                if i < before.queue@.len() {
                    let x = before.queue@[i] as int;
                    assert(x != v) by {
                        assert(before.queue@.contains(before.queue@[i]));
                    }
                    assert(before.reached(*net, f@, x, i));
                    let ex = before.slot@[x] as int;
                    let j = choose|j: int|
                        0 <= j < i && #[trigger] before.queue@[j] == entry(
                            *net,
                            ex,
                            before.forward@[x],
                        );
                    assert(search.queue@[j] == before.queue@[j]);
                } else {
                    assert(search.queue@[at@] == before.queue@[at@]);
                }
            }
            assert forall|x: int| 0 <= x < n@ implies (#[trigger] search.seen@[x] <==> q.contains(
                x as usize,
            )) by {
                if before.queue@.contains(x as usize) {
                    let i = choose|i: int|
                        0 <= i < before.queue@.len() && before.queue@[i] == x as usize;
                    assert(q[i] == x as usize);
                }
                if q.contains(x as usize) && x != v {
                    let i = choose|i: int| 0 <= i < q.len() && q[i] == x as usize;
                    assert(before.queue@[i] == x as usize);
                }
                assert(before.seen@[x] <==> before.queue@.contains(x as usize));
            }
            assert forall|i: int, j: int| 0 <= i < j < q.len() implies q[i] != q[j] by {
                if j == before.queue@.len() {
                    assert(before.queue@.contains(before.queue@[i]));
                }
            }
            assert(before.queue@ =~= q.subrange(0, before.queue@.len() as int));
        }
    } else {
        assert(before.queue@ =~= search.queue@.subrange(0, before.queue@.len() as int));
    }
}

/// Searches from `s` through edges that can carry more.
fn find_room(
    snap: &CsrSnapshot,
    net: &Network,
    in_slot: &Vec<usize>,
    s: usize,
    f: &Vec<u64>,
) -> (search: Search)
    requires
        snap.wf(),
        describes(*snap, *net, in_slot@),
        within_caps(*net, f@),
        s < snap.n(),
    ensures
        search.wf(*net, snap.n() as int, s as int, f@),
        explored(*net, f@, search, search.queue@.len() as int),
{
    let n: usize = snap.dense_to_id.len();
    let mut search = Search {
        queue: vec![s],
        seen: vec![false; n],
        slot: vec![0usize; n],
        forward: vec![false; n],
    };
    search.seen.set(s, true);
    proof {
        assert(search.queue@ =~= seq![s]);
        assert forall|v: int| 0 <= v < n implies (#[trigger] search.seen@[v]
            <==> search.queue@.contains(v as usize)) by {
            assert(search.queue@[0] == s);
        }
    }
    let mut done: usize = 0;
    while done < search.queue.len()
        invariant
            snap.wf(),
            n == snap.n(),
            describes(*snap, *net, in_slot@),
            within_caps(*net, f@),
            search.wf(*net, n as int, s as int, f@),
            done <= search.queue@.len(),
            explored(*net, f@, search, done as int),
        decreases n - done,
    {
        let u: usize = search.queue[done];
        proof {
            lemma_queue_bound(search, *net, n as int, s as int, f@);
        }
        let lo: usize = snap.row_ptr[u];
        let hi: usize = snap.row_ptr[u + 1];
        let mut k: usize = lo;
        while k < hi
            invariant
                snap.wf(),
                n == snap.n(),
                describes(*snap, *net, in_slot@),
                within_caps(*net, f@),
                search.wf(*net, n as int, s as int, f@),
                done < search.queue@.len(),
                search.queue@[done as int] == u,
                explored(*net, f@, search, done as int),
                u < n,
                lo == snap.row_ptr@[u as int],
                hi == snap.row_ptr@[u + 1],
                lo <= k <= hi <= net.m(),
                forall|q: int|
                    #![trigger residual(*net, f@, q, true)]
                    lo <= q < k && residual(*net, f@, q, true) > 0 ==> search.seen@[exit(
                        *net,
                        q,
                        true,
                    )],
            decreases hi - k,
        {
            let ghost before = search;
            proof {
                assert(in_row(*snap, u as int, k as int));
            }
            let v: usize = net.heads[k];
            discover(
                net,
                Ghost(n as int),
                Ghost(s as int),
                f,
                &mut search,
                Ghost(done as int),
                v,
                k,
                true,
            );
            proof {
                lemma_explored_keeps(*net, n as int, s as int, f@, before, search, done as int);
                assert forall|q: int|
                    #![trigger residual(*net, f@, q, true)]
                    lo <= q < k + 1 && residual(*net, f@, q, true) > 0 implies search.seen@[exit(
                    *net,
                    q,
                    true,
                )] by {
                    if q < k {
                        assert(before.seen@[exit(*net, q, true)]);
                    }
                }
                assert(before.queue@[done as int] == search.queue@.subrange(
                    0,
                    before.queue@.len() as int,
                )[done as int]);
            }
            k = k + 1;
        }
        let from: usize = snap.in_row_ptr[u];
        let to: usize = snap.in_row_ptr[u + 1];
        let mut j: usize = from;
        while j < to
            invariant
                snap.wf(),
                n == snap.n(),
                describes(*snap, *net, in_slot@),
                within_caps(*net, f@),
                search.wf(*net, n as int, s as int, f@),
                done < search.queue@.len(),
                search.queue@[done as int] == u,
                explored(*net, f@, search, done as int),
                u < n,
                lo == snap.row_ptr@[u as int],
                hi == snap.row_ptr@[u + 1],
                from == snap.in_row_ptr@[u as int],
                to == snap.in_row_ptr@[u + 1],
                from <= j <= to <= net.m(),
                forall|q: int|
                    #![trigger residual(*net, f@, q, true)]
                    lo <= q < hi && residual(*net, f@, q, true) > 0 ==> search.seen@[exit(
                        *net,
                        q,
                        true,
                    )],
                forall|q: int|
                    from <= q < j && residual(
                        *net,
                        f@,
                        (#[trigger] in_slot@[q]) as int,
                        false,
                    ) > 0 ==> search.seen@[exit(*net, in_slot@[q] as int, false)],
            decreases to - j,
        {
            let ghost before = search;
            let k: usize = in_slot[j];
            proof {
                assert(snap.in_row_ptr@[u as int] <= j);
                assert(k < net.m() && net.heads@[k as int] == u);
            }
            let v: usize = net.tails[k];
            discover(
                net,
                Ghost(n as int),
                Ghost(s as int),
                f,
                &mut search,
                Ghost(done as int),
                v,
                k,
                false,
            );
            proof {
                lemma_explored_keeps(*net, n as int, s as int, f@, before, search, done as int);
                assert forall|q: int|
                    #![trigger residual(*net, f@, q, true)]
                    lo <= q < hi && residual(*net, f@, q, true) > 0 implies search.seen@[exit(
                    *net,
                    q,
                    true,
                )] by {
                    assert(before.seen@[exit(*net, q, true)]);
                }
                assert forall|q: int|
                    from <= q < j + 1 && residual(
                        *net,
                        f@,
                        (#[trigger] in_slot@[q]) as int,
                        false,
                    ) > 0 implies search.seen@[exit(*net, in_slot@[q] as int, false)] by {
                    if q < j {
                        assert(snap.in_row_ptr@[u as int] <= q);
                        assert(in_slot@[q] < net.m());
                        assert(before.seen@[exit(*net, in_slot@[q] as int, false)]);
                    }
                }
                assert(before.queue@[done as int] == search.queue@.subrange(
                    0,
                    before.queue@.len() as int,
                )[done as int]);
            }
            j = j + 1;
        }
        proof {
            assert forall|i: int, k: int, fw: bool|
                #![trigger search.queue@[i], residual(*net, f@, k, fw)]
                0 <= i < done + 1 && 0 <= k < net.m() && entry(*net, k, fw) == search.queue@[i]
                    && residual(*net, f@, k, fw) > 0 implies search.seen@[exit(*net, k, fw)] by {
                if i == done {
                    assert(in_row(*snap, net.tails@[k] as int, k));
                    if fw {
                        assert(lo <= k < hi);
                    } else {
                        assert(listed_in(*snap, *net, in_slot@, k));
                        let q = choose|q: int|
                            snap.in_row_ptr@[net.heads@[k] as int] <= q
                                < snap.in_row_ptr@[net.heads@[k] + 1] && #[trigger] in_slot@[q]
                                == k;
                        assert(from <= q < to);
                    }
                }
            }
        }
        done = done + 1;
    }
    search
}

proof fn lemma_queue_bound(search: Search, net: Network, n: int, s: int, f: Seq<u64>)
    requires
        search.wf(net, n, s, f),
        n >= 0,
    ensures
        search.queue@.len() <= n,
{
    let q = search.queue@.map_values(|v: usize| v as int);
    assert forall|i: int| 0 <= i < q.len() implies 0 <= #[trigger] q[i] < n by {
        assert(search.queue@[i] < n);
    }
    assert(q.no_duplicates()) by {
        assert forall|i: int, j: int| 0 <= i < q.len() && 0 <= j < q.len() && i != j implies q[i]
            != q[j] by {
            if i < j {
                assert(search.queue@[i] != search.queue@[j]);
            } else {
                assert(search.queue@[j] != search.queue@[i]);
            }
        }
    }
    lemma_distinct_bound(q, n as nat);
}

/// What is explored stays explored while more is discovered.
proof fn lemma_explored_keeps(
    net: Network,
    n: int,
    s: int,
    f: Seq<u64>,
    before: Search,
    after: Search,
    done: int,
)
    requires
        net.wf(n),
        before.wf(net, n, s, f),
        after.wf(net, n, s, f),
        explored(net, f, before, done),
        0 <= done <= before.queue@.len(),
        before.queue@.is_prefix_of(after.queue@),
        forall|x: int| 0 <= x < n && #[trigger] before.seen@[x] ==> after.seen@[x],
    ensures
        explored(net, f, after, done),
{
    assert forall|i: int, k: int, fw: bool|
        #![trigger after.queue@[i], residual(net, f, k, fw)]
        0 <= i < done && 0 <= k < net.m() && entry(net, k, fw) == after.queue@[i] && residual(
            net,
            f,
            k,
            fw,
        ) > 0 implies after.seen@[exit(net, k, fw)] by {
        assert(before.queue@[i] == after.queue@.subrange(0, before.queue@.len() as int)[i]);
        assert(before.seen@[exit(net, k, fw)]);
    }
}

/// A chain of discovered nodes, each discovered from the next one, the last from `s`.
pub open spec fn is_chain(
    net: Network,
    search: Search,
    s: int,
    t: int,
    chain: Seq<usize>,
    pos: Seq<int>,
) -> bool {
    &&& chain.len() > 0
    &&& chain[0] == t
    &&& pos.len() == chain.len()
    &&& forall|i: int|
        0 <= i < chain.len() ==> 0 < #[trigger] pos[i] < search.queue@.len()
            && search.queue@[pos[i]] == chain[i]
    &&& forall|i: int, j: int| 0 <= i < j < pos.len() ==> pos[j] < pos[i]
    &&& forall|i: int|
        0 <= i < chain.len() ==> before_it(net, search, #[trigger] chain[i] as int) == (if i + 1
            < chain.len() {
            chain[i + 1] as int
        } else {
            s
        })
}

/// The node that `v` was discovered from.
pub open spec fn before_it(net: Network, search: Search, v: int) -> int {
    entry(net, search.slot@[v] as int, search.forward@[v])
}

/// How much more the edge that `v` was discovered by can carry.
pub open spec fn room_at(net: Network, search: Search, f: Seq<u64>, v: int) -> int {
    residual(net, f, search.slot@[v] as int, search.forward@[v])
}

/// The chain from `t` back to `s`, and the most that all its edges can carry.
fn trace_back(
    net: &Network,
    n: Ghost<int>,
    f: &Vec<u64>,
    search: &Search,
    s: usize,
    t: usize,
) -> (r: (Vec<usize>, u64))
    requires
        net.wf(n@),
        within_caps(*net, f@),
        search.wf(*net, n@, s as int, f@),
        t < n@,
        s < n@,
        s != t,
        search.seen@[t as int],
    ensures
        r.1 > 0,
        exists|pos: Seq<int>| is_chain(*net, *search, s as int, t as int, r.0@, pos),
        forall|i: int|
            0 <= i < r.0@.len() ==> room_at(*net, *search, f@, #[trigger] r.0@[i] as int) >= r.1,
        forall|i: int|
            0 <= i < r.0@.len() ==> search.slot@[#[trigger] r.0@[i] as int] < net.m()
                && r.0@[i] < n@ && exit(
                *net,
                search.slot@[r.0@[i] as int] as int,
                search.forward@[r.0@[i] as int],
            ) == r.0@[i],
{
    let mut chain: Vec<usize> = Vec::new();
    let mut least: u64 = u64::MAX;
    let mut cur: usize = t;
    let ghost mut at: int = choose|i: int|
        0 <= i < search.queue@.len() && search.queue@[i] == t;
    let ghost mut pos: Seq<int> = Seq::empty();
    proof {
        assert(search.queue@.contains(t as usize));
        reveal(Search::reached);
    }
    while cur != s
        invariant
            net.wf(n@),
            within_caps(*net, f@),
            search.wf(*net, n@, s as int, f@),
            cur < n@,
            0 <= at < search.queue@.len(),
            search.queue@[at] == cur,
            least > 0,
            chain@.len() == 0 ==> cur == t,
            chain@.len() > 0 ==> chain@[0] == t && before_it(
                *net,
                *search,
                chain@.last() as int,
            ) == cur && at < pos.last(),
            pos.len() == chain@.len(),
            forall|i: int|
                0 <= i < chain@.len() ==> 0 < #[trigger] pos[i] < search.queue@.len()
                    && search.queue@[pos[i]] == chain@[i],
            forall|i: int, j: int| 0 <= i < j < pos.len() ==> pos[j] < pos[i],
            forall|i: int|
                0 <= i < chain@.len() - 1 ==> before_it(
                    *net,
                    *search,
                    #[trigger] chain@[i] as int,
                ) == chain@[i + 1],
            forall|i: int|
                0 <= i < chain@.len() ==> room_at(
                    *net,
                    *search,
                    f@,
                    #[trigger] chain@[i] as int,
                ) >= least,
            forall|i: int|
                0 <= i < chain@.len() ==> search.slot@[#[trigger] chain@[i] as int] < net.m()
                    && chain@[i] < n@ && exit(
                    *net,
                    search.slot@[chain@[i] as int] as int,
                    search.forward@[chain@[i] as int],
                ) == chain@[i],
        decreases at,
    {
        proof {
            reveal(Search::reached);
            assert(at != 0);
            assert(search.reached(*net, f@, search.queue@[at] as int, at));
        }
        let k: usize = search.slot[cur];
        let fw: bool = search.forward[cur];
        let room: u64 = if fw {
            net.caps[k] - f[k]
        } else {
            f[k]
        };
        if room < least {
            least = room;
        }
        chain.push(cur);
        let ghost pos0 = pos;
        proof {
            pos = pos.push(at);
            at =
            choose|j: int|
                0 <= j < at && #[trigger] search.queue@[j] == entry(*net, k as int, fw);
        }
        cur = if fw {
            net.tails[k]
        } else {
            net.heads[k]
        };
    }
    let found: (Vec<usize>, u64) = (chain, least);
    proof {
        assert(is_chain(*net, *search, s as int, t as int, found.0@, pos));
    }
    found
}

/// In a chain no edge is used twice.
proof fn lemma_chain_slots(
    net: Network,
    search: Search,
    n: int,
    s: int,
    t: int,
    f: Seq<u64>,
    chain: Seq<usize>,
    pos: Seq<int>,
    i: int,
    j: int,
)
    requires
        is_chain(net, search, s, t, chain, pos),
        search.wf(net, n, s, f),
        0 <= i < j < chain.len(),
        forall|x: int|
            0 <= x < chain.len() ==> exit(
                net,
                search.slot@[#[trigger] chain[x] as int] as int,
                search.forward@[chain[x] as int],
            ) == chain[x],
    ensures
        search.slot@[chain[i] as int] != search.slot@[chain[j] as int],
{
    let (a, b) = (chain[i] as int, chain[j] as int);
    let k = search.slot@[a] as int;
    assert(pos[j] < pos[i]);
    assert(search.queue@[pos[j]] == b && search.queue@[pos[i]] == a);
    assert(a != b);
    if search.slot@[b] == k {
        assert(exit(net, k, search.forward@[a]) == a);
        assert(exit(net, k, search.forward@[b]) == b);
        assert(search.forward@[a] != search.forward@[b]);
        assert(before_it(net, search, b) == a);
        if j + 1 < chain.len() {
            assert(chain[j + 1] == a);
            assert(pos[j + 1] < pos[i]);
            assert(search.queue@[pos[j + 1]] == search.queue@[pos[i]]);
        } else {
            assert(a == s);
            assert(search.queue@[0] == a);
        }
    }
}

/// Sends `b` more units along a chain.
fn augment(
    net: &Network,
    n: Ghost<int>,
    f: &mut Vec<u64>,
    search: &Search,
    s: usize,
    t: usize,
    chain: &Vec<usize>,
    b: u64,
    value: Ghost<int>,
)
    requires
        net.wf(n@),
        is_flow(*net, n@, s as int, t as int, old(f)@, value@),
        search.wf(*net, n@, s as int, old(f)@),
        b > 0,
        exists|pos: Seq<int>| is_chain(*net, *search, s as int, t as int, chain@, pos),
        forall|i: int|
            0 <= i < chain@.len() ==> room_at(
                *net,
                *search,
                old(f)@,
                #[trigger] chain@[i] as int,
            ) >= b,
        forall|i: int|
            0 <= i < chain@.len() ==> search.slot@[#[trigger] chain@[i] as int] < net.m()
                && chain@[i] < n@ && exit(
                *net,
                search.slot@[chain@[i] as int] as int,
                search.forward@[chain@[i] as int],
            ) == chain@[i],
    ensures
        is_flow(*net, n@, s as int, t as int, final(f)@, value@ + b),
{
    let ghost f0 = f@;
    let ghost pos = choose|pos: Seq<int>|
        is_chain(*net, *search, s as int, t as int, chain@, pos);
    let mut i: usize = 0;
    while i < chain.len()
        invariant
            net.wf(n@),
            search.wf(*net, n@, s as int, f0),
            search.slot@.len() == n@,
            search.forward@.len() == n@,
            is_chain(*net, *search, s as int, t as int, chain@, pos),
            b > 0,
            forall|x: int|
                0 <= x < chain@.len() ==> room_at(
                    *net,
                    *search,
                    f0,
                    #[trigger] chain@[x] as int,
                ) >= b,
            forall|x: int|
                0 <= x < chain@.len() ==> search.slot@[#[trigger] chain@[x] as int] < net.m()
                    && chain@[x] < n@ && exit(
                    *net,
                    search.slot@[chain@[x] as int] as int,
                    search.forward@[chain@[x] as int],
                ) == chain@[x],
            i <= chain@.len(),
            within_caps(*net, f@),
            forall|x: int|
                i <= x < chain@.len() ==> f@[search.slot@[#[trigger] chain@[x] as int] as int]
                    == f0[search.slot@[chain@[x] as int] as int],
            forall|v: int|
                0 <= v < n@ ==> #[trigger] outflow(*net, f@, v) - inflow(*net, f@, v) == shift(
                    s as int,
                    t as int,
                    value@,
                    v,
                ) + shift(
                    if i < chain@.len() {
                        chain@[i as int] as int
                    } else {
                        s as int
                    },
                    t as int,
                    b as int,
                    v,
                ),
        decreases chain@.len() - i,
    {
        let c: usize = chain[i];
        let k: usize = search.slot[c];
        let fw: bool = search.forward[c];
        let ghost f1 = f@;
        proof {
            assert(room_at(*net, *search, f0, c as int) >= b);
            assert(f1[k as int] == f0[k as int]);
        }
        let now: u64 = f[k];
        let next: u64 = if fw {
            now + b
        } else {
            now - b
        };
        f.set(k, next);
        proof {
            let to = if i + 1 < chain@.len() {
                chain@[i + 1] as int
            } else {
                s as int
            };
            assert(before_it(*net, *search, chain@[i as int] as int) == to);
            assert forall|v: int| 0 <= v < n@ implies #[trigger] outflow(*net, f@, v) - inflow(
                *net,
                f@,
                v,
            ) == shift(s as int, t as int, value@, v) + shift(to, t as int, b as int, v) by {
                assert(outflow(*net, f1, v) - inflow(*net, f1, v) == shift(
                    s as int,
                    t as int,
                    value@,
                    v,
                ) + shift(c as int, t as int, b as int, v));
                lemma_change_edge(*net, n@, f1, k as int, next, v);
            }
            assert forall|x: int| i + 1 <= x < chain@.len() implies f@[search.slot@[
            #[trigger] chain@[x] as int] as int] == f0[search.slot@[chain@[x] as int] as int] by {
                lemma_chain_slots(
                    *net,
                    *search,
                    n@,
                    s as int,
                    t as int,
                    f0,
                    chain@,
                    pos,
                    i as int,
                    x,
                );
            }
        }
        i = i + 1;
    }
}

/// No flow from `s` to `t` carries more than `value`, and one carries it.
pub open spec fn is_maximum(net: Network, n: int, s: int, t: int, value: int) -> bool {
    &&& exists|f: Seq<u64>| is_flow(net, n, s, t, f, value)
    &&& forall|f: Seq<u64>, x: int| #[trigger] is_flow(net, n, s, t, f, x) ==> x <= value
    &&& exists|side: Set<int>|
        side.contains(s) && !side.contains(t) && #[trigger] cut_capacity(net, side) == value
}

/// Capacities add up to less than the widest number.
proof fn lemma_caps_bound(net: Network, side: Set<int>)
    requires
        net.caps@.len() == net.m(),
        net.m() <= u64::MAX,
    ensures
        cut_capacity(net, side) <= u128::MAX,
{
    let c = crossing(net, net.caps@, side);
    lemma_sum_at_most(upto(net.m()), c, u64::MAX as nat);
    assert(net.m() * (u64::MAX as nat) <= u128::MAX) by (nonlinear_arith)
        requires
            net.m() <= u64::MAX,
    ;
}

proof fn lemma_sum_at_most(s: Seq<int>, f: spec_fn(int) -> nat, c: nat)
    requires
        forall|i: int| 0 <= i < s.len() ==> f(#[trigger] s[i]) <= c,
    ensures
        sum(s, f) <= s.len() * c,
    decreases s.len(),
{
    if s.len() > 0 {
        let r = s.drop_last();
        assert forall|i: int| 0 <= i < r.len() implies f(#[trigger] r[i]) <= c by {
            assert(r[i] == s[i]);
        }
        lemma_sum_at_most(r, f, c);
        assert(s.last() == s[s.len() - 1]);
        assert(s.len() * c == r.len() * c + c) by (nonlinear_arith)
            requires
                s.len() == r.len() + 1,
        ;
    }
}

/// The most that the edges of a snapshot can carry from one node to another is `value`.
pub open spec fn most_carried(
    snap: CsrSnapshot,
    caps: Seq<u64>,
    s: int,
    t: int,
    value: int,
) -> bool {
    exists|net: Network, in_slot: Seq<usize>|
        #[trigger] describes(snap, net, in_slot) && net.caps@ == caps && is_maximum(
            net,
            snap.n() as int,
            s,
            t,
            value,
        )
}

/// The maximum flow from `source` to `sink`, where slot `k` can carry `caps[k]`
/// units. There is none to or from a node that is not in the graph, nor from a
/// node to itself.
pub fn maximum_flow(
    snap: &CsrSnapshot,
    caps: &Vec<u64>,
    source: NodeId,
    sink: NodeId,
) -> (value: u128)
    requires
        snap.wf(),
        caps@.len() == snap.edges@.len(),
    ensures
        ({
            let ids = snap.dense_to_id@;
            if source == sink || !ids.contains(source) || !ids.contains(sink) {
                value == 0
            } else {
                most_carried(
                    *snap,
                    caps@,
                    ids.index_of(source),
                    ids.index_of(sink),
                    value as int,
                )
            }
        }),
{
    if source == sink {
        return 0;
    }
    let (s, t) = match (snap.dense(source), snap.dense(sink)) {
        (Some(s), Some(t)) => (s, t),
        _ => {
            return 0;
        },
    };
    let n: usize = snap.dense_to_id.len();
    proof {
        crate::csr::lemma_index_unique(snap.dense_to_id@, s as int);
        crate::csr::lemma_index_unique(snap.dense_to_id@, t as int);
        assert(snap.dense_to_id@.contains(source) && snap.dense_to_id@.contains(sink));
    }
    let (net, in_slot) = build_network(snap, caps);
    let m: usize = net.tails.len();
    let mut f: Vec<u64> = vec![0u64; m];
    let mut value: u128 = 0;
    let ghost start = set![s as int];
    proof {
        assert forall|v: int| 0 <= v < n implies #[trigger] outflow(net, f@, v) - inflow(
            net,
            f@,
            v,
        ) == shift(s as int, t as int, 0, v) by {
            lemma_sum_zero(upto(net.m()), leaves(net, f@, v));
            lemma_sum_zero(upto(net.m()), enters(net, f@, v));
        }
        lemma_caps_bound(net, start);
    }
    loop
        invariant
            snap.wf(),
            n == snap.n(),
            s < n,
            t < n,
            s != t,
            describes(*snap, net, in_slot@),
            net.caps@ == caps@,
            is_flow(net, n as int, s as int, t as int, f@, value as int),
            start == set![s as int],
            cut_capacity(net, start) <= u128::MAX,
            source != sink,
            snap.dense_to_id@.contains(source),
            snap.dense_to_id@.contains(sink),
            s as int == snap.dense_to_id@.index_of(source),
            t as int == snap.dense_to_id@.index_of(sink),
        decreases cut_capacity(net, start) - value,
    {
        let search: Search = find_room(snap, &net, &in_slot, s, &f);
        if !search.seen[t] {
            proof {
                let side = Set::new(|v: int| 0 <= v < n && search.seen@[v]);
                assert(search.queue@.contains(search.queue@[0]));
                assert(side.contains(s as int));
                lemma_side_is_saturated(*snap, net, in_slot@, f@, s as int, search, side);
                lemma_saturated(net, n as nat, s as int, t as int, f@, value as int, side);
                assert forall|g: Seq<u64>, x: int|
                    #[trigger] is_flow(net, n as int, s as int, t as int, g, x) implies x
                    <= value by {
                    lemma_flow_below_cut(net, n as nat, s as int, t as int, g, x, side);
                }
                assert(is_maximum(net, n as int, s as int, t as int, value as int));
                assert(most_carried(*snap, caps@, s as int, t as int, value as int));
            }
            return value;
        }
        let (chain, b) = trace_back(&net, Ghost(n as int), &f, &search, s, t);
        let ghost before = f@;
        augment(
            &net,
            Ghost(n as int),
            &mut f,
            &search,
            s,
            t,
            &chain,
            b,
            Ghost(value as int),
        );
        proof {
            lemma_flow_below_cut(
                net,
                n as nat,
                s as int,
                t as int,
                f@,
                value + b,
                start,
            );
        }
        value = value + b as u128;
    }
}

/// What a finished search has seen is a side that nothing more can leave.
proof fn lemma_side_is_saturated(
    snap: CsrSnapshot,
    net: Network,
    in_slot: Seq<usize>,
    f: Seq<u64>,
    s: int,
    search: Search,
    side: Set<int>,
)
    requires
        snap.wf(),
        describes(snap, net, in_slot),
        within_caps(net, f),
        search.wf(net, snap.n() as int, s, f),
        explored(net, f, search, search.queue@.len() as int),
        forall|v: int|
            #[trigger] side.contains(v) <==> 0 <= v < snap.n() && search.seen@[v],
    ensures
        forall|k: int|
            0 <= k < net.m() && side.contains((#[trigger] net.tails@[k]) as int) && !side.contains(
                net.heads@[k] as int,
            ) ==> f[k] == net.caps@[k],
        forall|k: int|
            0 <= k < net.m() && !side.contains((#[trigger] net.tails@[k]) as int) && side.contains(
                net.heads@[k] as int,
            ) ==> f[k] == 0,
{
    assert forall|k: int|
        0 <= k < net.m() && side.contains((#[trigger] net.tails@[k]) as int) && !side.contains(
            net.heads@[k] as int,
        ) implies f[k] == net.caps@[k] by {
        let u = net.tails@[k];
        assert(search.queue@.contains(u));
        let i = choose|i: int| 0 <= i < search.queue@.len() && search.queue@[i] == u;
        if residual(net, f, k, true) > 0 {
            assert(search.queue@[i] == entry(net, k, true));
            assert(search.seen@[exit(net, k, true)]);
            assert(net.heads@[k] < snap.n());
        }
        assert(f[k] <= net.caps@[k]);
    }
    assert forall|k: int|
        0 <= k < net.m() && !side.contains((#[trigger] net.tails@[k]) as int) && side.contains(
            net.heads@[k] as int,
        ) implies f[k] == 0 by {
        let u = net.heads@[k];
        assert(search.queue@.contains(u));
        let i = choose|i: int| 0 <= i < search.queue@.len() && search.queue@[i] == u;
        if residual(net, f, k, false) > 0 {
            assert(search.queue@[i] == entry(net, k, false));
            assert(search.seen@[exit(net, k, false)]);
        }
    }
}

} // verus!
