//! Cheapest paths by rounds of relaxation, which negative weights do not disturb.

use vstd::prelude::*;

use crate::cost::Cost;
use crate::csr::CsrSnapshot;
use crate::dijkstra::{improved, least_within, lemma_round, no_worse, stepped};
use crate::paths::as_nodes;
use crate::scc::{lemma_reach_arc, lemma_reach_self, lemma_reach_transitive, reach};
use crate::sets::{contains_id, contains_pair, ids_in, pairs_in};
use crate::simple_paths::lemma_distinct_bound;
use crate::sums::{bit, count, lemma_sum_update};
use crate::traversal::arc;
use crate::weighted::{
    around, follows, in_row, lemma_relaxed_is_least, lemma_walk_in_range, relaxed, walk_cost,
    walk_end, walk_nodes,
};

verus! {

/// What a search knows of every node: the least cost found, the nodes of a path
/// of that cost, and its slots.
pub struct Labels<C: Cost> {
    pub dist: Vec<Option<C>>,
    pub paths: Vec<Vec<usize>>,
    pub slots: Ghost<Seq<Seq<int>>>,
}

/// Some walk from `s` over admitted steps comes back to a node that it was at before, and
/// is cheaper by then: going round the cycle pays.
pub open spec fn cycle_pays<C: Cost>(
    snap: CsrSnapshot,
    weights: Seq<C>,
    open: spec_fn(int, int) -> bool,
    s: int,
) -> bool {
    exists|ks: Seq<int>, i: int| #[trigger] pays_from(snap, weights, open, s, ks, i)
}

/// The walk `ks` comes back to where it was after `i` steps, and is cheaper by then.
pub open spec fn pays_from<C: Cost>(
    snap: CsrSnapshot,
    weights: Seq<C>,
    open: spec_fn(int, int) -> bool,
    s: int,
    ks: Seq<int>,
    i: int,
) -> bool {
    &&& follows(snap, open, s, ks)
    &&& 0 <= i < ks.len()
    &&& walk_end(snap, s, ks.take(i)) == walk_end(snap, s, ks)
    &&& walk_cost(weights, ks).bounded()
    &&& !walk_cost(weights, ks.take(i)).le(walk_cost(weights, ks))
}

/// Steps into live nodes only, into none of `nodes` and along none of `pairs`.
pub open spec fn onward(
    nodes: Set<u64>,
    pairs: Set<(u64, u64)>,
    live: Seq<bool>,
) -> spec_fn(int, int) -> bool {
    |u: int, v: int| around(nodes, pairs)(u, v) && live[v]
}

/// The live nodes are nodes from which `t` can be reached, and all that lead to one.
pub open spec fn live_towards(snap: CsrSnapshot, t: int, live: Seq<bool>) -> bool {
    &&& live.len() == snap.n()
    &&& live[t]
    &&& forall|v: int| 0 <= v < snap.n() && #[trigger] live[v] ==> reach(snap.edges@, v, t)
    &&& forall|u: int, v: int| #[trigger] arc(snap.edges@, u, v) && live[v] ==> live[u]
}

/// What leads to `v` is live, up to slot `k` of its transposed row.
spec fn fed_up_to(snap: CsrSnapshot, live: Seq<bool>, v: int, k: int) -> bool {
    forall|q: int|
        snap.in_row_ptr@[v] <= q < k ==> live[(#[trigger] snap.in_col_idx@[q]) as int]
}

/// The predicate that holds of the mark of a node that is not live.
spec fn unmarked() -> spec_fn(bool) -> bool {
    |b: bool| !b
}

/// The nodes from which `t` can be reached.
pub(crate) fn nodes_towards(snap: &CsrSnapshot, t: usize) -> (live: Vec<bool>)
    requires
        snap.wf(),
        t < snap.n(),
    ensures
        live_towards(*snap, t as int, live@),
{
    let n: usize = snap.dense_to_id.len();
    let ghost edges = snap.edges@;
    let ghost w = |b: bool| bit(unmarked()(b));
    let mut live: Vec<bool> = vec![false; n];
    live.set(t, true);
    let mut left: Vec<usize> = vec![t];
    proof {
        lemma_reach_self(edges, t as int);
        assert(left@ =~= seq![t]);
        assert forall|v: int| 0 <= v < n && #[trigger] live@[v] implies left@.contains(
            v as usize,
        ) by {
            assert(left@[0] == t);
        }
    }
    while left.len() > 0
        invariant
            snap.wf(),
            n == snap.n(),
            n <= usize::MAX,
            edges == snap.edges@,
            w == (|b: bool| bit(unmarked()(b))),
            t < n,
            live@.len() == n,
            live@[t as int],
            forall|i: int| 0 <= i < left@.len() ==> (#[trigger] left@[i]) < n,
            forall|v: int| 0 <= v < n && #[trigger] live@[v] ==> reach(edges, v, t as int),
            forall|i: int| 0 <= i < left@.len() ==> live@[(#[trigger] left@[i]) as int],
            forall|v: int|
                0 <= v < n && #[trigger] live@[v] ==> left@.contains(v as usize) || fed_up_to(
                    *snap,
                    live@,
                    v,
                    snap.in_row_ptr@[v + 1] as int,
                ),
        decreases count(live@, unmarked()), left@.len(),
    {
        let ghost before = left@;
        let last: usize = left.len() - 1;
        let v: usize = left[last];
        left.pop();
        let lo: usize = snap.in_row_ptr[v];
        let hi: usize = snap.in_row_ptr[v + 1];
        let ghost live0 = live@;
        let mut k: usize = lo;
        proof {
            assert(live@[before[last as int] as int]);
            assert forall|x: int| 0 <= x < n && x != v && #[trigger] live@[x] implies left@.contains(
                x as usize,
            ) || fed_up_to(*snap, live@, x, snap.in_row_ptr@[x + 1] as int) by {
                if before.contains(x as usize) {
                    let i = before.index_of(x as usize);
                    assert(left@[i] == x as usize);
                }
            }
        }
        while k < hi
            invariant
                snap.wf(),
                n == snap.n(),
                n <= usize::MAX,
                edges == snap.edges@,
                w == (|b: bool| bit(unmarked()(b))),
                t < n,
                v < n,
                lo == snap.in_row_ptr@[v as int],
                hi == snap.in_row_ptr@[v + 1],
                lo <= k <= hi <= edges.len(),
                live@.len() == n,
                live@[t as int],
                live@[v as int],
                forall|i: int| 0 <= i < left@.len() ==> (#[trigger] left@[i]) < n,
                forall|i: int| 0 <= i < left@.len() ==> live@[(#[trigger] left@[i]) as int],
                forall|x: int| 0 <= x < n && #[trigger] live@[x] ==> reach(edges, x, t as int),
                forall|x: int|
                    0 <= x < n && x != v && #[trigger] live@[x] ==> left@.contains(x as usize)
                        || fed_up_to(*snap, live@, x, snap.in_row_ptr@[x + 1] as int),
                fed_up_to(*snap, live@, v as int, k as int),
                count(live@, unmarked()) <= count(live0, unmarked()),
                count(live@, unmarked()) == count(live0, unmarked()) ==> left@.len()
                    < before.len(),
            decreases hi - k,
        {
            let u: usize = snap.in_col_idx[k] as usize;
            let ghost live1 = live@;
            let ghost left1 = left@;
            if !live[u] {
                proof {
                    snap.lemma_in_slot_is_arc(v as int, k as int);
                    lemma_reach_self(edges, u as int);
                    lemma_reach_arc(edges, u as int, u as int, v as int);
                    lemma_reach_transitive(edges, u as int, v as int, t as int);
                    lemma_sum_update(live@, u as int, true, w);
                }
                live.set(u, true);
                left.push(u);
                proof {
                    assert forall|x: int| 0 <= x < n && x != v && #[trigger] live@[x] implies
                        left@.contains(x as usize) || fed_up_to(
                        *snap,
                        live@,
                        x,
                        snap.in_row_ptr@[x + 1] as int,
                    ) by {
                        if x == u {
                            assert(left@[left1.len() as int] == u);
                        } else {
                            assert(live1[x]);
                            if left1.contains(x as usize) {
                                let i = left1.index_of(x as usize);
                                assert(left@[i] == x as usize);
                            }
                        }
                    }
                }
            }
            k = k + 1;
        }
    }
    proof {
        assert forall|u: int, v: int| #[trigger] arc(edges, u, v) && live@[v] implies live@[u] by {
            let i = choose|i: int|
                0 <= i < edges.len() && (#[trigger] edges[i]).src == u && edges[i].dst == v;
            assert(0 <= edges[i].src < n && 0 <= edges[i].dst < n);
            assert(fed_up_to(*snap, live@, v, snap.in_row_ptr@[v + 1] as int));
            let q = snap.lemma_arc_has_in_slot(u, v);
            assert(live@[snap.in_col_idx@[q] as int]);
        }
    }
    live
}

/// A walk that ends at a live node steps into live nodes only.
pub(crate) proof fn lemma_onward(
    snap: CsrSnapshot,
    nodes: Set<u64>,
    pairs: Set<(u64, u64)>,
    t: int,
    live: Seq<bool>,
    s: int,
    ks: Seq<int>,
)
    requires
        snap.wf(),
        0 <= s < snap.n(),
        live_towards(snap, t, live),
        follows(snap, around(nodes, pairs), s, ks),
        live[walk_end(snap, s, ks)],
    ensures
        follows(snap, onward(nodes, pairs, live), s, ks),
    decreases ks.len(),
{
    if ks.len() > 0 {
        let rest = ks.drop_last();
        let u = walk_end(snap, s, rest);
        lemma_walk_in_range(snap, around(nodes, pairs), s, rest);
        snap.lemma_slot_is_arc(u, ks.last());
        assert(arc(snap.edges@, u, walk_end(snap, s, ks)));
        lemma_onward(snap, nodes, pairs, t, live, s, rest);
    }
}

/// Steps that are admitted by one rule are admitted by a more generous one.
pub(crate) proof fn lemma_follows_more(
    snap: CsrSnapshot,
    open: spec_fn(int, int) -> bool,
    more: spec_fn(int, int) -> bool,
    s: int,
    ks: Seq<int>,
)
    requires
        follows(snap, open, s, ks),
        forall|u: int, v: int| #[trigger] open(u, v) ==> more(u, v),
    ensures
        follows(snap, more, s, ks),
    decreases ks.len(),
{
    if ks.len() > 0 {
        lemma_follows_more(snap, open, more, s, ks.drop_last());
    }
}

/// `path` is a simple path to `v` over the slots `ks`, at the cost that is known, and
/// no node on it costs more than the path does up to it.
pub open spec fn labelled<C: Cost>(
    snap: CsrSnapshot,
    weights: Seq<C>,
    open: spec_fn(int, int) -> bool,
    s: int,
    dist: Seq<Option<C>>,
    path: Seq<usize>,
    ks: Seq<int>,
    v: int,
) -> bool {
    &&& dist[v]->0.bounded()
    &&& follows(snap, open, s, ks)
    &&& walk_end(snap, s, ks) == v
    &&& walk_cost(weights, ks) == dist[v]->0
    &&& walk_nodes(snap, s, ks) == as_nodes(path)
    &&& as_nodes(path).no_duplicates()
    &&& forall|i: int|
        0 <= i <= ks.len() ==> {
            let d = dist[walk_end(snap, s, #[trigger] ks.take(i))];
            d is Some && d->0.le(walk_cost(weights, ks.take(i)))
        }
}

impl<C: Cost> Labels<C> {
    /// Every cost that is known is that of a simple path.
    pub open spec fn hold(
        &self,
        snap: CsrSnapshot,
        weights: Seq<C>,
        open: spec_fn(int, int) -> bool,
        s: int,
    ) -> bool {
        &&& self.dist@.len() == snap.n()
        &&& self.paths@.len() == snap.n()
        &&& self.slots@.len() == snap.n()
        &&& forall|v: int|
            0 <= v < snap.n() && (#[trigger] self.dist@[v]) is Some ==> labelled(
                snap,
                weights,
                open,
                s,
                self.dist@,
                self.paths@[v]@,
                self.slots@[v],
                v,
            )
    }
}

/// The nodes of a walk are the ends of its beginnings.
pub(crate) proof fn lemma_nodes_of_walk(
    snap: CsrSnapshot,
    open: spec_fn(int, int) -> bool,
    s: int,
    ks: Seq<int>,
    i: int,
)
    requires
        follows(snap, open, s, ks),
        0 <= i <= ks.len(),
    ensures
        walk_nodes(snap, s, ks).len() == ks.len() + 1,
        walk_nodes(snap, s, ks)[i] == walk_end(snap, s, ks.take(i)),
        follows(snap, open, s, ks.take(i)),
    decreases ks.len(),
{
    if i == ks.len() {
        assert(ks.take(i) =~= ks);
        if ks.len() > 0 {
            lemma_nodes_of_walk(snap, open, s, ks.drop_last(), i - 1);
        }
    } else {
        assert(ks.drop_last().take(i) =~= ks.take(i));
        lemma_nodes_of_walk(snap, open, s, ks.drop_last(), i);
    }
}

/// Where the node `v` stands in a path.
pub(crate) fn position(path: &Vec<usize>, v: usize) -> (at: Option<usize>)
    ensures
        at matches Some(i) ==> i < path@.len() && path@[i as int] == v,
        at is None ==> forall|i: int| 0 <= i < path@.len() ==> #[trigger] path@[i] != v,
{
    let mut i: usize = 0;
    while i < path.len()
        invariant
            i <= path@.len(),
            forall|j: int| 0 <= j < i ==> #[trigger] path@[j] != v,
        decreases path@.len() - i,
    {
        if path[i] == v {
            return Some(i);
        }
        i = i + 1;
    }
    None
}

/// A path with one more node.
fn extended(path: &Vec<usize>, v: usize) -> (more: Vec<usize>)
    ensures
        more@ == path@.push(v),
{
    let mut more: Vec<usize> = Vec::new();
    let mut i: usize = 0;
    while i < path.len()
        invariant
            i <= path@.len(),
            more@ == path@.take(i as int),
        decreases path@.len() - i,
    {
        more.push(path[i]);
        assert(more@ =~= path@.take(i + 1));
        i = i + 1;
    }
    assert(path@.take(i as int) =~= path@);
    more.push(v);
    more
}

/// A cheaper cost for one node keeps what is known of the others.
proof fn lemma_relabelled<C: Cost>(
    snap: CsrSnapshot,
    weights: Seq<C>,
    open: spec_fn(int, int) -> bool,
    s: int,
    dist: Seq<Option<C>>,
    path: Seq<usize>,
    ks: Seq<int>,
    x: int,
    v: int,
    c: C,
)
    requires
        snap.wf(),
        0 <= s < snap.n(),
        dist.len() == snap.n(),
        0 <= x < dist.len(),
        0 <= v < dist.len(),
        x != v,
        labelled(snap, weights, open, s, dist, path, ks, x),
        dist[v] is Some ==> c.le(dist[v]->0),
    ensures
        labelled(snap, weights, open, s, dist.update(v, Some(c)), path, ks, x),
{
    let after = dist.update(v, Some(c));
    assert forall|i: int| 0 <= i <= ks.len() implies {
        let d = after[walk_end(snap, s, #[trigger] ks.take(i))];
        d is Some && d->0.le(walk_cost(weights, ks.take(i)))
    } by {
        let y = walk_end(snap, s, ks.take(i));
        lemma_nodes_of_walk(snap, open, s, ks, i);
        lemma_walk_in_range(snap, open, s, ks.take(i));
        assert(dist[y] is Some && dist[y]->0.le(walk_cost(weights, ks.take(i))));
        if y == v {
            C::law_order(c, dist[v]->0, walk_cost(weights, ks.take(i)));
        }
    }
}

/// A path with one more step is a path to where the step leads.
proof fn lemma_label_step<C: Cost>(
    snap: CsrSnapshot,
    weights: Seq<C>,
    open: spec_fn(int, int) -> bool,
    s: int,
    dist: Seq<Option<C>>,
    path: Seq<usize>,
    ks: Seq<int>,
    u: int,
    k: int,
    v: usize,
)
    requires
        snap.wf(),
        0 <= s < snap.n(),
        dist.len() == snap.n(),
        0 <= u < dist.len(),
        v < dist.len(),
        dist[u] is Some,
        labelled(snap, weights, open, s, dist, path, ks, u),
        in_row(snap, u, k),
        snap.col_idx@[k] == v,
        open(u, v as int),
        forall|i: int| 0 <= i < path.len() ==> #[trigger] path[i] != v,
        dist[u]->0.plus(weights[k]).bounded(),
    ensures
        labelled(
            snap,
            weights,
            open,
            s,
            dist.update(v as int, Some(dist[u]->0.plus(weights[k]))),
            path.push(v),
            ks.push(k),
            v as int,
        ),
{
    let c = dist[u]->0.plus(weights[k]);
    let after = dist.update(v as int, Some(c));
    let more = ks.push(k);
    assert(more.drop_last() =~= ks);
    assert(walk_nodes(snap, s, more) =~= as_nodes(path.push(v)));
    assert(as_nodes(path.push(v)).no_duplicates()) by {
        let p = as_nodes(path.push(v));
        assert forall|i: int, j: int| 0 <= i < j < p.len() implies p[i] != p[j] by {
            assert(path[i] != v);
            if j < path.len() {
                assert(as_nodes(path)[i] != as_nodes(path)[j]);
            }
        }
    }
    assert forall|i: int| 0 <= i <= more.len() implies {
        let d = after[walk_end(snap, s, #[trigger] more.take(i))];
        d is Some && d->0.le(walk_cost(weights, more.take(i)))
    } by {
        if i == more.len() {
            assert(more.take(i) =~= more);
            C::law_order(c, c, c);
        } else {
            assert(more.take(i) =~= ks.take(i));
            lemma_nodes_of_walk(snap, open, s, ks, i);
            lemma_walk_in_range(snap, open, s, ks.take(i));
            assert(as_nodes(path)[i] == walk_end(snap, s, ks.take(i)));
            assert(path[i] != v);
        }
    }
}

/// A step back onto a path that makes it cheaper closes a cycle that pays.
proof fn lemma_closes_cycle<C: Cost>(
    snap: CsrSnapshot,
    weights: Seq<C>,
    open: spec_fn(int, int) -> bool,
    s: int,
    dist: Seq<Option<C>>,
    path: Seq<usize>,
    ks: Seq<int>,
    u: int,
    k: int,
    i: int,
)
    requires
        0 <= u < dist.len(),
        dist[u] is Some,
        labelled(snap, weights, open, s, dist, path, ks, u),
        in_row(snap, u, k),
        open(u, snap.col_idx@[k] as int),
        0 <= i < path.len(),
        path[i] == snap.col_idx@[k],
        dist[path[i] as int] is Some ==> !dist[path[i] as int]->0.le(dist[u]->0.plus(weights[k])),
        dist[u]->0.plus(weights[k]).bounded(),
    ensures
        cycle_pays(snap, weights, open, s),
{
    let more = ks.push(k);
    assert(more.drop_last() =~= ks);
    assert(as_nodes(path).len() == path.len());
    lemma_nodes_of_walk(snap, open, s, ks, 0);
    lemma_nodes_of_walk(snap, open, s, ks, i);
    assert(as_nodes(path)[i] == walk_end(snap, s, ks.take(i)));
    assert(more.take(i) =~= ks.take(i));
    let d = dist[path[i] as int]->0;
    C::law_order(d, walk_cost(weights, ks.take(i)), walk_cost(weights, more));
    assert(pays_from(snap, weights, open, s, more, i));
}

/// Follows slot `k` from `u` and, where that leads to a lower cost, puts down the path
/// that goes there. Says whether it did; nothing where the step closes a cycle that pays.
fn relax<C: Cost>(
    snap: &CsrSnapshot,
    weights: &Vec<C>,
    open: Ghost<spec_fn(int, int) -> bool>,
    s: Ghost<int>,
    labels: &mut Labels<C>,
    u: usize,
    k: usize,
) -> (r: Option<bool>)
    requires
        snap.wf(),
        weights@.len() == snap.edges@.len(),
        0 <= s@ < snap.n(),
        old(labels).hold(*snap, weights@, open@, s@),
        u < snap.n(),
        old(labels).dist@[u as int] is Some,
        in_row(*snap, u as int, k as int),
        k < snap.edges@.len(),
        open@(u as int, snap.col_idx@[k as int] as int),
    ensures
        match r {
            None => cycle_pays(*snap, weights@, open@, s@),
            Some(changed) => {
                let (before, after) = (old(labels).dist@, final(labels).dist@);
                let d = after[snap.col_idx@[k as int] as int];
                let c = before[u as int]->0.plus(weights@[k as int]);
                &&& final(labels).hold(*snap, weights@, open@, s@)
                &&& no_worse(before, after)
                &&& (changed ==> improved(before, after))
                &&& (!changed ==> after == before)
                &&& (c.bounded() ==> d is Some && d->0.le(c))
            },
        },
{
    let ghost before = labels.dist@;
    let ghost was = *labels;
    let v: usize = snap.col_idx[k] as usize;
    let base: C = match labels.dist[u] {
        Some(c) => c,
        None => C::zero_cost(),
    };
    let candidate: C = base.added(&weights[k]);
    let better: bool = match labels.dist[v] {
        None => true,
        Some(c) => candidate.less(&c),
    };
    proof {
        C::law_order(candidate, candidate, candidate);
        assert forall|x: int| 0 <= x < before.len() && (#[trigger] before[x]) is Some implies
            before[x]->0.le(before[x]->0) by {
            C::law_order(before[x]->0, before[x]->0, before[x]->0);
        }
        if before[v as int] is Some {
            C::law_order(candidate, before[v as int]->0, candidate);
        }
        assert(labelled(
            *snap,
            weights@,
            open@,
            s@,
            before,
            labels.paths@[u as int]@,
            labels.slots@[u as int],
            u as int,
        ));
    }
    if !better || !candidate.is_bounded() {
        return Some(false);
    }
    if let Some(i) = position(&labels.paths[u], v) {
        proof {
            lemma_closes_cycle(
                *snap,
                weights@,
                open@,
                s@,
                before,
                labels.paths@[u as int]@,
                labels.slots@[u as int],
                u as int,
                k as int,
                i as int,
            );
        }
        return None;
    }
    let path: Vec<usize> = extended(&labels.paths[u], v);
    proof {
        lemma_label_step(
            *snap,
            weights@,
            open@,
            s@,
            before,
            labels.paths@[u as int]@,
            labels.slots@[u as int],
            u as int,
            k as int,
            v,
        );
    }
    labels.dist.set(v, Some(candidate));
    labels.paths.set(v, path);
    labels.slots = Ghost(labels.slots@.update(v as int, labels.slots@[u as int].push(k as int)));
    proof {
        assert(improved(before, labels.dist@)) by {
            assert(labels.dist@[v as int] is Some);
        }
        assert forall|x: int| 0 <= x < snap.n() && (#[trigger] labels.dist@[x]) is Some implies
            labelled(
            *snap,
            weights@,
            open@,
            s@,
            labels.dist@,
            labels.paths@[x]@,
            labels.slots@[x],
            x,
        ) by {
            if x != v {
                assert(was.dist@[x] is Some);
                lemma_relabelled(
                    *snap,
                    weights@,
                    open@,
                    s@,
                    before,
                    was.paths@[x]@,
                    was.slots@[x],
                    x,
                    v as int,
                    candidate,
                );
            }
        }
    }
    Some(true)
}

proof fn lemma_no_worse_later<C: Cost>(
    a: Seq<Option<C>>,
    b: Seq<Option<C>>,
    c: Seq<Option<C>>,
)
    requires
        no_worse(a, b),
        no_worse(b, c),
    ensures
        no_worse(a, c),
        improved(a, b) || improved(b, c) ==> improved(a, c),
{
    assert forall|v: int| 0 <= v < a.len() && (#[trigger] a[v]) is Some implies c[v] is Some
        && c[v]->0.le(a[v]->0) by {
        assert(b[v] is Some);
        C::law_order(c[v]->0, b[v]->0, a[v]->0);
    }
    if improved(a, b) {
        let v = choose|v: int|
            0 <= v < b.len() && (#[trigger] b[v]) is Some && (a[v] is None || !a[v]->0.le(b[v]->0));
        assert(c[v] is Some);
        if a[v] is Some {
            C::law_order(a[v]->0, c[v]->0, b[v]->0);
        }
    } else if improved(b, c) {
        let v = choose|v: int|
            0 <= v < c.len() && (#[trigger] c[v]) is Some && (b[v] is None || !b[v]->0.le(c[v]->0));
        if a[v] is Some {
            assert(b[v] is Some);
            C::law_order(b[v]->0, a[v]->0, c[v]->0);
        }
    }
}

proof fn lemma_stepped_later<C: Cost>(
    snap: CsrSnapshot,
    weights: Seq<C>,
    open: spec_fn(int, int) -> bool,
    before: Seq<Option<C>>,
    b: Seq<Option<C>>,
    c: Seq<Option<C>>,
    u: int,
)
    requires
        snap.wf(),
        0 <= u < snap.n(),
        b.len() == snap.n(),
        stepped(snap, weights, open, before, b, u),
        no_worse(b, c),
    ensures
        stepped(snap, weights, open, before, c, u),
{
    assert forall|k: int|
        #[trigger] in_row(snap, u, k) && open(u, snap.col_idx@[k] as int) && before[u]->0.plus(
            weights[k],
        ).bounded() implies {
        let d = c[snap.col_idx@[k] as int];
        d is Some && d->0.le(before[u]->0.plus(weights[k]))
    } by {
        let v = snap.col_idx@[k] as int;
        assert(snap.row_ptr@[u + 1] <= snap.edges@.len());
        assert(b[v] is Some);
        C::law_order(c[v]->0, b[v]->0, before[u]->0.plus(weights[k]));
    }
}

/// One round of relaxing every admitted step; nothing where a cycle pays.
fn relax_all<C: Cost>(
    snap: &CsrSnapshot,
    weights: &Vec<C>,
    nodes: &ahash::AHashSet<u64>,
    pairs: &ahash::AHashSet<(u64, u64)>,
    live: &Vec<bool>,
    s: Ghost<int>,
    labels: &mut Labels<C>,
) -> (r: Option<bool>)
    requires
        snap.wf(),
        weights@.len() == snap.edges@.len(),
        0 <= s@ < snap.n(),
        live@.len() == snap.n(),
        old(labels).hold(*snap, weights@, onward(ids_in(*nodes), pairs_in(*pairs), live@), s@),
    ensures
        match r {
            None => cycle_pays(
                *snap,
                weights@,
                onward(ids_in(*nodes), pairs_in(*pairs), live@),
                s@,
            ),
            Some(changed) => {
                let open = onward(ids_in(*nodes), pairs_in(*pairs), live@);
                let (before, after) = (old(labels).dist@, final(labels).dist@);
                &&& final(labels).hold(*snap, weights@, open, s@)
                &&& no_worse(before, after)
                &&& (changed ==> improved(before, after))
                &&& (!changed ==> after == before)
                &&& forall|u: int|
                    0 <= u < snap.n() && before[u] is Some ==> #[trigger] stepped(
                        *snap,
                        weights@,
                        open,
                        before,
                        after,
                        u,
                    )
            },
        },
{
    let ghost open = onward(ids_in(*nodes), pairs_in(*pairs), live@);
    let ghost before = labels.dist@;
    let n: usize = snap.dense_to_id.len();
    let mut changed: bool = false;
    let mut u: usize = 0;
    proof {
        assert forall|x: int| 0 <= x < before.len() && (#[trigger] before[x]) is Some implies
            before[x]->0.le(before[x]->0) by {
            C::law_order(before[x]->0, before[x]->0, before[x]->0);
        }
    }
    while u < n
        invariant
            snap.wf(),
            n == snap.n(),
            weights@.len() == snap.edges@.len(),
            0 <= s@ < n,
            open == onward(ids_in(*nodes), pairs_in(*pairs), live@),
            live@.len() == n,
            before.len() == n,
            labels.hold(*snap, weights@, open, s@),
            no_worse(before, labels.dist@),
            !changed ==> labels.dist@ == before,
            changed ==> improved(before, labels.dist@),
            u <= n,
            forall|x: int|
                0 <= x < u && before[x] is Some ==> #[trigger] stepped(
                    *snap,
                    weights@,
                    open,
                    before,
                    labels.dist@,
                    x,
                ),
        decreases n - u,
    {
        if labels.dist[u].is_some() {
            let lo: usize = snap.row_ptr[u];
            let hi: usize = snap.row_ptr[u + 1];
            let mut k: usize = lo;
            while k < hi
                invariant
                    snap.wf(),
                    n == snap.n(),
                    weights@.len() == snap.edges@.len(),
                    0 <= s@ < n,
                    open == onward(ids_in(*nodes), pairs_in(*pairs), live@),
                    live@.len() == n,
                    before.len() == n,
                    labels.hold(*snap, weights@, open, s@),
                    no_worse(before, labels.dist@),
                    !changed ==> labels.dist@ == before,
                    changed ==> improved(before, labels.dist@),
                    u < n,
                    labels.dist@[u as int] is Some,
                    forall|x: int|
                        0 <= x < u && before[x] is Some ==> #[trigger] stepped(
                            *snap,
                            weights@,
                            open,
                            before,
                            labels.dist@,
                            x,
                        ),
                    lo == snap.row_ptr@[u as int],
                    hi == snap.row_ptr@[u + 1],
                    lo <= k <= hi <= snap.edges@.len(),
                    before[u as int] is Some ==> forall|j: int|
                        #[trigger] in_row(*snap, u as int, j) && j < k && open(
                            u as int,
                            snap.col_idx@[j] as int,
                        ) && before[u as int]->0.plus(weights@[j]).bounded() ==> {
                            let d = labels.dist@[snap.col_idx@[j] as int];
                            d is Some && d->0.le(before[u as int]->0.plus(weights@[j]))
                        },
                decreases hi - k,
            {
                let v: usize = snap.col_idx[k] as usize;
                let ghost now = labels.dist@;
                if live[v] && !contains_id(nodes, v as u64) && !contains_pair(
                    pairs,
                    u as u64,
                    v as u64,
                ) {
                    assert(in_row(*snap, u as int, k as int));
                    match relax(snap, weights, Ghost(open), s, labels, u, k) {
                        None => {
                            return None;
                        },
                        Some(c) => {
                            if c {
                                changed = true;
                            }
                        },
                    }
                    proof {
                        let after = labels.dist@;
                        lemma_no_worse_later(before, now, after);
                        assert(now[u as int] is Some);
                        assert forall|x: int| 0 <= x < u && before[x] is Some implies
                            #[trigger] stepped(*snap, weights@, open, before, after, x) by {
                            lemma_stepped_later(*snap, weights@, open, before, now, after, x);
                        }
                        if before[u as int] is Some {
                            let b = before[u as int]->0;
                            assert forall|j: int|
                                #[trigger] in_row(*snap, u as int, j) && j < k + 1 && open(
                                    u as int,
                                    snap.col_idx@[j] as int,
                                ) && b.plus(weights@[j]).bounded() implies {
                                let d = after[snap.col_idx@[j] as int];
                                d is Some && d->0.le(b.plus(weights@[j]))
                            } by {
                                let y = snap.col_idx@[j] as int;
                                let w = weights@[j];
                                if j < k {
                                    assert(now[y] is Some);
                                    C::law_order(after[y]->0, now[y]->0, b.plus(w));
                                } else {
                                    let c = now[u as int]->0;
                                    C::law_plus(c, b, w);
                                    C::law_bounded(c.plus(w), b.plus(w));
                                    C::law_order(after[y]->0, c.plus(w), b.plus(w));
                                }
                            }
                        }
                    }
                }
                k = k + 1;
            }
            proof {
                if before[u as int] is Some {
                    assert(stepped(*snap, weights@, open, before, labels.dist@, u as int));
                }
            }
        }
        u = u + 1;
    }
    Some(changed)
}

/// A path of the labels has fewer steps than there are nodes.
proof fn lemma_label_short<C: Cost>(
    snap: CsrSnapshot,
    weights: Seq<C>,
    open: spec_fn(int, int) -> bool,
    s: int,
    dist: Seq<Option<C>>,
    path: Seq<usize>,
    ks: Seq<int>,
    v: int,
)
    requires
        snap.wf(),
        0 <= s < snap.n(),
        labelled(snap, weights, open, s, dist, path, ks, v),
    ensures
        ks.len() < snap.n(),
{
    let nodes = walk_nodes(snap, s, ks);
    lemma_nodes_of_walk(snap, open, s, ks, 0);
    assert forall|i: int| 0 <= i < nodes.len() implies 0 <= #[trigger] nodes[i] < snap.n() by {
        lemma_nodes_of_walk(snap, open, s, ks, i);
        lemma_walk_in_range(snap, open, s, ks.take(i));
    }
    lemma_distinct_bound(nodes, snap.n());
}

/// The cheapest simple paths from `s` over the steps that avoid `nodes` and `pairs` and
/// stay with the live nodes, whatever the weights. There are none where going round a cycle pays.
pub(crate) fn settled<C: Cost>(
    snap: &CsrSnapshot,
    weights: &Vec<C>,
    s: usize,
    nodes: &ahash::AHashSet<u64>,
    pairs: &ahash::AHashSet<(u64, u64)>,
    live: &Vec<bool>,
) -> (r: Option<Labels<C>>)
    requires
        snap.wf(),
        weights@.len() == snap.edges@.len(),
        s < snap.n(),
        live@.len() == snap.n(),
    ensures
        match r {
            None => cycle_pays(
                *snap,
                weights@,
                onward(ids_in(*nodes), pairs_in(*pairs), live@),
                s as int,
            ),
            Some(labels) => {
                let open = onward(ids_in(*nodes), pairs_in(*pairs), live@);
                &&& labels.hold(*snap, weights@, open, s as int)
                &&& forall|ks: Seq<int>|
                    #[trigger] follows(*snap, open, s as int, ks) && walk_cost(
                        weights@,
                        ks,
                    ).bounded() ==> {
                        let d = labels.dist@[walk_end(*snap, s as int, ks)];
                        d is Some && d->0.le(walk_cost(weights@, ks))
                    }
            },
        },
{
    let ghost open = onward(ids_in(*nodes), pairs_in(*pairs), live@);
    let ghost none = Seq::<int>::empty();
    let n: usize = snap.dense_to_id.len();
    let mut labels: Labels<C> = Labels {
        dist: Vec::new(),
        paths: Vec::new(),
        slots: Ghost(Seq::new(n as nat, |v: int| none)),
    };
    let mut i: usize = 0;
    while i < n
        invariant
            i <= n,
            labels.dist@.len() == i,
            labels.paths@.len() == i,
            labels.slots@ == Seq::new(n as nat, |v: int| none),
            forall|v: int| 0 <= v < i ==> (#[trigger] labels.dist@[v]) is None,
        decreases n - i,
    {
        labels.dist.push(None);
        labels.paths.push(Vec::new());
        i = i + 1;
    }
    let start: Vec<usize> = vec![s];
    labels.dist.set(s, Some(C::zero_cost()));
    labels.paths.set(s, start);
    proof {
        C::law_bounded(C::zero(), C::zero());
        C::law_order(C::zero(), C::zero(), C::zero());
        assert(as_nodes(labels.paths@[s as int]@) =~= seq![s as int]);
        assert forall|i: int| 0 <= i <= none.len() implies {
            let d = labels.dist@[walk_end(*snap, s as int, #[trigger] none.take(i))];
            d is Some && d->0.le(walk_cost(weights@, none.take(i)))
        } by {
            assert(none.take(i) =~= none);
        }
        assert(labels.slots@[s as int] == none);
        assert(follows(*snap, open, s as int, none));
        assert(least_within(*snap, weights@, open, s as int, labels.dist@, 0));
    }
    let mut round: usize = 0;
    let ghost mut last = labels.dist@;
    while round < n
        invariant
            snap.wf(),
            n == snap.n(),
            weights@.len() == snap.edges@.len(),
            s < n,
            open == onward(ids_in(*nodes), pairs_in(*pairs), live@),
            live@.len() == n,
            round <= n,
            labels.hold(*snap, weights@, open, s as int),
            last.len() == n,
            labels.dist@[s as int] is Some && labels.dist@[s as int]->0.le(C::zero()),
            least_within(*snap, weights@, open, s as int, labels.dist@, round as nat),
            round > 0 ==> improved(last, labels.dist@) && least_within(
                *snap,
                weights@,
                open,
                s as int,
                last,
                (round - 1) as nat,
            ),
        decreases n - round,
    {
        let ghost before = labels.dist@;
        match relax_all(snap, weights, nodes, pairs, live, Ghost(s as int), &mut labels) {
            None => {
                return None;
            },
            Some(changed) => {
                if !changed {
                    proof {
                        assert forall|u: int| 0 <= u < snap.n() && labels.dist@[u] is Some implies
                            #[trigger] relaxed(*snap, weights@, open, labels.dist@, u) by {
                            assert(stepped(*snap, weights@, open, before, labels.dist@, u));
                        }
                        assert forall|ks: Seq<int>|
                            #[trigger] follows(*snap, open, s as int, ks) && walk_cost(
                                weights@,
                                ks,
                            ).bounded() implies {
                            let d = labels.dist@[walk_end(*snap, s as int, ks)];
                            d is Some && d->0.le(walk_cost(weights@, ks))
                        } by {
                            lemma_relaxed_is_least(
                                *snap,
                                weights@,
                                open,
                                s as int,
                                labels.dist@,
                                ks,
                            );
                        }
                    }
                    return Some(labels);
                }
            },
        }
        proof {
            lemma_round(*snap, weights@, open, s as int, before, labels.dist@, round as nat);
            C::law_order(labels.dist@[s as int]->0, before[s as int]->0, C::zero());
            last = before;
        }
        round = round + 1;
    }
    proof {
        // What the last round found is a path of fewer steps than there were rounds.
        let dist = labels.dist@;
        let v = choose|v: int|
            0 <= v < dist.len() && (#[trigger] dist[v]) is Some && (last[v] is None
                || !last[v]->0.le(dist[v]->0));
        let ks = labels.slots@[v];
        lemma_label_short(
            *snap,
            weights@,
            open,
            s as int,
            dist,
            labels.paths@[v]@,
            ks,
            v,
        );
        assert(follows(*snap, open, s as int, ks));
        assert(false);
    }
    Some(labels)
}

} // verus!
