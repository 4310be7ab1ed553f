//! Weighted walks and the cheapest ones from a node.

use vstd::prelude::*;

use crate::cost::Cost;
use crate::csr::CsrSnapshot;
use crate::dijkstra::back_nodes;
use crate::heap::MinHeap;
use crate::paths::as_nodes;
use crate::sets::{contains_id, contains_pair, ids_in, pairs_in};
use crate::simple_paths::lemma_distinct_bound;

verus! {

/// Slot `k` belongs to the row of `u`.
pub open spec fn in_row(snap: CsrSnapshot, u: int, k: int) -> bool {
    snap.row_ptr@[u] <= k < snap.row_ptr@[u + 1]
}

/// Where a walk of slots from `s` ends.
pub open spec fn walk_end(snap: CsrSnapshot, s: int, ks: Seq<int>) -> int {
    if ks.len() == 0 {
        s
    } else {
        snap.col_idx@[ks.last()] as int
    }
}

/// `ks` is a walk from `s` over steps that `open` admits.
pub open spec fn follows(
    snap: CsrSnapshot,
    open: spec_fn(int, int) -> bool,
    s: int,
    ks: Seq<int>,
) -> bool
    decreases ks.len(),
{
    ks.len() == 0 || {
        let rest = ks.drop_last();
        let u = walk_end(snap, s, rest);
        &&& follows(snap, open, s, rest)
        &&& in_row(snap, u, ks.last())
        &&& open(u, snap.col_idx@[ks.last()] as int)
    }
}

/// The weights of a walk added from its start to its end.
pub open spec fn walk_cost<C: Cost>(weights: Seq<C>, ks: Seq<int>) -> C
    decreases ks.len(),
{
    if ks.len() == 0 {
        C::zero()
    } else {
        walk_cost(weights, ks.drop_last()).plus(weights[ks.last()])
    }
}

/// The nodes of a walk.
pub open spec fn walk_nodes(snap: CsrSnapshot, s: int, ks: Seq<int>) -> Seq<int>
    decreases ks.len(),
{
    if ks.len() == 0 {
        seq![s]
    } else {
        walk_nodes(snap, s, ks.drop_last()).push(snap.col_idx@[ks.last()] as int)
    }
}

/// Every step is admitted.
pub open spec fn anywhere() -> spec_fn(int, int) -> bool {
    |u: int, v: int| true
}

/// Steps into none of `nodes` and along none of `pairs`.
pub open spec fn around(nodes: Set<u64>, pairs: Set<(u64, u64)>) -> spec_fn(int, int) -> bool {
    |u: int, v: int| !nodes.contains(v as u64) && !pairs.contains((u as u64, v as u64))
}

/// `dist` holds the least cost of a walk from `s` to every node that a walk of
/// bounded cost leads to.
pub open spec fn least_costs<C: Cost>(
    snap: CsrSnapshot,
    weights: Seq<C>,
    open: spec_fn(int, int) -> bool,
    s: int,
    dist: Seq<Option<C>>,
) -> bool {
    &&& dist.len() == snap.n()
    &&& forall|v: int|
        0 <= v < dist.len() && (#[trigger] dist[v]) is Some ==> dist[v]->0.bounded() && exists|
            ks: Seq<int>,
        |
            #[trigger] follows(snap, open, s, ks) && walk_end(snap, s, ks) == v && walk_cost(
                weights,
                ks,
            ) == dist[v]->0
    &&& forall|ks: Seq<int>|
        #[trigger] follows(snap, open, s, ks) && walk_cost(weights, ks).bounded() ==> {
            let d = dist[walk_end(snap, s, ks)];
            d is Some && d->0.le(walk_cost(weights, ks))
        }
}

/// No step from a reached node leads to a cheaper cost.
pub open spec fn relaxed<C: Cost>(
    snap: CsrSnapshot,
    weights: Seq<C>,
    open: spec_fn(int, int) -> bool,
    dist: Seq<Option<C>>,
    u: int,
) -> bool {
    forall|k: int|
        #[trigger] in_row(snap, u, k) && open(u, snap.col_idx@[k] as int) && dist[u]->0.plus(
            weights[k],
        ).bounded() ==> {
            let d = dist[snap.col_idx@[k] as int];
            d is Some && d->0.le(dist[u]->0.plus(weights[k]))
        }
}

/// A walk stays inside the graph.
pub proof fn lemma_walk_in_range(
    snap: CsrSnapshot,
    open: spec_fn(int, int) -> bool,
    s: int,
    ks: Seq<int>,
)
    requires
        snap.wf(),
        0 <= s < snap.n(),
        follows(snap, open, s, ks),
    ensures
        0 <= walk_end(snap, s, ks) < snap.n(),
        ks.len() > 0 ==> 0 <= ks.last() < snap.edges@.len(),
    decreases ks.len(),
{
    if ks.len() > 0 {
        lemma_walk_in_range(snap, open, s, ks.drop_last());
        let u = walk_end(snap, s, ks.drop_last());
        assert(snap.row_ptr@[u + 1] <= snap.edges@.len());
    }
}

/// Where every reached node is relaxed no walk is cheaper than the costs.
pub proof fn lemma_relaxed_is_least<C: Cost>(
    snap: CsrSnapshot,
    weights: Seq<C>,
    open: spec_fn(int, int) -> bool,
    s: int,
    dist: Seq<Option<C>>,
    ks: Seq<int>,
)
    requires
        snap.wf(),
        0 <= s < snap.n(),
        dist.len() == snap.n(),
        dist[s] is Some && dist[s]->0.le(C::zero()),
        forall|u: int|
            0 <= u < snap.n() && dist[u] is Some ==> #[trigger] relaxed(
                snap,
                weights,
                open,
                dist,
                u,
            ),
        follows(snap, open, s, ks),
        walk_cost(weights, ks).bounded(),
    ensures
        dist[walk_end(snap, s, ks)] is Some,
        dist[walk_end(snap, s, ks)]->0.le(walk_cost(weights, ks)),
    decreases ks.len(),
{
    if ks.len() > 0 {
        let rest = ks.drop_last();
        let u = walk_end(snap, s, rest);
        let w = weights[ks.last()];
        lemma_walk_in_range(snap, open, s, rest);
        C::law_bounded(walk_cost(weights, rest), w);
        lemma_relaxed_is_least(snap, weights, open, s, dist, rest);
        let c = dist[u]->0;
        C::law_plus(c, walk_cost(weights, rest), w);
        C::law_bounded(c.plus(w), walk_cost(weights, ks));
        assert(relaxed(snap, weights, open, dist, u));
        assert(in_row(snap, u, ks.last()));
        C::law_order(
            dist[walk_end(snap, s, ks)]->0,
            c.plus(w),
            walk_cost(weights, ks),
        );
    }
}

/// Cheapest walks from a node: for every reached node its cost, and the node and
/// slot that a cheapest walk arrives by.
pub struct Tree<C: Cost> {
    pub dist: Vec<Option<C>>,
    pub from: Vec<usize>,
    pub via: Vec<usize>,
    /// The reached nodes in the order in which their costs were settled.
    pub order: Ghost<Seq<int>>,
}

impl<C: Cost> Tree<C> {
    /// The lists cover the nodes of the graph.
    pub open spec fn sized(&self, snap: CsrSnapshot) -> bool {
        self.dist@.len() == snap.n() && self.from@.len() == snap.n() && self.via@.len() == snap.n()
    }

    /// `v` is reached by one step from a node that was settled earlier.
    pub open spec fn linked(
        &self,
        snap: CsrSnapshot,
        weights: Seq<C>,
        open: spec_fn(int, int) -> bool,
        v: int,
    ) -> bool {
        let u = self.from@[v] as int;
        let k = self.via@[v] as int;
        &&& 0 <= u < snap.n()
        &&& self.order@.contains(u)
        &&& in_row(snap, u, k)
        &&& snap.col_idx@[k] == v
        &&& open(u, v)
        &&& self.dist@[u] is Some
        &&& self.dist@[v] == Some(self.dist@[u]->0.plus(weights[k]))
        &&& self.order@.contains(v) ==> self.order@.index_of(u) < self.order@.index_of(v)
    }

    /// The tree is complete: it holds the least costs, and every reached node
    /// hangs on one that was settled before it.
    pub open spec fn spans(
        &self,
        snap: CsrSnapshot,
        weights: Seq<C>,
        open: spec_fn(int, int) -> bool,
        s: int,
    ) -> bool {
        &&& self.sized(snap)
        &&& self.order@.no_duplicates()
        &&& forall|i: int| 0 <= i < self.order@.len() ==> 0 <= #[trigger] self.order@[i] < snap.n()
        &&& self.dist@[s] == Some(C::zero())
        &&& forall|v: int|
            0 <= v < snap.n() ==> ((#[trigger] self.dist@[v]) is Some <==> self.order@.contains(v))
        &&& forall|v: int|
            0 <= v < snap.n() && v != s && (#[trigger] self.dist@[v]) is Some ==> self.linked(
                snap,
                weights,
                open,
                v,
            )
        &&& least_costs(snap, weights, open, s, self.dist@)
    }
}

/// What a search has to keep about a tree while it grows: the links, the
/// relaxed nodes, and where the costs of the open nodes are queued.
pub open spec fn growing<C: Cost>(
    snap: CsrSnapshot,
    weights: Seq<C>,
    open: spec_fn(int, int) -> bool,
    s: int,
    tree: Tree<C>,
    done: Seq<bool>,
) -> bool {
    &&& tree.sized(snap)
    &&& done.len() == snap.n()
    &&& tree.order@.no_duplicates()
    &&& tree.dist@[s] == Some(C::zero())
    &&& forall|v: int| 0 <= v < snap.n() ==> (#[trigger] done[v] <==> tree.order@.contains(v))
    &&& forall|v: int| 0 <= v < snap.n() && #[trigger] done[v] ==> tree.dist@[v] is Some
    &&& forall|v: int|
        0 <= v < snap.n() && (#[trigger] tree.dist@[v]) is Some ==> tree.dist@[v]->0.bounded()
    &&& forall|v: int|
        0 <= v < snap.n() && v != s && (#[trigger] tree.dist@[v]) is Some ==> tree.linked(
            snap,
            weights,
            open,
            v,
        )
    &&& forall|i: int| 0 <= i < tree.order@.len() ==> 0 <= #[trigger] tree.order@[i] < snap.n()
}

/// Every queued entry is for a reached node and is no better than its cost; every
/// reached node that is not done is queued with its cost.
pub open spec fn queued<C: Cost>(
    snap: CsrSnapshot,
    dist: Seq<Option<C>>,
    done: Seq<bool>,
    heap: MinHeap<C>,
) -> bool {
    &&& heap.wf()
    &&& forall|e: (C, usize)|
        #[trigger] heap.holds(e) ==> e.1 < snap.n() && dist[e.1 as int] is Some
            && dist[e.1 as int]->0.le(e.0)
    &&& forall|v: int|
        0 <= v < snap.n() && (#[trigger] dist[v]) is Some && !done[v] ==> heap.holds(
            (dist[v]->0, v as usize),
        )
}

/// Every done node is at most as far as every queued entry.
pub open spec fn in_front<C: Cost>(
    snap: CsrSnapshot,
    dist: Seq<Option<C>>,
    done: Seq<bool>,
    heap: MinHeap<C>,
) -> bool {
    forall|v: int, e: (C, usize)|
        #![trigger done[v], heap.holds(e)]
        0 <= v < snap.n() && done[v] && heap.holds(e) ==> dist[v]->0.le(e.0)
}

/// Relaxes the steps of a node whose cost is settled.
fn relax_row<C: Cost>(
    snap: &CsrSnapshot,
    weights: &Vec<C>,
    s: usize,
    u: usize,
    nodes: &ahash::AHashSet<u64>,
    pairs: &ahash::AHashSet<(u64, u64)>,
    tree: &mut Tree<C>,
    done: &Vec<bool>,
    heap: &mut MinHeap<C>,
)
    requires
        snap.wf(),
        weights@.len() == snap.edges@.len(),
        forall|k: int| 0 <= k < weights@.len() ==> C::zero().le(#[trigger] weights@[k]),
        s < snap.n(),
        u < snap.n(),
        growing(
            *snap,
            weights@,
            around(ids_in(*nodes), pairs_in(*pairs)),
            s as int,
            *old(tree),
            done@,
        ),
        done@[s as int],
        done@[u as int],
        queued(*snap, old(tree).dist@, done@, *old(heap)),
        in_front(*snap, old(tree).dist@, done@, *old(heap)),
        forall|v: int|
            0 <= v < snap.n() && #[trigger] done@[v] ==> old(tree).dist@[v]->0.le(
                old(tree).dist@[u as int]->0,
            ),
        forall|v: int|
            0 <= v < snap.n() && done@[v] && v != u ==> #[trigger] relaxed(
                *snap,
                weights@,
                around(ids_in(*nodes), pairs_in(*pairs)),
                old(tree).dist@,
                v,
            ),
    ensures
        growing(
            *snap,
            weights@,
            around(ids_in(*nodes), pairs_in(*pairs)),
            s as int,
            *final(tree),
            done@,
        ),
        final(tree).order@ == old(tree).order@,
        queued(*snap, final(tree).dist@, done@, *final(heap)),
        in_front(*snap, final(tree).dist@, done@, *final(heap)),
        forall|v: int|
            0 <= v < snap.n() && done@[v] ==> #[trigger] relaxed(
                *snap,
                weights@,
                around(ids_in(*nodes), pairs_in(*pairs)),
                final(tree).dist@,
                v,
            ),
{
    let ghost open = around(ids_in(*nodes), pairs_in(*pairs));
    let ghost base = tree.dist@[u as int]->0;
    let base_cost: C = match tree.dist[u] {
        Some(c) => c,
        None => C::zero_cost(),
    };
    let lo: usize = snap.row_ptr[u];
    let hi: usize = snap.row_ptr[u + 1];
    let mut k: usize = lo;
    while k < hi
        invariant
            snap.wf(),
            weights@.len() == snap.edges@.len(),
            forall|j: int| 0 <= j < weights@.len() ==> C::zero().le(#[trigger] weights@[j]),
            s < snap.n(),
            u < snap.n(),
            open == around(ids_in(*nodes), pairs_in(*pairs)),
            growing(*snap, weights@, open, s as int, *tree, done@),
            tree.order@ == old(tree).order@,
            done@[s as int],
            done@[u as int],
            base_cost == base,
            tree.dist@[u as int] == Some(base),
            queued(*snap, tree.dist@, done@, *heap),
            in_front(*snap, tree.dist@, done@, *heap),
            forall|v: int|
                0 <= v < snap.n() && #[trigger] done@[v] ==> tree.dist@[v]->0.le(base),
            forall|v: int|
                0 <= v < snap.n() && done@[v] && v != u ==> #[trigger] relaxed(
                    *snap,
                    weights@,
                    open,
                    tree.dist@,
                    v,
                ),
            lo == snap.row_ptr@[u as int],
            hi == snap.row_ptr@[u + 1],
            lo <= k <= hi <= snap.edges@.len(),
            forall|j: int|
                #[trigger] in_row(*snap, u as int, j) && j < k && open(
                    u as int,
                    snap.col_idx@[j] as int,
                ) && base.plus(
                    weights@[j],
                ).bounded() ==> {
                    let d = tree.dist@[snap.col_idx@[j] as int];
                    d is Some && d->0.le(base.plus(weights@[j]))
                },
        decreases hi - k,
    {
        let v: usize = snap.col_idx[k] as usize;
        let ghost dist0 = tree.dist@;
        let ghost heap0 = *heap;
        let ghost tree0 = *tree;
        if !contains_id(nodes, v as u64) && !contains_pair(pairs, u as u64, v as u64) {
            let candidate: C = base_cost.added(&weights[k]);
            let better: bool = match tree.dist[v] {
                None => true,
                Some(c) => candidate.less(&c),
            };
            proof {
                C::law_plus(base, base, weights@[k as int]);
                C::law_order(candidate, candidate, candidate);
                assert(in_row(*snap, u as int, k as int));
                if done@[v as int] {
                    C::law_order(dist0[v as int]->0, base, candidate);
                }
                if dist0[v as int] is Some {
                    C::law_order(dist0[v as int]->0, candidate, candidate);
                }
            }
            if better && candidate.is_bounded() {
                tree.dist.set(v, Some(candidate));
                tree.from.set(v, u);
                tree.via.set(v, k);
                heap.push(candidate, v);
                proof {
                    assert(!done@[v as int]);
                    assert forall|x: int|
                        0 <= x < snap.n() && x != s as int && (#[trigger] tree.dist@[x])
                            is Some implies tree.linked(*snap, weights@, open, x) by {
                        if x == v {
                            assert(tree.order@.contains(u as int));
                        } else {
                            assert(dist0[x] is Some);
                            assert(tree0.linked(*snap, weights@, open, x));
                            let y = tree0.from@[x] as int;
                            assert(done@[y]);
                        }
                    }
                    assert forall|e: (C, usize)| #[trigger] heap.holds(e) implies e.1 < snap.n()
                        && tree.dist@[e.1 as int] is Some && tree.dist@[e.1 as int]->0.le(
                        e.0,
                    ) by {
                        if heap0.holds(e) {
                            if e.1 == v {
                                C::law_order(candidate, dist0[v as int]->0, e.0);
                            }
                        }
                    }
                    assert forall|x: int|
                        0 <= x < snap.n() && (#[trigger] tree.dist@[x]) is Some
                            && !done@[x] implies heap.holds((tree.dist@[x]->0, x as usize)) by {
                        if x == v {
                            assert(heap.holds((candidate, v)));
                        } else {
                            assert(dist0[x] is Some);
                            assert(heap0.holds((dist0[x]->0, x as usize)));
                        }
                    }
                    assert forall|x: int, e: (C, usize)|
                        #![trigger done@[x], heap.holds(e)]
                        0 <= x < snap.n() && done@[x] && heap.holds(e) implies tree.dist@[x]->0.le(
                        e.0,
                    ) by {
                        if heap0.holds(e) {
                            assert(dist0[x]->0.le(e.0));
                        } else {
                            C::law_order(dist0[x]->0, base, candidate);
                        }
                    }
                    assert forall|x: int|
                        0 <= x < snap.n() && done@[x] && x != u implies #[trigger] relaxed(
                        *snap,
                        weights@,
                        open,
                        tree.dist@,
                        x,
                    ) by {
                        assert(relaxed(*snap, weights@, open, dist0, x));
                        assert forall|j: int|
                            #[trigger] in_row(*snap, x, j) && open(x, snap.col_idx@[j] as int)
                                && tree.dist@[x]->0.plus(weights@[j]).bounded() implies {
                            let d = tree.dist@[snap.col_idx@[j] as int];
                            d is Some && d->0.le(tree.dist@[x]->0.plus(weights@[j]))
                        } by {
                            if snap.col_idx@[j] == v {
                                C::law_order(
                                    candidate,
                                    dist0[v as int]->0,
                                    dist0[x]->0.plus(weights@[j]),
                                );
                            }
                        }
                    }
                    assert forall|j: int|
                        #[trigger] in_row(*snap, u as int, j) && j < k + 1 && open(
                            u as int,
                            snap.col_idx@[j] as int,
                        ) && base.plus(
                            weights@[j],
                        ).bounded() implies {
                        let d = tree.dist@[snap.col_idx@[j] as int];
                        d is Some && d->0.le(base.plus(weights@[j]))
                    } by {
                        if j < k && snap.col_idx@[j] == v {
                            C::law_order(
                                candidate,
                                dist0[v as int]->0,
                                base.plus(weights@[j]),
                            );
                        }
                    }
                }
            }
        }
        k = k + 1;
    }
    proof {
        assert(relaxed(*snap, weights@, open, tree.dist@, u as int)) by {
            assert forall|j: int|
                #[trigger] in_row(*snap, u as int, j) && open(
                    u as int,
                    snap.col_idx@[j] as int,
                ) && tree.dist@[u as int]->0.plus(weights@[j]).bounded() implies {
                let d = tree.dist@[snap.col_idx@[j] as int];
                d is Some && d->0.le(tree.dist@[u as int]->0.plus(weights@[j]))
            } by {}
        }
    }
}

/// The cheapest walks from `s` that keep away from blocked nodes and pairs, by
/// Dijkstra's algorithm. Weights must not be negative.
pub fn cheapest_walks<C: Cost>(
    snap: &CsrSnapshot,
    weights: &Vec<C>,
    s: usize,
    nodes: &ahash::AHashSet<u64>,
    pairs: &ahash::AHashSet<(u64, u64)>,
) -> (tree: Tree<C>)
    requires
        snap.wf(),
        weights@.len() == snap.edges@.len(),
        forall|k: int| 0 <= k < weights@.len() ==> C::zero().le(#[trigger] weights@[k]),
        s < snap.n(),
    ensures
        tree.spans(*snap, weights@, around(ids_in(*nodes), pairs_in(*pairs)), s as int),
{
    let ghost open = around(ids_in(*nodes), pairs_in(*pairs));
    let n: usize = snap.dense_to_id.len();
    let mut dist: Vec<Option<C>> = Vec::new();
    let mut i: usize = 0;
    while i < n
        invariant
            i <= n,
            dist@.len() == i,
            forall|v: int| 0 <= v < i ==> (#[trigger] dist@[v]) is None,
        decreases n - i,
    {
        dist.push(None);
        i = i + 1;
    }
    dist.set(s, Some(C::zero_cost()));
    let mut tree: Tree<C> = Tree {
        dist,
        from: vec![0usize; n],
        via: vec![0usize; n],
        order: Ghost(Seq::empty()),
    };
    let mut done: Vec<bool> = vec![false; n];
    let mut heap: MinHeap<C> = MinHeap::new();
    proof {
        assert forall|e: (C, usize)| !heap.holds(e) by {}
        C::law_order(C::zero(), C::zero(), C::zero());
        C::law_bounded(C::zero(), C::zero());
    }
    heap.push(C::zero_cost(), s);
    loop
        invariant
            snap.wf(),
            n == snap.n(),
            weights@.len() == snap.edges@.len(),
            forall|k: int| 0 <= k < weights@.len() ==> C::zero().le(#[trigger] weights@[k]),
            s < snap.n(),
            open == around(ids_in(*nodes), pairs_in(*pairs)),
            growing(*snap, weights@, open, s as int, tree, done@),
            queued(*snap, tree.dist@, done@, heap),
            in_front(*snap, tree.dist@, done@, heap),
            !done@[s as int] ==> (tree.order@.len() == 0 && forall|v: int|
                0 <= v < snap.n() && v != s ==> (#[trigger] tree.dist@[v]) is None),
            forall|v: int|
                0 <= v < snap.n() && done@[v] ==> #[trigger] relaxed(
                    *snap,
                    weights@,
                    open,
                    tree.dist@,
                    v,
                ),
            tree.order@.len() <= n,
        ensures
            growing(*snap, weights@, open, s as int, tree, done@),
            queued(*snap, tree.dist@, done@, heap),
            heap.size() == 0,
            forall|v: int|
                0 <= v < snap.n() && done@[v] ==> #[trigger] relaxed(
                    *snap,
                    weights@,
                    open,
                    tree.dist@,
                    v,
                ),
        decreases n - tree.order@.len(), heap.size(),
    {
        let ghost heap0 = heap;
        let (cost, u) = match heap.pop() {
            None => {
                break;
            },
            Some(top) => top,
        };
        assert(heap0.holds((cost, u)));
        let known: Option<C> = tree.dist[u];
        let stale: bool = match known {
            Some(c) => c.less(&cost),
            None => true,
        };
        if done[u] || stale {
            proof {
                assert forall|v: int|
                    0 <= v < snap.n() && (#[trigger] tree.dist@[v]) is Some
                        && !done@[v] implies heap.holds((tree.dist@[v]->0, v as usize)) by {
                    assert(heap0.holds((tree.dist@[v]->0, v as usize)));
                    if (tree.dist@[v]->0, v as usize) == (cost, u) {
                        C::law_order(cost, cost, cost);
                    }
                }
            }
            continue;
        }
        let ghost order0 = tree.order@;
        let ghost tree0 = tree;
        let ghost done0 = done@;
        done.set(u, true);
        tree.order = Ghost(order0.push(u as int));
        proof {
            let order1 = tree.order@;
            let base = tree.dist@[u as int]->0;
            assert(!order0.contains(u as int));
            assert forall|x: int| #[trigger] order1.contains(x) <==> order0.contains(x) || x
                == u as int by {
                if order0.contains(x) {
                    let i = choose|i: int| 0 <= i < order0.len() && order0[i] == x;
                    assert(order1[i] == x);
                }
                if x == u as int {
                    assert(order1[order0.len() as int] == x);
                }
            }
            lemma_index_of_push(order0, u as int);
            assert forall|v: int|
                0 <= v < snap.n() && v != s as int && (#[trigger] tree.dist@[v])
                    is Some implies tree.linked(*snap, weights@, open, v) by {
                assert(tree0.dist@[v] is Some);
                assert(tree0.linked(*snap, weights@, open, v));
                let y = tree0.from@[v] as int;
                assert(order0.contains(y));
            }
            assert(order1.no_duplicates());
            crate::simple_paths::lemma_distinct_bound(order1, snap.n());
            if !done0[s as int] {
                assert(u == s);
            }
            assert forall|e: (C, usize)| #[trigger] heap.holds(e) implies base.le(e.0) by {
                assert(heap0.holds(e));
                C::law_order(base, cost, e.0);
            }
            assert forall|v: int|
                0 <= v < snap.n() && #[trigger] done@[v] implies tree.dist@[v]->0.le(base) by {
                C::law_order(base, base, base);
                if v != u as int {
                    assert(done0[v]);
                    assert(tree.dist@[v]->0.le(cost));
                    C::law_order(tree.dist@[v]->0, cost, base);
                    C::law_order(base, cost, cost);
                }
            }
            assert forall|v: int, e: (C, usize)|
                #![trigger done@[v], heap.holds(e)]
                0 <= v < snap.n() && done@[v] && heap.holds(e) implies tree.dist@[v]->0.le(
                e.0,
            ) by {
                assert(heap0.holds(e));
                if v != u as int {
                    assert(done0[v]);
                }
            }
            assert forall|v: int|
                0 <= v < snap.n() && (#[trigger] tree.dist@[v]) is Some
                    && !done@[v] implies heap.holds((tree.dist@[v]->0, v as usize)) by {
                assert(!done0[v]);
                assert(heap0.holds((tree.dist@[v]->0, v as usize)));
            }
        }
        relax_row(snap, weights, s, u, nodes, pairs, &mut tree, &done, &mut heap);
    }
    proof {
        assert forall|v: int| 0 <= v < snap.n() && (#[trigger] tree.dist@[v]) is Some implies
            done@[v] by {
            if !done@[v] {
                assert(heap.holds((tree.dist@[v]->0, v as usize)));
            }
        }
        assert forall|v: int| 0 <= v < snap.n() implies ((#[trigger] tree.dist@[v]) is Some
            <==> tree.order@.contains(v)) by {
            assert(done@[v] <==> tree.order@.contains(v));
        }
        C::law_order(C::zero(), C::zero(), C::zero());
        assert(least_costs(*snap, weights@, open, s as int, tree.dist@)) by {
            assert forall|v: int|
                0 <= v < tree.dist@.len() && (#[trigger] tree.dist@[v])
                    is Some implies tree.dist@[v]->0.bounded() && exists|ks: Seq<int>|
                #[trigger] follows(*snap, open, s as int, ks) && walk_end(
                    *snap,
                    s as int,
                    ks,
                ) == v && walk_cost(weights@, ks) == tree.dist@[v]->0 by {
                let fuel = tree.order@.index_of(v) as nat;
                assert(tree.order@.contains(v));
                lemma_tree_walk(*snap, weights@, open, s as int, tree, v, fuel);
                assert(follows(*snap, open, s as int, tree_walk(tree, s as int, v, fuel)));
            }
            assert forall|ks: Seq<int>|
                #[trigger] follows(*snap, open, s as int, ks) && walk_cost(
                    weights@,
                    ks,
                ).bounded() implies {
                let d = tree.dist@[walk_end(*snap, s as int, ks)];
                d is Some && d->0.le(walk_cost(weights@, ks))
            } by {
                lemma_relaxed_is_least(*snap, weights@, open, s as int, tree.dist@, ks);
            }
        }
    }
    tree
}

/// Pushing a new item keeps the positions of the others and puts it last.
proof fn lemma_index_of_push(s: Seq<int>, v: int)
    requires
        s.no_duplicates(),
        !s.contains(v),
    ensures
        s.push(v).index_of(v) == s.len(),
        forall|x: int|
            s.contains(x) ==> #[trigger] s.push(v).index_of(x) == s.index_of(x) && s.index_of(x)
                < s.len(),
{
    let t = s.push(v);
    assert(t[s.len() as int] == v);
    assert(t.contains(v));
    assert forall|x: int| s.contains(x) implies #[trigger] t.index_of(x) == s.index_of(x)
        && s.index_of(x) < s.len() by {
        let i = s.index_of(x);
        assert(0 <= i < s.len() && s[i] == x);
        assert(t[i] == x);
        assert(t.contains(x));
        let j = t.index_of(x);
        assert(0 <= j < t.len() && t[j] == x);
        if j < s.len() {
            assert(s[j] == x);
        }
    }
    let j = t.index_of(v);
    assert(0 <= j < t.len() && t[j] == v);
    if j < s.len() {
        assert(s[j] == v);
    }
}

/// The walk of a tree to `v`, of at most `fuel` steps.
pub open spec fn tree_walk<C: Cost>(tree: Tree<C>, s: int, v: int, fuel: nat) -> Seq<int>
    decreases fuel,
{
    if v == s || fuel == 0 {
        Seq::empty()
    } else {
        tree_walk(tree, s, tree.from@[v] as int, (fuel - 1) as nat).push(tree.via@[v] as int)
    }
}

/// The walk of a tree to a reached node costs what the tree says and visits no
/// node twice.
pub proof fn lemma_tree_walk<C: Cost>(
    snap: CsrSnapshot,
    weights: Seq<C>,
    open: spec_fn(int, int) -> bool,
    s: int,
    tree: Tree<C>,
    v: int,
    fuel: nat,
)
    requires
        snap.wf(),
        tree.sized(snap),
        0 <= s < snap.n(),
        0 <= v < snap.n(),
        tree.order@.no_duplicates(),
        tree.dist@[s] == Some(C::zero()),
        forall|x: int|
            0 <= x < snap.n() && (#[trigger] tree.dist@[x]) is Some ==> tree.order@.contains(x),
        forall|x: int|
            0 <= x < snap.n() && x != s && (#[trigger] tree.dist@[x]) is Some ==> tree.linked(
                snap,
                weights,
                open,
                x,
            ),
        tree.dist@[v] is Some,
        tree.order@.index_of(v) <= fuel,
    ensures
        ({
            let ks = tree_walk(tree, s, v, fuel);
            let nodes = walk_nodes(snap, s, ks);
            &&& follows(snap, open, s, ks)
            &&& walk_end(snap, s, ks) == v
            &&& walk_cost(weights, ks) == tree.dist@[v]->0
            &&& nodes.no_duplicates()
            &&& nodes.last() == v
            &&& forall|i: int|
                0 <= i < nodes.len() ==> tree.order@.contains(#[trigger] nodes[i])
                    && tree.order@.index_of(nodes[i]) <= tree.order@.index_of(v)
        }),
    decreases fuel,
{
    assert(tree.order@.contains(v));
    let iv = tree.order@.index_of(v);
    assert(0 <= iv < tree.order@.len() && tree.order@[iv] == v);
    let ks = tree_walk(tree, s, v, fuel);
    if v == s {
        assert(walk_nodes(snap, s, ks) =~= seq![s]);
    } else {
        let u = tree.from@[v] as int;
        assert(tree.linked(snap, weights, open, v));
        let iu = tree.order@.index_of(u);
        assert(0 <= iu < tree.order@.len() && tree.order@[iu] == u);
        lemma_tree_walk(snap, weights, open, s, tree, u, (fuel - 1) as nat);
        let rest = tree_walk(tree, s, u, (fuel - 1) as nat);
        assert(ks.drop_last() =~= rest);
        let nodes = walk_nodes(snap, s, rest);
        let all = nodes.push(v);
        assert(walk_nodes(snap, s, ks) == all);
        assert forall|i: int| 0 <= i < all.len() implies tree.order@.contains(#[trigger] all[i])
            && tree.order@.index_of(all[i]) <= iv by {
            if i < nodes.len() {
                assert(all[i] == nodes[i]);
            }
        }
        assert(all.no_duplicates()) by {
            assert forall|i: int| 0 <= i < nodes.len() implies nodes[i] != v by {
                assert(tree.order@.index_of(nodes[i]) <= iu);
            }
        }
    }
}

/// The nodes of the walk of a tree to `t`.
pub(crate) fn tree_path<C: Cost>(
    snap: &CsrSnapshot,
    weights: Ghost<Seq<C>>,
    open: Ghost<spec_fn(int, int) -> bool>,
    tree: &Tree<C>,
    s: usize,
    t: usize,
) -> (nodes: Vec<usize>)
    requires
        snap.wf(),
        s < snap.n(),
        t < snap.n(),
        tree.spans(*snap, weights@, open@, s as int),
        tree.dist@[t as int] is Some,
    ensures
        as_nodes(nodes@) == walk_nodes(
            *snap,
            s as int,
            tree_walk(*tree, s as int, t as int, snap.n()),
        ),
        forall|i: int| 0 <= i < nodes@.len() ==> (#[trigger] nodes@[i]) < snap.n(),
{
    let n: usize = snap.dense_to_id.len();
    let mut rev: Vec<usize> = vec![t];
    let mut cur: usize = t;
    let mut left: usize = n;
    let ghost ks = tree_walk(*tree, s as int, t as int, n as nat);
    proof {
        assert(rev@ =~= seq![t]);
        lemma_distinct_bound(tree.order@, snap.n());
        assert(tree.order@.contains(t as int));
        lemma_tree_walk(*snap, weights@, open@, s as int, *tree, t as int, n as nat);
        assert(walk_nodes(*snap, s as int, ks) + back_nodes(rev@.drop_last()) =~= walk_nodes(
            *snap,
            s as int,
            ks,
        ));
    }
    while cur != s
        invariant
            snap.wf(),
            n == snap.n(),
            s < n,
            cur < n,
            tree.spans(*snap, weights@, open@, s as int),
            tree.dist@[cur as int] is Some,
            tree.order@.index_of(cur as int) <= left,
            rev@.len() > 0,
            rev@.last() == cur,
            forall|i: int| 0 <= i < rev@.len() ==> (#[trigger] rev@[i]) < n,
            walk_nodes(*snap, s as int, ks) == walk_nodes(
                *snap,
                s as int,
                tree_walk(*tree, s as int, cur as int, left as nat),
            ) + back_nodes(rev@.drop_last()),
        decreases left,
    {
        let u: usize = tree.from[cur];
        let ghost rev0 = rev@;
        proof {
            assert(tree.linked(*snap, weights@, open@, cur as int));
            assert(tree.order@.contains(cur as int));
            let here = tree_walk(*tree, s as int, cur as int, left as nat);
            let rest = tree_walk(*tree, s as int, u as int, (left - 1) as nat);
            assert(here.drop_last() =~= rest);
            assert(tree.order@.index_of(u as int) >= 0) by {
                assert(tree.order@.contains(u as int));
            }
        }
        rev.push(u);
        proof {
            assert(rev@.drop_last() =~= rev0);
            let rest = walk_nodes(
                *snap,
                s as int,
                tree_walk(*tree, s as int, u as int, (left - 1) as nat),
            );
            assert(rest.push(cur as int) + back_nodes(rev0.drop_last()) =~= rest + back_nodes(
                rev0,
            ));
        }
        cur = u;
        left = left - 1;
    }
    let mut nodes: Vec<usize> = Vec::new();
    let mut i: usize = rev.len();
    while i > 0
        invariant
            i <= rev@.len(),
            nodes@.len() == rev@.len() - i,
            forall|k: int|
                0 <= k < nodes@.len() ==> #[trigger] nodes@[k] == rev@[rev@.len() - 1 - k],
        decreases i,
    {
        i = i - 1;
        nodes.push(rev[i]);
    }
    proof {
        let rest = tree_walk(*tree, s as int, s as int, left as nat);
        assert(walk_nodes(*snap, s as int, rest) =~= seq![s as int]);
        assert(as_nodes(nodes@) =~= seq![s as int] + back_nodes(rev@.drop_last()));
    }
    nodes
}

} // verus!
